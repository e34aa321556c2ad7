//! How tasks line up: who starts next, where a task goes when it is paused, resumed or cancelled, and
//! what becomes of it at its end.

use crate::path;
use crate::queue;
use crate::queue::{Cancelled, PauseOutcome, QueueError, QueueModel, QueueResult};
use crate::task;
use crate::task::{Task, TaskId, TaskState};
use vstd::prelude::*;

verus! {

/// The tasks but the one with the id `id` are as before.
pub open spec fn others_stay(m: QueueModel, n: QueueModel, id: TaskId) -> bool {
    &&& n.all.len() == m.all.len()
    &&& forall|i: int|
        0 <= i < m.all.len() && (#[trigger] m.all[i]).id != id ==> n.all[i] == m.all[i]
    &&& n.max == m.max
    &&& n.fold_case == m.fold_case
}

/// The task keeps everything but its state.
pub open spec fn same_but_state(a: Task, b: Task) -> bool {
    a == (Task { state: a.state, ..b })
}

proof fn lemma_id_place(s: Seq<TaskId>, id: TaskId)
    ensures
        -1 <= queue::id_place(s, id) < s.len(),
        queue::id_place(s, id) >= 0 <==> s.contains(id),
        queue::id_place(s, id) >= 0 ==> s[queue::id_place(s, id)] == id,
    decreases s.len(),
{
    if s.len() > 0 {
        let front = s.drop_last();
        lemma_id_place(front, id);
        assert(s[s.len() - 1] == s.last());
        if s.contains(id) && s.last() != id {
            let w = choose|w: int| 0 <= w < s.len() && s[w] == id;
            assert(front[w] == id);
        }
        if front.contains(id) {
            let w = choose|w: int| 0 <= w < front.len() && front[w] == id;
            assert(s[w] == id);
        }
    }
}

/// The list `b` is the list `a` without `id`, all others in their order; or the same list if it does
/// not hold the id.
pub open spec fn left_out(a: Seq<TaskId>, b: Seq<TaskId>, id: TaskId) -> bool {
    if a.contains(id) {
        exists|p: int| 0 <= p < a.len() && a[p] == id && b == #[trigger] a.remove(p)
    } else {
        b == a
    }
}

/// A list without one of its ids does not hold it, and holds the others in their order.
proof fn lemma_without(s: Seq<TaskId>, id: TaskId)
    requires
        s.no_duplicates(),
    ensures
        !queue::without_id(s, id).contains(id),
        forall|x: TaskId| x != id ==> (#[trigger] queue::without_id(s, id).contains(x) <==> s.contains(x)),
        queue::without_id(s, id).len() == s.len() - (if s.contains(id) {
            1int
        } else {
            0
        }),
        left_out(s, queue::without_id(s, id), id),
{
    lemma_id_place(s, id);
    let p = queue::id_place(s, id);
    let t = queue::without_id(s, id);
    if p >= 0 {
        assert forall|i: int| 0 <= i < t.len() implies #[trigger] t[i] == s[if i < p {
            i
        } else {
            i + 1
        }] by {}
        if t.contains(id) {
            let w = choose|w: int| 0 <= w < t.len() && t[w] == id;
            assert(false);
        }
        assert forall|x: TaskId| x != id implies (#[trigger] t.contains(x) <==> s.contains(x)) by {
            if s.contains(x) {
                let w = choose|w: int| 0 <= w < s.len() && s[w] == x;
                let v = if w < p {
                    w
                } else {
                    w - 1
                };
                assert(t[v] == x);
            }
            if t.contains(x) {
                let w = choose|w: int| 0 <= w < t.len() && t[w] == x;
                assert(s[if w < p {
                    w
                } else {
                    w + 1
                }] == x);
            }
        }
    }
}

/// A task whose state changes is the only one that does.
proof fn lemma_in_state(m: QueueModel, id: TaskId, state: TaskState)
    requires
        m.sound(),
        m.knows(id),
    ensures
        others_stay(m, m.in_state(id, state), id),
        m.in_state(id, state).knows(id),
        m.in_state(id, state).task(id).state == state,
        same_but_state(m.in_state(id, state).task(id), m.task(id)),
        m.in_state(id, state).queue == m.queue,
        m.in_state(id, state).active == m.active,
        m.in_state(id, state).occupied == m.occupied,
{
    let n = m.in_state(id, state);
    queue::lemma_task_place(m.all, id);
    queue::lemma_task_place(n.all, id);
    let p = queue::task_place(m.all, id);
    assert(n.all[p].id == id);
    let q = queue::task_place(n.all, id);
    if q < p {
        assert(m.all[q].id != m.all[p].id);
    }
    assert(q == p);
    assert forall|i: int| 0 <= i < m.all.len() && (#[trigger] m.all[i]).id != id implies n.all[i]
        == m.all[i] by {}
}

/// A new task waits behind all others, and its path is taken. No other task changes.
pub proof fn law_new_tasks_wait_last(m: QueueModel, t: Task)
    requires
        m.sound(),
        !m.knows(t.id),
    ensures
        ({
            let n = m.enqueued(t);
            &&& n.queue.len() == m.queue.len() + 1
            &&& n.queue.last() == t.id
            &&& n.queue.drop_last() == m.queue
            &&& n.active == m.active
            &&& n.knows(t.id) && n.task(t.id) == t
            &&& n.all.drop_last() == m.all
            &&& n.occupied == m.occupied.insert(m.key(t.output_path@))
            &&& n.max == m.max
        }),
{
    let n = m.enqueued(t);
    assert(n.queue.drop_last() =~= m.queue);
    assert(n.all.drop_last() =~= m.all);
}

/// The next task starts exactly if fewer run than may and one waits. It is the one that waited longest
/// at the front; it runs, and those behind it move up. No other task changes.
pub proof fn law_the_first_in_line_starts(m: QueueModel)
    requires
        m.sound(),
    ensures
        m.may_start() <==> m.active.len() < m.max && m.queue.len() > 0,
        m.may_start() ==> ({
            let n = m.pumped();
            let id = m.queue[0];
            &&& n.active.len() == m.active.len() + 1
            &&& n.active.len() <= m.max
            &&& n.active.last() == id
            &&& n.active.drop_last() == m.active
            &&& n.queue == m.queue.skip(1)
            &&& n.knows(id) && n.task(id).state is Active
            &&& same_but_state(n.task(id), m.task(id))
            &&& n.occupied == m.occupied
            &&& others_stay(m, n, id)
        }),
{
    if m.may_start() {
        let id = m.queue[0];
        assert(m.knows(id));
        lemma_in_state(m, id, TaskState::Active);
        assert(m.pumped().active.drop_last() =~= m.active);
    }
}

/// A paused task neither waits nor runs, and keeps its path. The others keep their order, and no other
/// task changes.
pub proof fn law_paused_tasks_step_aside(m: QueueModel, id: TaskId)
    requires
        m.sound(),
        m.knows(id),
    ensures
        ({
            let n = m.paused(id);
            &&& n.knows(id) && n.task(id).state is Paused
            &&& same_but_state(n.task(id), m.task(id))
            &&& !n.queue.contains(id)
            &&& !n.active.contains(id)
            &&& left_out(m.queue, n.queue, id)
            &&& forall|x: TaskId|
                x != id ==> (#[trigger] n.queue.contains(x) <==> m.queue.contains(x))
            &&& left_out(m.active, n.active, id)
            &&& forall|x: TaskId|
                x != id ==> (#[trigger] n.active.contains(x) <==> m.active.contains(x))
            &&& n.occupied == m.occupied
            &&& others_stay(m, n, id)
        }),
{
    lemma_in_state(m, id, TaskState::Paused);
    lemma_id_place(m.active, id);
    lemma_id_place(m.queue, id);
    lemma_without(m.active, id);
    lemma_without(m.queue, id);
    if m.runs(id) && m.queue.contains(id) {
        let i = choose|i: int| 0 <= i < m.queue.len() && m.queue[i] == id;
        let j = choose|j: int| 0 <= j < m.active.len() && m.active[j] == id;
        assert(m.queue[i] != m.active[j]);
    }
}

/// A resumed task waits in front of all others. No other task changes.
pub proof fn law_resumed_tasks_come_first(m: QueueModel, id: TaskId)
    requires
        m.sound(),
        m.knows(id),
    ensures
        ({
            let n = m.resumed(id);
            &&& n.knows(id) && n.task(id).state is Queued
            &&& same_but_state(n.task(id), m.task(id))
            &&& n.queue.len() == m.queue.len() + 1
            &&& n.queue[0] == id
            &&& n.queue.skip(1) == m.queue
            &&& n.active == m.active
            &&& n.occupied == m.occupied
            &&& others_stay(m, n, id)
        }),
{
    lemma_in_state(m, id, TaskState::Queued);
    assert(m.resumed(id).queue.skip(1) =~= m.queue);
}

/// Pausing a task that waits and resuming it brings it to the front and changes nothing else.
pub proof fn law_pausing_and_resuming_brings_a_task_to_the_front(m: QueueModel, id: TaskId)
    requires
        m.sound(),
        m.knows(id),
        m.task(id).state is Queued,
        m.paused(id).sound(),
    ensures
        ({
            let n = m.paused(id).resumed(id);
            &&& n.task(id).state is Queued
            &&& n.queue[0] == id
            &&& n.queue.len() == m.queue.len()
            &&& n.active == m.active
            &&& n.occupied == m.occupied
            &&& forall|x: TaskId| #[trigger] n.queue.contains(x) <==> m.queue.contains(x)
        }),
{
    let p = m.paused(id);
    law_paused_tasks_step_aside(m, id);
    law_resumed_tasks_come_first(p, id);
    lemma_id_place(m.queue, id);
    lemma_id_place(m.active, id);
    lemma_without(m.queue, id);
    assert(m.waits(id));
    let i = choose|i: int| 0 <= i < m.queue.len() && m.queue[i] == id;
    if m.runs(id) {
        let j = choose|j: int| 0 <= j < m.active.len() && m.active[j] == id;
        assert(m.queue[i] != m.active[j]);
    }
    let n = p.resumed(id);
    assert forall|x: TaskId| #[trigger] n.queue.contains(x) <==> m.queue.contains(x) by {
        if x == id {
            assert(n.queue[0] == x);
        } else {
            if p.queue.contains(x) {
                let k = choose|k: int| 0 <= k < p.queue.len() && p.queue[k] == x;
                assert(n.queue[k + 1] == x);
            }
            if n.queue.contains(x) {
                let k = choose|k: int| 0 <= k < n.queue.len() && n.queue[k] == x;
                assert(p.queue[k - 1] == x);
            }
        }
    }
}

/// A cancelled task neither waits nor runs, and its path is free again. No other task changes.
pub proof fn law_cancelled_tasks_free_their_path(m: QueueModel, id: TaskId)
    requires
        m.sound(),
        m.knows(id),
    ensures
        ({
            let n = m.cancelled(id);
            &&& n.knows(id) && n.task(id).state is Removed
            &&& same_but_state(n.task(id), m.task(id))
            &&& !n.queue.contains(id)
            &&& !n.active.contains(id)
            &&& left_out(m.queue, n.queue, id)
            &&& forall|x: TaskId|
                x != id ==> (#[trigger] n.queue.contains(x) <==> m.queue.contains(x))
            &&& left_out(m.active, n.active, id)
            &&& forall|x: TaskId|
                x != id ==> (#[trigger] n.active.contains(x) <==> m.active.contains(x))
            &&& !n.occupied.contains(m.key(m.task(id).output_path@))
            &&& forall|k: Seq<char>|
                k != m.key(m.task(id).output_path@) ==> (#[trigger] n.occupied.contains(k)
                    <==> m.occupied.contains(k))
            &&& others_stay(m, n, id)
        }),
{
    lemma_in_state(m, id, TaskState::Removed);
    lemma_id_place(m.active, id);
    lemma_id_place(m.queue, id);
    lemma_without(m.active, id);
    lemma_without(m.queue, id);
    if m.runs(id) && m.queue.contains(id) {
        let i = choose|i: int| 0 <= i < m.queue.len() && m.queue[i] == id;
        let j = choose|j: int| 0 <= j < m.active.len() && m.active[j] == id;
        assert(m.queue[i] != m.active[j]);
    }
}

/// A task that ends no longer runs. One that ran is complete, or has failed with its error, and its
/// path is free again. One that was paused or cancelled meanwhile stays so, and its path stays as it
/// was. No other task changes, and none that waits.
pub proof fn law_ended_tasks_get_their_state(m: QueueModel, id: TaskId, error: Option<String>)
    requires
        m.sound(),
        m.knows(id),
    ensures
        ({
            let n = m.ended(id, error);
            let before = m.task(id).state;
            let after = n.task(id).state;
            &&& n.knows(id)
            &&& same_but_state(n.task(id), m.task(id))
            &&& !n.active.contains(id)
            &&& left_out(m.active, n.active, id)
            &&& forall|x: TaskId|
                x != id ==> (#[trigger] n.active.contains(x) <==> m.active.contains(x))
            &&& n.queue == m.queue
            &&& before is Paused || before is Removed ==> after == before && n.occupied
                == m.occupied
            &&& before is Active && error is None ==> after is Completed
            &&& before is Active ==> (error matches Some(e) ==> after == TaskState::Failed(e))
            &&& before is Active ==> !n.occupied.contains(m.key(m.task(id).output_path@))
            &&& forall|k: Seq<char>|
                k != m.key(m.task(id).output_path@) ==> (#[trigger] n.occupied.contains(k)
                    <==> m.occupied.contains(k))
            &&& others_stay(m, n, id)
        }),
{
    let before = m.task(id).state;
    let n = m.ended(id, error);
    lemma_in_state(m, id, n.all[queue::task_place(m.all, id)].state);
    let state = match error {
        None => if before is Active {
            TaskState::Completed
        } else {
            before
        },
        Some(e) => if before is Removed || before is Paused {
            before
        } else {
            TaskState::Failed(e)
        },
    };
    lemma_in_state(m, id, state);
    lemma_without(m.active, id);
    assert(n.all =~= m.in_state(id, state).all);
}

/// A task that nobody knows changes nothing by its end but that it does not run.
pub proof fn law_unknown_tasks_end_without_trace(m: QueueModel, id: TaskId, error: Option<String>)
    requires
        m.sound(),
        !m.knows(id),
    ensures
        ({
            let n = m.ended(id, error);
            &&& n.all == m.all && n.queue == m.queue && n.occupied == m.occupied
            &&& !n.active.contains(id)
        }),
{
    lemma_without(m.active, id);
}

/// A task can still go on exactly if it waits, runs or is paused.
pub proof fn law_tasks_go_on_until_they_end(s: TaskState)
    ensures
        !s.terminal() <==> s is Queued || s is Active || s is Paused,
{
}

/// A new task waits, has received nothing, and is what it was asked to be; a snapshot tells of a task
/// what it is.
pub proof fn law_snapshots_tell_what_a_task_is(
    id: TaskId,
    url: String,
    output_path: String,
    workers: u64,
    now: u64,
    t: Task,
)
    ensures
        ({
            let new = task::fresh_task(id, url, output_path, workers, now);
            &&& new.id == id && new.url == url && new.output_path == output_path && new.workers
                == workers && new.created_at == now
            &&& new.state is Queued && new.downloaded == 0
        }),
        ({
            let s = task::snapshot_of(t);
            &&& s.id == t.id && s.url == t.url && s.output_path == t.output_path && s.state
                == t.state
            &&& s.downloaded == t.downloaded && s.total_size == t.total_size && s.workers
                == t.workers
        }),
{
}

/// The first path that is tried is the desired one; those after it are numbered from 1.
pub proof fn law_the_desired_path_is_tried_first(desired: Seq<char>, n: u64)
    ensures
        queue::candidate_path(desired, 0) == desired,
        n > 0 ==> queue::candidate_path(desired, n) == path::numbered_sibling(desired, n),
{
}

/// Where case matters, two paths are the same only if they are equal; where it does not, they are the
/// same if their small letters are.
pub proof fn law_paths_are_compared_by_their_keys(a: Seq<char>, b: Seq<char>)
    ensures
        path::key_of(false, a) == path::key_of(false, b) <==> a == b,
        path::key_of(true, a) == path::key_of(true, b) <==> path::lowered(a) == path::lowered(b),
{
}

/// A task that runs or waits can be paused, and the caller learns whether it has to be stopped. A task
/// that is paused stays so. A task that has ended and one that nobody knows cannot be paused, and
/// nothing changes.
pub proof fn law_who_can_be_paused(
    m: QueueModel,
    n: QueueModel,
    id: TaskId,
    r: QueueResult<PauseOutcome>,
)
    requires
        m.sound(),
        queue::well_paused(m, n, id, r),
    ensures
        m.active.contains(id) ==> r == Ok::<_, QueueError>(PauseOutcome::Stopped),
        m.queue.contains(id) ==> r == Ok::<_, QueueError>(PauseOutcome::Dequeued),
        m.active.contains(id) || m.queue.contains(id) ==> n.task(id).state is Paused
            && !n.active.contains(id) && !n.queue.contains(id),
        m.knows(id) && m.task(id).state is Paused ==> r == Ok::<_, QueueError>(
            PauseOutcome::Unchanged,
        ) && n == m,
        m.knows(id) && !m.active.contains(id) && !m.queue.contains(id) && !(m.task(
            id,
        ).state is Paused) ==> (r matches Err(QueueError::InvalidState { .. })) && n == m,
        !m.knows(id) ==> (r matches Err(QueueError::NotFound(_))) && n == m,
{
    lemma_id_place(m.active, id);
    lemma_id_place(m.queue, id);
    if m.active.contains(id) {
        let i = choose|i: int| 0 <= i < m.active.len() && m.active[i] == id;
        assert(m.knows(m.active[i]));
        law_paused_tasks_step_aside(m, id);
        if m.queue.contains(id) {
            let j = choose|j: int| 0 <= j < m.queue.len() && m.queue[j] == id;
            assert(m.queue[j] != m.active[i]);
        }
    }
    if m.queue.contains(id) {
        let i = choose|i: int| 0 <= i < m.queue.len() && m.queue[i] == id;
        assert(m.knows(m.queue[i]));
        law_paused_tasks_step_aside(m, id);
    }
    if m.knows(id) && m.task(id).state is Paused {
        if m.active.contains(id) {
            let i = choose|i: int| 0 <= i < m.active.len() && m.active[i] == id;
            assert(!(m.task(m.active[i]).state is Paused));
        }
        if m.queue.contains(id) {
            let i = choose|i: int| 0 <= i < m.queue.len() && m.queue[i] == id;
            assert(!(m.task(m.queue[i]).state is Paused));
        }
    }
}

/// Exactly the tasks that are paused can be resumed; they wait in front. Any other changes nothing.
pub proof fn law_who_can_be_resumed(m: QueueModel, n: QueueModel, id: TaskId, r: QueueResult<()>)
    requires
        m.sound(),
        queue::well_resumed(m, n, id, r),
    ensures
        r is Ok <==> m.knows(id) && m.task(id).state is Paused,
        r is Ok ==> n.queue.len() == m.queue.len() + 1 && n.queue[0] == id && n.task(
            id,
        ).state is Queued,
        r is Err ==> n == m,
        !m.knows(id) ==> (r matches Err(QueueError::NotFound(_))),
        m.knows(id) && r is Err ==> (r matches Err(QueueError::InvalidState { .. })),
{
    if r is Ok {
        law_resumed_tasks_come_first(m, id);
    }
}

/// Every task that is known can be cancelled, once: it is removed, and the caller learns its path and
/// whether it has to be stopped. The second time nothing changes.
pub proof fn law_who_can_be_cancelled(
    m: QueueModel,
    n: QueueModel,
    id: TaskId,
    r: QueueResult<Option<Cancelled>>,
)
    requires
        m.sound(),
        queue::well_cancelled(m, n, id, r),
    ensures
        r is Ok <==> m.knows(id),
        m.knows(id) && !(m.task(id).state is Removed) ==> (r matches Ok(Some(c)) && c.path@
            == m.task(id).output_path@ && (c.stop <==> m.active.contains(id))) && n.task(
            id,
        ).state is Removed,
        m.knows(id) && m.task(id).state is Removed ==> (r matches Ok(None)) && n == m,
        !m.knows(id) ==> n == m,
{
    lemma_id_place(m.active, id);
    if m.knows(id) && !(m.task(id).state is Removed) {
        law_cancelled_tasks_free_their_path(m, id);
    }
}

/// A task is taken in exactly if its path is free, on the disk and among the tasks, and its id is new.
pub proof fn law_paths_are_taken_once(m: QueueModel, t: Task, id: TaskId, on_disk: bool)
    ensures
        m.can_take(id, t.output_path@, on_disk) <==> !on_disk && !m.knows(id)
            && !m.occupied.contains(m.key(t.output_path@)),
        !m.enqueued(t).can_take(id, t.output_path@, false),
{
}

/// A refusal names the task, the states in which it would have been heard, and its state; a task that
/// nobody knows is named too.
pub proof fn law_refusals_name_the_task(
    e: QueueError,
    id: TaskId,
    expected: Seq<char>,
    state: TaskState,
)
    ensures
        queue::refuses(e, id, expected, state) ==> (e matches QueueError::InvalidState {
            id: who,
            expected: wanted,
            got,
        } && who@ == task::hyphenated(id.0) && wanted@ == expected && got@ == task::state_name(
            state,
        )),
        queue::not_found(e, id) ==> (e matches QueueError::NotFound(who) && who@
            == task::hyphenated(id.0)),
{
}

} // verus!
