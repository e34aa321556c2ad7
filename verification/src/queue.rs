//! The task queue: which tasks wait, which run, which paths are taken, and what each request
//! changes.

use crate::path;
use crate::path::{path_key, with_suffix};
use crate::resume;
use crate::resume::metadata_path_for;
use crate::task;
use crate::task::{Task, TaskId, TaskSnapshot, TaskState};
use crate::text::{push_text, same_text};
use vstd::prelude::*;

verus! {

/// The most tasks that run at once, unless a queue is made for more or fewer.
pub const DEFAULT_MAX_CONCURRENT: u8 = 3;

/// No queue runs more tasks at once than this.
pub const MAX_CONCURRENT: u8 = 64;

/// Why a request to a queue was refused.
#[derive(Debug)]
pub enum QueueError {
    /// There is no task with this id.
    NotFound(String),
    /// The task is in a state in which the request makes no sense.
    InvalidState { id: String, expected: &'static str, got: String },
    Io(String),
}

/// The result of a request to a queue.
pub type QueueResult<T> = std::result::Result<T, QueueError>;

/// The message of an error.
pub open spec fn queue_error_text(e: QueueError) -> Seq<char> {
    match e {
        QueueError::NotFound(id) => "task not found: "@ + id@,
        QueueError::InvalidState { id, expected, got } => "invalid state for "@ + id@
            + ": expected "@ + expected@ + ", got "@ + got@,
        QueueError::Io(t) => "io error: "@ + t@,
    }
}

impl QueueError {
    /// The message shown to users.
    pub fn message(&self) -> (r: String)
        ensures
            r@ == queue_error_text(*self),
    {
        let mut out: String = String::new();
        match self {
            QueueError::NotFound(id) => {
                push_text(&mut out, "task not found: ");
                push_text(&mut out, id.as_str());
            },
            QueueError::InvalidState { id, expected, got } => {
                push_text(&mut out, "invalid state for ");
                push_text(&mut out, id.as_str());
                push_text(&mut out, ": expected ");
                push_text(&mut out, expected);
                push_text(&mut out, ", got ");
                push_text(&mut out, got.as_str());
            },
            QueueError::Io(t) => {
                push_text(&mut out, "io error: ");
                push_text(&mut out, t.as_str());
            },
        }
        assert(out@ =~= queue_error_text(*self));
        out
    }
}

/// What became of a task that was paused.
#[derive(Debug, Clone, Copy, PartialEq, Eq, Structural)]
pub enum PauseOutcome {
    /// It was running: its work has to be stopped, and another task may start.
    Stopped,
    /// It was waiting.
    Dequeued,
    /// It was paused before.
    Unchanged,
}

/// What is left to do for a task that was cancelled.
#[derive(Debug)]
pub struct Cancelled {
    /// It was running: its work has to be stopped, and another task may start.
    pub stop: bool,
    /// The output file, to be deleted.
    pub path: String,
    /// The ledger of the output file, to be deleted.
    pub sidecar: String,
}

/// A queue's tasks.
#[derive(Debug)]
pub struct QueueState {
    /// The waiting tasks, the next one first.
    pub queue: Vec<TaskId>,
    /// The running tasks.
    pub active: Vec<TaskId>,
    /// Every task that was ever put in, in that order.
    pub all: Vec<Task>,
    /// The most tasks that run at once.
    pub max: u8,
    /// The keys of the output paths that are taken.
    pub occupied: Vec<String>,
    /// Whether paths that differ in upper and lower case only are the same.
    pub fold_case: bool,
}

/// A queue in mathematical terms.
#[verifier::ext_equal]
pub struct QueueModel {
    pub queue: Seq<TaskId>,
    pub active: Seq<TaskId>,
    pub all: Seq<Task>,
    pub max: u8,
    pub occupied: Set<Seq<char>>,
    pub fold_case: bool,
}

/// The place of `id` among ids, or -1.
pub open spec fn id_place(s: Seq<TaskId>, id: TaskId) -> int
    decreases s.len(),
{
    if s.len() == 0 {
        -1
    } else if id_place(s.drop_last(), id) >= 0 {
        id_place(s.drop_last(), id)
    } else if s.last() == id {
        s.len() - 1
    } else {
        -1
    }
}

/// The place of the task `id`, or -1.
pub open spec fn task_place(s: Seq<Task>, id: TaskId) -> int
    decreases s.len(),
{
    if s.len() == 0 {
        -1
    } else if task_place(s.drop_last(), id) >= 0 {
        task_place(s.drop_last(), id)
    } else if s.last().id == id {
        s.len() - 1
    } else {
        -1
    }
}

/// Where `id_place` points the id stands, and nowhere before.
pub proof fn lemma_id_place(s: Seq<TaskId>, id: TaskId)
    ensures
        -1 <= id_place(s, id) < s.len(),
        id_place(s, id) >= 0 ==> s[id_place(s, id)] == id,
        forall|i: int|
            0 <= i < s.len() && (id_place(s, id) < 0 || i < id_place(s, id)) ==> #[trigger] s[i]
                != id,
    decreases s.len(),
{
    if s.len() > 0 {
        lemma_id_place(s.drop_last(), id);
        assert forall|i: int|
            0 <= i < s.len() && (id_place(s, id) < 0 || i < id_place(
                s,
                id,
            )) implies #[trigger] s[i] != id by {
            if i < s.len() - 1 {
                assert(s.drop_last()[i] == s[i]);
            }
        }
    }
}

/// Where `task_place` points the task stands, and nowhere before.
pub proof fn lemma_task_place(s: Seq<Task>, id: TaskId)
    ensures
        -1 <= task_place(s, id) < s.len(),
        task_place(s, id) >= 0 ==> s[task_place(s, id)].id == id,
        forall|i: int|
            0 <= i < s.len() && (task_place(s, id) < 0 || i < task_place(s, id)) ==> (
            #[trigger] s[i]).id != id,
    decreases s.len(),
{
    if s.len() > 0 {
        lemma_task_place(s.drop_last(), id);
        assert forall|i: int|
            0 <= i < s.len() && (task_place(s, id) < 0 || i < task_place(s, id)) implies (
        #[trigger] s[i]).id != id by {
            if i < s.len() - 1 {
                assert(s.drop_last()[i] == s[i]);
            }
        }
    }
}

/// Ids without `id`.
pub open spec fn without_id(s: Seq<TaskId>, id: TaskId) -> Seq<TaskId> {
    if id_place(s, id) >= 0 {
        s.remove(id_place(s, id))
    } else {
        s
    }
}

/// The texts of strings, as a set.
pub open spec fn texts(s: Seq<String>) -> Set<Seq<char>> {
    Set::new(|k: Seq<char>| exists|i: int| 0 <= i < s.len() && #[trigger] s[i]@ == k)
}

impl QueueModel {
    /// The key of a path.
    pub open spec fn key(self, path: Seq<char>) -> Seq<char> {
        path::key_of(self.fold_case, path)
    }

    /// The key of the path of the task `id`.
    pub open spec fn key_for(self, id: TaskId) -> Seq<char> {
        self.key(self.task(id).output_path@)
    }

    /// The queue has a task `id`.
    pub open spec fn knows(self, id: TaskId) -> bool {
        task_place(self.all, id) >= 0
    }

    /// The task `id`.
    pub open spec fn task(self, id: TaskId) -> Task {
        self.all[task_place(self.all, id)]
    }

    /// The task `id` waits.
    pub open spec fn waits(self, id: TaskId) -> bool {
        id_place(self.queue, id) >= 0
    }

    /// The task `id` runs.
    pub open spec fn runs(self, id: TaskId) -> bool {
        id_place(self.active, id) >= 0
    }

    /// The task `id` in another state.
    pub open spec fn in_state(self, id: TaskId, state: TaskState) -> QueueModel {
        QueueModel {
            all: self.all.update(task_place(self.all, id), Task { state, ..self.task(id) }),
            ..self
        }
    }

    /// What holds of every queue: ids are not used twice; the tasks that wait or run are known, no
    /// task waits or runs twice or does both; no more tasks run than allowed; a task that is paused or
    /// removed neither waits nor runs; and every queued task waits, every active one runs.
    pub open spec fn sound(self) -> bool {
        &&& 1 <= self.max <= MAX_CONCURRENT
        &&& self.active.len() <= self.max
        &&& forall|i: int, j: int|
            0 <= i < j < self.all.len() ==> (#[trigger] self.all[i]).id != (#[trigger] self.all[j]).id
        &&& self.queue.no_duplicates()
        &&& self.active.no_duplicates()
        &&& forall|i: int| 0 <= i < self.queue.len() ==> self.knows(#[trigger] self.queue[i])
        &&& forall|i: int| 0 <= i < self.active.len() ==> self.knows(#[trigger] self.active[i])
        &&& forall|i: int, j: int|
            0 <= i < self.queue.len() && 0 <= j < self.active.len() ==> #[trigger] self.queue[i]
                != #[trigger] self.active[j]
        &&& forall|i: int|
            0 <= i < self.queue.len() ==> {
                let s = self.task(#[trigger] self.queue[i]).state;
                !(s is Paused) && !(s is Removed)
            }
        &&& forall|i: int|
            0 <= i < self.active.len() ==> {
                let s = self.task(#[trigger] self.active[i]).state;
                !(s is Paused) && !(s is Removed)
            }
        &&& self.placed()
    }

    /// Every queued task waits, and every active one runs.
    pub open spec fn placed(self) -> bool {
        forall|x: TaskId| #[trigger]
            self.knows(x) ==> {
                &&& self.task(x).state is Queued ==> self.waits(x)
                &&& self.task(x).state is Active ==> self.runs(x)
            }
    }

    /// A task with this id can be taken in for this path: nothing lies there, no other task has the
    /// path, and none has the id.
    pub open spec fn can_take(self, id: TaskId, path: Seq<char>, on_disk: bool) -> bool {
        !on_disk && !self.occupied.contains(self.key(path)) && !self.knows(id)
    }

    /// A new task waits behind the others, and its path is taken.
    pub open spec fn enqueued(self, t: Task) -> QueueModel {
        QueueModel {
            queue: self.queue.push(t.id),
            all: self.all.push(t),
            occupied: self.occupied.insert(self.key(t.output_path@)),
            ..self
        }
    }

    /// The task `id` is paused.
    pub open spec fn paused(self, id: TaskId) -> QueueModel {
        let m = self.in_state(id, TaskState::Paused);
        if self.runs(id) {
            QueueModel { active: without_id(self.active, id), ..m }
        } else {
            QueueModel { queue: without_id(self.queue, id), ..m }
        }
    }

    /// The task `id` waits again, before all others.
    pub open spec fn resumed(self, id: TaskId) -> QueueModel {
        QueueModel {
            queue: seq![id] + self.queue,
            ..self.in_state(id, TaskState::Queued)
        }
    }

    /// The task `id` is removed, and its path is free.
    pub open spec fn cancelled(self, id: TaskId) -> QueueModel {
        let m = QueueModel {
            occupied: self.occupied.remove(self.key_for(id)),
            ..self.in_state(id, TaskState::Removed)
        };
        if self.runs(id) {
            QueueModel { active: without_id(self.active, id), ..m }
        } else {
            QueueModel { queue: without_id(self.queue, id), ..m }
        }
    }

    /// The first waiting task runs.
    pub open spec fn pumped(self) -> QueueModel {
        QueueModel {
            queue: self.queue.skip(1),
            active: self.active.push(self.queue[0]),
            ..self.in_state(self.queue[0], TaskState::Active)
        }
    }

    /// A task may start.
    pub open spec fn may_start(self) -> bool {
        self.active.len() < self.max && self.queue.len() > 0
    }

    /// The work of the task `id` ended, with an error or without.
    pub open spec fn ended(self, id: TaskId, error: Option<String>) -> QueueModel {
        let m = QueueModel { active: without_id(self.active, id), ..self };
        if !self.knows(id) {
            m
        } else {
            let before = self.task(id).state;
            let after = match error {
                None => if before is Active {
                    TaskState::Completed
                } else {
                    before
                },
                Some(e) => if before is Removed || before is Paused {
                    before
                } else {
                    TaskState::Failed(e)
                },
            };
            QueueModel {
                occupied: if after is Completed || after is Failed {
                    self.occupied.remove(self.key_for(id))
                } else {
                    self.occupied
                },
                ..m.in_state(id, after)
            }
        }
    }
}

/// Which path a search tries after `n` refusals: the desired one, then its numbered siblings.
pub open spec fn candidate_path(desired: Seq<char>, n: u64) -> Seq<char> {
    if n == 0 {
        desired
    } else {
        path::numbered_sibling(desired, n)
    }
}

/// A search for a free output path.
#[derive(Debug)]
pub struct RenameSearch {
    pub desired: String,
    /// How many candidates were refused.
    pub refused: u64,
}

impl RenameSearch {
    /// A search that starts with the desired path.
    pub fn new(desired: String) -> (r: Self)
        ensures
            r.desired == desired,
            r.refused == 0,
    {
        RenameSearch { desired, refused: 0 }
    }

    /// The path to try now.
    pub fn candidate(&self) -> (r: String)
        ensures
            r@ == candidate_path(self.desired@, self.refused),
    {
        if self.refused == 0 {
            self.desired.clone()
        } else {
            with_suffix(self.desired.as_str(), self.refused)
        }
    }

    /// Takes in whether the path to try now is taken, and gives it back if it is free. The numbers go
    /// on without an end.
    pub fn step(&mut self, taken: bool) -> (r: Option<String>)
        requires
            old(self).refused < u64::MAX,
        ensures
            final(self).desired == old(self).desired,
            final(self).refused == (if taken {
                old(self).refused + 1
            } else {
                old(self).refused as int
            }),
            r is Some <==> !taken,
            r matches Some(p) ==> p@ == candidate_path(old(self).desired@, old(self).refused),
    {
        if taken {
            self.refused = self.refused + 1;
            None
        } else {
            Some(self.candidate())
        }
    }
}

/// None of the first `n` paths that a search tries is free.
pub open spec fn refused_so_far(
    desired: Seq<char>,
    free: spec_fn(Seq<char>) -> bool,
    n: u64,
) -> bool {
    forall|k: u64| k < n ==> !free(#[trigger] candidate_path(desired, k))
}

/// A search that is told the truth gives back the first free path: the desired one if it is free, else
/// the one with the least number.
pub proof fn law_search_stops_at_the_first_free_path(
    desired: Seq<char>,
    free: spec_fn(Seq<char>) -> bool,
    n: u64,
)
    requires
        refused_so_far(desired, free, n),
        n < u64::MAX,
    ensures
        refused_so_far(desired, free, 0),
        candidate_path(desired, 0) == desired,
        !free(candidate_path(desired, n)) ==> refused_so_far(desired, free, (n + 1) as u64),
        free(candidate_path(desired, n)) ==> forall|k: u64|
            free(#[trigger] candidate_path(desired, k)) ==> n <= k,
{
}

/// A search comes to an end: while `taken` are the paths that are not free, it is refused no more often
/// than there are such paths, but for the desired one.
pub proof fn law_search_comes_to_an_end(desired: Seq<char>, taken: Set<Seq<char>>, n: u64)
    requires
        taken.finite(),
        refused_so_far(desired, |p: Seq<char>| !taken.contains(p), n),
    ensures
        n <= taken.len() + 1,
{
    if n > 1 {
        let last = (n - 1) as u64;
        let p = candidate_path(desired, last);
        let free = |q: Seq<char>| !taken.contains(q);
        assert(!free(p));
        lemma_numbers_are_used_up(desired, taken, last);
    }
}

proof fn lemma_numbers_are_used_up(desired: Seq<char>, taken: Set<Seq<char>>, n: u64)
    requires
        taken.finite(),
        forall|k: u64| 1 <= k <= n ==> taken.contains(#[trigger] candidate_path(desired, k)),
    ensures
        n <= taken.len(),
    decreases n,
{
    if n > 0 {
        let p = candidate_path(desired, n);
        let rest = taken.remove(p);
        assert forall|k: u64| 1 <= k <= n - 1 implies rest.contains(
            #[trigger] candidate_path(desired, k),
        ) by {
            law_candidates_differ(desired, k, n);
        }
        assert(taken.contains(p));
        lemma_numbers_are_used_up(desired, rest, (n - 1) as u64);
    }
}

/// The paths that a search tries differ from each other, from the second one on.
pub proof fn law_candidates_differ(desired: Seq<char>, n: u64, m: u64)
    requires
        n >= 1,
        m >= 1,
        n != m,
    ensures
        candidate_path(desired, n) != candidate_path(desired, m),
{
    if candidate_path(desired, n) == candidate_path(desired, m) {
        path::law_numbered_siblings_differ(desired, n, m);
    }
}

/// `a == b` on ids.
fn same_id(a: TaskId, b: TaskId) -> (r: bool)
    ensures
        r == (a == b),
{
    a.0 == b.0
}

/// The place of an id.
fn find_id(s: &Vec<TaskId>, id: TaskId) -> (r: Option<usize>)
    ensures
        match r {
            Some(i) => i == id_place(s@, id) && i < s@.len(),
            None => id_place(s@, id) < 0,
        },
{
    let mut i: usize = 0;
    while i < s.len()
        invariant
            i <= s@.len(),
            id_place(s@.take(i as int), id) < 0,
        decreases s.len() - i,
    {
        assert(s@.take(i + 1).drop_last() =~= s@.take(i as int));
        if same_id(s[i], id) {
            proof {
                assert(id_place(s@.take(i + 1), id) == i);
                lemma_id_place_stable(s@, i + 1, id);
            }
            return Some(i);
        }
        i = i + 1;
    }
    assert(s@.take(i as int) =~= s@);
    None
}

proof fn lemma_id_place_stable(s: Seq<TaskId>, n: int, id: TaskId)
    requires
        0 <= n <= s.len(),
        id_place(s.take(n), id) >= 0,
    ensures
        id_place(s, id) == id_place(s.take(n), id),
    decreases s.len() - n,
{
    if n < s.len() {
        assert(s.take(n + 1).drop_last() =~= s.take(n));
        lemma_id_place_stable(s, n + 1, id);
    } else {
        assert(s.take(n) =~= s);
    }
}

proof fn lemma_task_place_stable(s: Seq<Task>, n: int, id: TaskId)
    requires
        0 <= n <= s.len(),
        task_place(s.take(n), id) >= 0,
    ensures
        task_place(s, id) == task_place(s.take(n), id),
    decreases s.len() - n,
{
    if n < s.len() {
        assert(s.take(n + 1).drop_last() =~= s.take(n));
        lemma_task_place_stable(s, n + 1, id);
    } else {
        assert(s.take(n) =~= s);
    }
}

/// Another state of a task leaves every task in its place.
proof fn lemma_places_kept(s: Seq<Task>, i: int, t: Task, id: TaskId)
    requires
        0 <= i < s.len(),
        t.id == s[i].id,
    ensures
        task_place(s.update(i, t), id) == task_place(s, id),
    decreases s.len(),
{
    if i < s.len() - 1 {
        assert(s.update(i, t).drop_last() =~= s.drop_last().update(i, t));
        lemma_places_kept(s.drop_last(), i, t, id);
    } else {
        assert(s.update(i, t).drop_last() =~= s.drop_last());
    }
}

/// A task in another state is in its place, and so are all others.
proof fn lemma_in_state(m: QueueModel, id: TaskId, state: TaskState)
    requires
        m.knows(id),
    ensures
        forall|x: TaskId| #[trigger] m.in_state(id, state).knows(x) == m.knows(x),
        m.in_state(id, state).task(id) == (Task { state, ..m.task(id) }),
        forall|x: TaskId|
            m.knows(x) && x != id ==> #[trigger] m.in_state(id, state).task(x) == m.task(x),
        m.in_state(id, state).all.len() == m.all.len(),
        forall|i: int|
            0 <= i < m.all.len() ==> (#[trigger] m.in_state(id, state).all[i]).id == m.all[i].id,
{
    lemma_task_place(m.all, id);
    let p = task_place(m.all, id);
    let t = Task { state, ..m.task(id) };
    assert forall|x: TaskId| #[trigger] m.in_state(id, state).knows(x) == m.knows(x) by {
        lemma_places_kept(m.all, p, t, x);
    }
    assert forall|x: TaskId| m.knows(x) && x != id implies #[trigger] m.in_state(id, state).task(x)
        == m.task(x) by {
        lemma_places_kept(m.all, p, t, x);
        lemma_task_place(m.all, x);
    }
    lemma_places_kept(m.all, p, t, id);
}

/// An id has a place exactly if it is there.
proof fn lemma_place_is_membership(s: Seq<TaskId>, id: TaskId)
    ensures
        (id_place(s, id) >= 0) == s.contains(id),
{
    lemma_id_place(s, id);
    if s.contains(id) {
        let i = choose|i: int| 0 <= i < s.len() && s[i] == id;
        assert(s[i] == id);
    }
}

/// Ids without one of them: all others are still there.
proof fn lemma_without_keeps_others(s: Seq<TaskId>, id: TaskId, x: TaskId)
    requires
        x != id,
    ensures
        without_id(s, id).contains(x) == s.contains(x),
        (id_place(without_id(s, id), x) >= 0) == (id_place(s, x) >= 0),
{
    lemma_id_place(s, id);
    let w = without_id(s, id);
    let p = id_place(s, id);
    if p >= 0 {
        if s.contains(x) {
            let i = choose|i: int| 0 <= i < s.len() && s[i] == x;
            let j = if i < p {
                i
            } else {
                i - 1
            };
            assert(w[j] == x);
        }
        if w.contains(x) {
            let i = choose|i: int| 0 <= i < w.len() && w[i] == x;
            let j = if i < p {
                i
            } else {
                i + 1
            };
            assert(s[j] == x);
        }
    }
    lemma_place_is_membership(s, x);
    lemma_place_is_membership(w, x);
}

proof fn lemma_remove_no_duplicates(s: Seq<TaskId>, id: TaskId)
    requires
        s.no_duplicates(),
    ensures
        without_id(s, id).no_duplicates(),
        forall|i: int|
            0 <= i < without_id(s, id).len() ==> #[trigger] without_id(s, id)[i] != id && s.contains(
                without_id(s, id)[i],
            ),
        without_id(s, id).len() <= s.len(),
{
    lemma_id_place(s, id);
    let p = id_place(s, id);
    let w = without_id(s, id);
    if p >= 0 {
        assert forall|i: int| 0 <= i < w.len() implies #[trigger] w[i] != id && s.contains(w[i]) by {
            let j = if i < p {
                i
            } else {
                i + 1
            };
            assert(w[i] == s[j]);
            assert(s[j] != s[p]);
        }
        assert forall|i: int, j: int| 0 <= i < w.len() && 0 <= j < w.len() && i != j implies w[i]
            != w[j] by {
            let a = if i < p {
                i
            } else {
                i + 1
            };
            let b = if j < p {
                j
            } else {
                j + 1
            };
            assert(w[i] == s[a]);
            assert(w[j] == s[b]);
        }
    } else {
        assert forall|i: int| 0 <= i < w.len() implies #[trigger] w[i] != id && s.contains(w[i]) by {
            assert(s[i] == w[i]);
        }
    }
}

proof fn lemma_enqueued_sound(m: QueueModel, t: Task)
    requires
        m.sound(),
        !m.knows(t.id),
        t.state is Queued,
    ensures
        m.enqueued(t).sound(),
{
    let n = m.enqueued(t);
    lemma_task_place(m.all, t.id);
    assert(n.all.drop_last() =~= m.all);
    assert forall|x: TaskId| m.knows(x) implies #[trigger] n.knows(x) && n.task(x) == m.task(x) by {
        lemma_task_place(m.all, x);
    }
    assert(n.knows(t.id) && n.task(t.id) == t);
    assert forall|i: int| 0 <= i < m.queue.len() implies #[trigger] m.queue[i] != t.id by {
        assert(m.knows(m.queue[i]));
    }
    assert forall|i: int| 0 <= i < m.active.len() implies #[trigger] m.active[i] != t.id by {
        assert(m.knows(m.active[i]));
    }
    assert forall|i: int| 0 <= i < n.queue.len() implies n.knows(#[trigger] n.queue[i]) && !(n.task(
        n.queue[i],
    ).state is Paused) && !(n.task(n.queue[i]).state is Removed) by {
        if i < m.queue.len() {
            assert(m.knows(m.queue[i]));
            assert(n.queue[i] == m.queue[i]);
        }
    }
    assert forall|i: int| 0 <= i < n.active.len() implies n.knows(#[trigger] n.active[i]) && !(
    n.task(n.active[i]).state is Paused) && !(n.task(n.active[i]).state is Removed) by {
        assert(m.knows(m.active[i]));
    }
    assert forall|x: TaskId| #[trigger] n.knows(x) implies (n.task(x).state is Queued ==> n.waits(x))
        && (n.task(x).state is Active ==> n.runs(x)) by {
        assert(n.queue.drop_last() =~= m.queue);
        if x != t.id {
            assert(m.knows(x));
        } else {
            lemma_place_is_membership(n.queue, x);
            assert(n.queue[m.queue.len() as int] == x);
        }
    }
}

/// A task that neither waits nor runs any more may be in any state but queued and active.
proof fn lemma_left_sound(m: QueueModel, id: TaskId, n: QueueModel, state: TaskState)
    requires
        m.sound(),
        m.knows(id),
        n.max == m.max,
        n.all == m.in_state(id, state).all,
        n.queue == without_id(m.queue, id),
        n.active == without_id(m.active, id),
        !(state is Queued) && !(state is Active),
    ensures
        n.sound(),
{
    lemma_in_state(m, id, state);
    lemma_remove_no_duplicates(m.queue, id);
    lemma_remove_no_duplicates(m.active, id);
    let k = m.in_state(id, state);
    assert(forall|x: TaskId| #[trigger] n.knows(x) == k.knows(x));
    assert(forall|x: TaskId| #[trigger] n.task(x) == k.task(x));
    assert forall|i: int| 0 <= i < n.queue.len() implies n.knows(#[trigger] n.queue[i]) && !(n.task(
        n.queue[i],
    ).state is Paused) && !(n.task(n.queue[i]).state is Removed) by {
        let j = choose|j: int| 0 <= j < m.queue.len() && m.queue[j] == n.queue[i];
        assert(m.knows(m.queue[j]));
        assert(k.task(m.queue[j]) == m.task(m.queue[j]));
    }
    assert forall|i: int| 0 <= i < n.active.len() implies n.knows(#[trigger] n.active[i]) && !(
    n.task(n.active[i]).state is Paused) && !(n.task(n.active[i]).state is Removed) by {
        let j = choose|j: int| 0 <= j < m.active.len() && m.active[j] == n.active[i];
        assert(m.knows(m.active[j]));
        assert(k.task(m.active[j]) == m.task(m.active[j]));
    }
    assert forall|i: int, j: int|
        0 <= i < n.queue.len() && 0 <= j < n.active.len() implies #[trigger] n.queue[i]
        != #[trigger] n.active[j] by {
        let a = choose|a: int| 0 <= a < m.queue.len() && m.queue[a] == n.queue[i];
        let b = choose|b: int| 0 <= b < m.active.len() && m.active[b] == n.active[j];
        assert(m.queue[a] != m.active[b]);
    }
    assert forall|x: TaskId| #[trigger] n.knows(x) implies (n.task(x).state is Queued ==> n.waits(x))
        && (n.task(x).state is Active ==> n.runs(x)) by {
        assert(k.knows(x) == m.knows(x));
        if x != id {
            assert(k.task(x) == m.task(x));
            lemma_without_keeps_others(m.queue, id, x);
            lemma_without_keeps_others(m.active, id, x);
        }
    }
}

/// A task that runs does not wait.
proof fn lemma_runs_or_waits(m: QueueModel, id: TaskId)
    requires
        m.sound(),
    ensures
        m.runs(id) ==> !m.waits(id) && m.knows(id),
        m.waits(id) ==> m.knows(id),
        m.runs(id) ==> without_id(m.queue, id) == m.queue,
        !m.runs(id) ==> without_id(m.active, id) == m.active,
        !m.waits(id) ==> without_id(m.queue, id) == m.queue,
        m.runs(id) || m.waits(id) ==> !(m.task(id).state is Paused) && !(m.task(
            id,
        ).state is Removed),
{
    lemma_id_place(m.queue, id);
    lemma_id_place(m.active, id);
    if m.waits(id) {
        assert(m.knows(m.queue[id_place(m.queue, id)]));
    }
    if m.runs(id) {
        assert(m.knows(m.active[id_place(m.active, id)]));
    }
}

proof fn lemma_paused_sound(m: QueueModel, id: TaskId)
    requires
        m.sound(),
        m.runs(id) || m.waits(id),
    ensures
        m.paused(id).sound(),
        m.knows(id),
{
    lemma_runs_or_waits(m, id);
    lemma_left_sound(m, id, m.paused(id), TaskState::Paused);
}

proof fn lemma_cancelled_sound(m: QueueModel, id: TaskId)
    requires
        m.sound(),
        m.knows(id),
    ensures
        m.cancelled(id).sound(),
{
    lemma_runs_or_waits(m, id);
    lemma_left_sound(m, id, m.cancelled(id), TaskState::Removed);
}

proof fn lemma_resumed_sound(m: QueueModel, id: TaskId)
    requires
        m.sound(),
        m.knows(id),
        m.task(id).state is Paused,
    ensures
        m.resumed(id).sound(),
{
    lemma_runs_or_waits(m, id);
    lemma_id_place(m.queue, id);
    lemma_id_place(m.active, id);
    lemma_in_state(m, id, TaskState::Queued);
    let n = m.resumed(id);
    let k = m.in_state(id, TaskState::Queued);
    assert(forall|x: TaskId| #[trigger] n.knows(x) == k.knows(x));
    assert(forall|x: TaskId| #[trigger] n.task(x) == k.task(x));
    assert forall|i: int| 0 <= i < n.queue.len() implies n.knows(#[trigger] n.queue[i]) && !(n.task(
        n.queue[i],
    ).state is Paused) && !(n.task(n.queue[i]).state is Removed) by {
        if i > 0 {
            assert(n.queue[i] == m.queue[i - 1]);
            assert(m.knows(m.queue[i - 1]));
            assert(k.task(m.queue[i - 1]) == m.task(m.queue[i - 1]));
        }
    }
    assert forall|i: int| 0 <= i < n.active.len() implies n.knows(#[trigger] n.active[i]) && !(
    n.task(n.active[i]).state is Paused) && !(n.task(n.active[i]).state is Removed) by {
        assert(m.knows(m.active[i]));
        assert(k.task(m.active[i]) == m.task(m.active[i]));
    }
    assert forall|i: int, j: int|
        0 <= i < n.queue.len() && 0 <= j < n.queue.len() && i != j implies n.queue[i]
        != n.queue[j] by {
        if i > 0 {
            assert(n.queue[i] == m.queue[i - 1]);
        }
        if j > 0 {
            assert(n.queue[j] == m.queue[j - 1]);
        }
    }
    assert forall|i: int, j: int|
        0 <= i < n.queue.len() && 0 <= j < n.active.len() implies #[trigger] n.queue[i]
        != #[trigger] n.active[j] by {
        if i > 0 {
            assert(n.queue[i] == m.queue[i - 1]);
            assert(m.queue[i - 1] != m.active[j]);
        }
    }
    assert forall|x: TaskId| #[trigger] n.knows(x) implies (n.task(x).state is Queued ==> n.waits(x))
        && (n.task(x).state is Active ==> n.runs(x)) by {
        assert(k.knows(x) == m.knows(x));
        lemma_place_is_membership(n.queue, x);
        lemma_place_is_membership(m.queue, x);
        if x != id {
            assert(k.task(x) == m.task(x));
            if m.queue.contains(x) {
                let i = choose|i: int| 0 <= i < m.queue.len() && m.queue[i] == x;
                assert(n.queue[i + 1] == x);
            }
        } else {
            assert(n.queue[0] == x);
        }
    }
}

proof fn lemma_pumped_sound(m: QueueModel)
    requires
        m.sound(),
        m.may_start(),
    ensures
        m.pumped().sound(),
        m.knows(m.queue[0]),
{
    let id = m.queue[0];
    assert(m.knows(id));
    lemma_in_state(m, id, TaskState::Active);
    let n = m.pumped();
    let k = m.in_state(id, TaskState::Active);
    assert(forall|x: TaskId| #[trigger] n.knows(x) == k.knows(x));
    assert(forall|x: TaskId| #[trigger] n.task(x) == k.task(x));
    assert forall|i: int| 0 <= i < n.queue.len() implies n.knows(#[trigger] n.queue[i]) && !(n.task(
        n.queue[i],
    ).state is Paused) && !(n.task(n.queue[i]).state is Removed) by {
        assert(n.queue[i] == m.queue[i + 1]);
        assert(m.knows(m.queue[i + 1]));
        assert(k.task(m.queue[i + 1]) == m.task(m.queue[i + 1]));
    }
    assert forall|i: int| 0 <= i < n.active.len() implies n.knows(#[trigger] n.active[i]) && !(
    n.task(n.active[i]).state is Paused) && !(n.task(n.active[i]).state is Removed) by {
        if i < m.active.len() {
            assert(n.active[i] == m.active[i]);
            assert(m.knows(m.active[i]));
            assert(k.task(m.active[i]) == m.task(m.active[i]));
        }
    }
    assert forall|i: int, j: int|
        0 <= i < n.queue.len() && 0 <= j < n.active.len() implies #[trigger] n.queue[i]
        != #[trigger] n.active[j] by {
        assert(n.queue[i] == m.queue[i + 1]);
        if j < m.active.len() {
            assert(m.queue[i + 1] != m.active[j]);
        }
    }
    assert forall|i: int, j: int|
        0 <= i < n.active.len() && 0 <= j < n.active.len() && i != j implies n.active[i]
        != n.active[j] by {
        if i == m.active.len() {
            assert(m.queue[0] != m.active[j]);
        } else if j == m.active.len() {
            assert(m.queue[0] != m.active[i]);
        }
    }
    assert forall|x: TaskId| #[trigger] n.knows(x) implies (n.task(x).state is Queued ==> n.waits(x))
        && (n.task(x).state is Active ==> n.runs(x)) by {
        assert(k.knows(x) == m.knows(x));
        lemma_place_is_membership(n.queue, x);
        lemma_place_is_membership(m.queue, x);
        lemma_place_is_membership(n.active, x);
        lemma_place_is_membership(m.active, x);
        if x != id {
            assert(k.task(x) == m.task(x));
            if m.queue.contains(x) {
                let i = choose|i: int| 0 <= i < m.queue.len() && m.queue[i] == x;
                assert(n.queue[i - 1] == x);
            }
            if m.active.contains(x) {
                let i = choose|i: int| 0 <= i < m.active.len() && m.active[i] == x;
                assert(n.active[i] == x);
            }
        } else {
            assert(n.active[m.active.len() as int] == x);
        }
    }
}

proof fn lemma_ended_sound(m: QueueModel, id: TaskId, error: Option<String>)
    requires
        m.sound(),
    ensures
        m.ended(id, error).sound(),
{
    lemma_runs_or_waits(m, id);
    lemma_remove_no_duplicates(m.active, id);
    let n = m.ended(id, error);
    if m.knows(id) {
        lemma_task_place(m.all, id);
        let state = n.all[task_place(m.all, id)].state;
        lemma_in_state(m, id, state);
        let k = m.in_state(id, state);
        assert(n.all =~= k.all);
        assert(forall|x: TaskId| #[trigger] n.knows(x) == k.knows(x));
        assert(forall|x: TaskId| #[trigger] n.task(x) == k.task(x));
        assert forall|i: int| 0 <= i < n.queue.len() implies n.knows(#[trigger] n.queue[i]) && !(
        n.task(n.queue[i]).state is Paused) && !(n.task(n.queue[i]).state is Removed) by {
            assert(m.knows(m.queue[i]));
            assert(k.task(m.queue[i]) == m.task(m.queue[i]) || m.queue[i] == id);
        }
        assert forall|i: int| 0 <= i < n.active.len() implies n.knows(#[trigger] n.active[i]) && !(
        n.task(n.active[i]).state is Paused) && !(n.task(n.active[i]).state is Removed) by {
            let j = choose|j: int| 0 <= j < m.active.len() && m.active[j] == n.active[i];
            assert(m.knows(m.active[j]));
            assert(k.task(m.active[j]) == m.task(m.active[j]));
        }
        assert forall|x: TaskId| #[trigger] n.knows(x) implies (n.task(x).state is Queued
            ==> n.waits(x)) && (n.task(x).state is Active ==> n.runs(x)) by {
            assert(k.knows(x) == m.knows(x));
            if x != id {
                assert(k.task(x) == m.task(x));
                lemma_without_keeps_others(m.active, id, x);
            }
        }
    } else {
        assert(n.active == m.active);
        assert forall|x: TaskId| #[trigger] n.knows(x) implies (n.task(x).state is Queued
            ==> n.waits(x)) && (n.task(x).state is Active ==> n.runs(x)) by {
            assert(m.knows(x));
        }
    }
    assert forall|i: int, j: int|
        0 <= i < n.queue.len() && 0 <= j < n.active.len() implies #[trigger] n.queue[i]
        != #[trigger] n.active[j] by {
        let b = choose|b: int| 0 <= b < m.active.len() && m.active[b] == n.active[j];
        assert(m.queue[i] != m.active[b]);
    }
}

/// Whether a path is among others.
fn has_path(s: &Vec<String>, path: &str) -> (r: bool)
    ensures
        r == texts(s@).contains(path@),
{
    let mut i: usize = 0;
    while i < s.len()
        invariant
            i <= s@.len(),
            forall|k: int| 0 <= k < i ==> #[trigger] s@[k]@ != path@,
        decreases s.len() - i,
    {
        if same_text(s[i].as_str(), path) {
            return true;
        }
        i = i + 1;
    }
    false
}

/// Paths without one of them.
fn without_path(s: &Vec<String>, path: &str) -> (r: Vec<String>)
    ensures
        texts(r@) =~= texts(s@).remove(path@),
{
    let mut out: Vec<String> = Vec::new();
    let mut i: usize = 0;
    assert(texts(out@) =~= texts(s@.take(0)).remove(path@));
    while i < s.len()
        invariant
            i <= s@.len(),
            texts(out@) =~= texts(s@.take(i as int)).remove(path@),
        decreases s.len() - i,
    {
        let ghost before = out@;
        proof {
            lemma_texts_push(s@.take(i as int), s@[i as int]);
            assert(s@.take(i + 1) =~= s@.take(i as int).push(s@[i as int]));
        }
        if !same_text(s[i].as_str(), path) {
            out.push(s[i].clone());
            proof {
                lemma_texts_push(before, out@[out@.len() - 1]);
                assert(out@ =~= before.push(out@[out@.len() - 1]));
            }
        }
        i = i + 1;
    }
    assert(s@.take(i as int) =~= s@);
    out
}

proof fn lemma_texts_push(s: Seq<String>, t: String)
    ensures
        texts(s.push(t)) =~= texts(s).insert(t@),
{
    let p = s.push(t);
    assert forall|k: Seq<char>| texts(s).insert(t@).contains(k) implies texts(p).contains(k) by {
        if texts(s).contains(k) {
            let i = choose|i: int| 0 <= i < s.len() && #[trigger] s[i]@ == k;
            assert(p[i]@ == k);
        } else {
            assert(p[s.len() as int]@ == k);
        }
    }
    assert forall|k: Seq<char>| texts(p).contains(k) implies texts(s).insert(t@).contains(k) by {
        let i = choose|i: int| 0 <= i < p.len() && #[trigger] p[i]@ == k;
        if i < s.len() {
            assert(s[i]@ == k);
        }
    }
}

/// The refusal of a request that does not fit the state of a task.
fn invalid_state(id: TaskId, expected: &'static str, got: &TaskState) -> (r: QueueError)
    ensures
        r matches QueueError::InvalidState { id: i, expected: e, got: g } && i@
            == task::hyphenated(id.0) && e@ == expected@ && g@ == task::state_name(*got),
{
    QueueError::InvalidState { id: id.to_text(), expected, got: got.as_str().to_owned() }
}

/// The refusal of a request for the task `id`, which is in the state `got`.
pub open spec fn refuses(e: QueueError, id: TaskId, expected: Seq<char>, got: TaskState) -> bool {
    e matches QueueError::InvalidState { id: i, expected: x, got: g } && i@ == task::hyphenated(
        id.0,
    ) && x@ == expected && g@ == task::state_name(got)
}

/// The refusal of a request for a task that there is not.
pub open spec fn not_found(e: QueueError, id: TaskId) -> bool {
    e matches QueueError::NotFound(i) && i@ == task::hyphenated(id.0)
}

/// What pausing a task does and gives: a task that runs or waits steps aside, a paused one stays as it
/// is, and any other is refused.
pub open spec fn well_paused(
    m: QueueModel,
    n: QueueModel,
    id: TaskId,
    r: QueueResult<PauseOutcome>,
) -> bool {
    match r {
        Ok(PauseOutcome::Stopped) => m.runs(id) && n =~= m.paused(id),
        Ok(PauseOutcome::Dequeued) => !m.runs(id) && m.waits(id) && n =~= m.paused(id),
        Ok(PauseOutcome::Unchanged) => m.knows(id) && m.task(id).state is Paused && n =~= m,
        Err(e) => {
            &&& n =~= m
            &&& !m.runs(id) && !m.waits(id)
            &&& m.knows(id) ==> !(m.task(id).state is Paused) && refuses(
                e,
                id,
                "Queued/Active"@,
                m.task(id).state,
            )
            &&& !m.knows(id) ==> not_found(e, id)
        },
    }
}

/// What resuming a task does and gives: a paused task waits again, and any other is refused.
pub open spec fn well_resumed(
    m: QueueModel,
    n: QueueModel,
    id: TaskId,
    r: QueueResult<()>,
) -> bool {
    match r {
        Ok(_) => m.knows(id) && m.task(id).state is Paused && n =~= m.resumed(id),
        Err(e) => {
            &&& n =~= m
            &&& m.knows(id) ==> !(m.task(id).state is Paused) && refuses(
                e,
                id,
                "Paused"@,
                m.task(id).state,
            )
            &&& !m.knows(id) ==> not_found(e, id)
        },
    }
}

/// What cancelling a task does and gives: every task that was not removed before is, with its path and
/// its ledger for the caller to clear away.
pub open spec fn well_cancelled(
    m: QueueModel,
    n: QueueModel,
    id: TaskId,
    r: QueueResult<Option<Cancelled>>,
) -> bool {
    match r {
        Ok(Some(c)) => {
            &&& m.knows(id) && !(m.task(id).state is Removed)
            &&& n =~= m.cancelled(id)
            &&& c.stop == m.runs(id)
            &&& c.path@ == m.task(id).output_path@
            &&& c.sidecar@ == resume::ledger_path(m.task(id).output_path@)
        },
        Ok(None) => m.knows(id) && m.task(id).state is Removed && n =~= m,
        Err(e) => !m.knows(id) && not_found(e, id) && n =~= m,
    }
}

impl QueueState {
    /// The queue in mathematical terms.
    pub open spec fn model(self) -> QueueModel {
        QueueModel {
            queue: self.queue@,
            active: self.active@,
            all: self.all@,
            max: self.max,
            occupied: texts(self.occupied@),
            fold_case: self.fold_case,
        }
    }

    /// An empty queue for the usual number of tasks at once.
    pub fn new() -> (r: Self)
        ensures
            r.model().sound(),
            r.model() =~= (QueueModel {
                queue: Seq::empty(),
                active: Seq::empty(),
                all: Seq::empty(),
                max: DEFAULT_MAX_CONCURRENT,
                occupied: Set::empty(),
                fold_case: false,
            }),
    {
        Self::with_max_concurrent(DEFAULT_MAX_CONCURRENT)
    }

    /// An empty queue for `max_concurrent_tasks` tasks at once, at least one and at most
    /// `MAX_CONCURRENT`.
    pub fn with_max_concurrent(max_concurrent_tasks: u8) -> (r: Self)
        ensures
            r.model().sound(),
            r.model() =~= (QueueModel {
                queue: Seq::empty(),
                active: Seq::empty(),
                all: Seq::empty(),
                max: if max_concurrent_tasks < 1 {
                    1
                } else if max_concurrent_tasks > MAX_CONCURRENT {
                    MAX_CONCURRENT
                } else {
                    max_concurrent_tasks
                },
                occupied: Set::empty(),
                fold_case: false,
            }),
    {
        let max: u8 = if max_concurrent_tasks < 1 {
            1
        } else if max_concurrent_tasks > MAX_CONCURRENT {
            MAX_CONCURRENT
        } else {
            max_concurrent_tasks
        };
        QueueState {
            queue: Vec::new(),
            active: Vec::new(),
            all: Vec::new(),
            max,
            occupied: Vec::new(),
            fold_case: false,
        }
    }

    /// The queue on a file system that does not tell upper from lower case. To be asked for before
    /// tasks are put in.
    pub fn folding_case(self) -> (r: Self)
        requires
            self.model().sound(),
            self.model().all.len() == 0,
        ensures
            r.model().sound(),
            r.model() =~= (QueueModel { fold_case: true, ..self.model() }),
    {
        QueueState { fold_case: true, ..self }
    }

    /// The place of a task.
    fn find(&self, id: TaskId) -> (r: Option<usize>)
        ensures
            match r {
                Some(i) => i == task_place(self.all@, id) && i < self.all@.len(),
                None => !self.model().knows(id),
            },
    {
        let mut i: usize = 0;
        while i < self.all.len()
            invariant
                i <= self.all@.len(),
                task_place(self.all@.take(i as int), id) < 0,
            decreases self.all.len() - i,
        {
            assert(self.all@.take(i + 1).drop_last() =~= self.all@.take(i as int));
            if same_id(self.all[i].id, id) {
                proof {
                    assert(task_place(self.all@.take(i + 1), id) == i);
                    lemma_task_place_stable(self.all@, i + 1, id);
                }
                return Some(i);
            }
            i = i + 1;
        }
        assert(self.all@.take(i as int) =~= self.all@);
        None
    }

    /// Whether an output path is taken by a task.
    pub fn is_occupied(&self, path: &str) -> (r: bool)
        ensures
            r == self.model().occupied.contains(self.model().key(path@)),
    {
        let key: String = path_key(path, self.fold_case);
        has_path(&self.occupied, key.as_str())
    }

    /// Puts a task in behind the others, and takes its path. Refused if the path is taken, by a task
    /// or on disk, and if there is a task with that id.
    pub fn try_enqueue(
        &mut self,
        id: TaskId,
        url: String,
        output_path: String,
        workers: u64,
        on_disk: bool,
        now: u64,
    ) -> (r: bool)
        requires
            old(self).model().sound(),
        ensures
            final(self).model().sound(),
            r == old(self).model().can_take(id, output_path@, on_disk),
            r ==> final(self).model() =~= old(self).model().enqueued(
                task::fresh_task(
                    id,
                    url,
                    output_path,
                    if workers >= 1 {
                        workers
                    } else {
                        1
                    },
                    now,
                ),
            ),
            !r ==> final(self).model() =~= old(self).model(),
    {
        if on_disk || self.is_occupied(output_path.as_str()) {
            return false;
        }
        if self.find(id).is_some() {
            return false;
        }
        let ghost m = self.model();
        let workers: u64 = if workers >= 1 {
            workers
        } else {
            1
        };
        let key: String = path_key(output_path.as_str(), self.fold_case);
        let ghost t = task::fresh_task(id, url, output_path, workers, now);
        proof {
            lemma_texts_push(self.occupied@, key);
        }
        self.occupied.push(key);
        self.queue.push(id);
        self.all.push(Task::with_id(id, url, output_path, workers, now));
        proof {
            lemma_enqueued_sound(m, t);
            assert(self.model() =~= m.enqueued(t));
        }
        true
    }

    /// Pauses a task that runs or waits.
    pub fn pause(&mut self, id: TaskId) -> (r: QueueResult<PauseOutcome>)
        requires
            old(self).model().sound(),
        ensures
            final(self).model().sound(),
            well_paused(old(self).model(), final(self).model(), id, r),
    {
        let ghost m = self.model();
        proof {
            lemma_id_place(m.active, id);
            lemma_id_place(m.queue, id);
        }
        if let Some(i) = find_id(&self.active, id) {
            proof {
                assert(m.active[i as int] == id);
                lemma_paused_sound(m, id);
            }
            let _ = self.active.remove(i);
            self.set_state(id, TaskState::Paused);
            assert(self.model() =~= m.paused(id));
            return Ok(PauseOutcome::Stopped);
        }
        if let Some(i) = find_id(&self.queue, id) {
            proof {
                assert(m.queue[i as int] == id);
                lemma_paused_sound(m, id);
            }
            let _ = self.queue.remove(i);
            self.set_state(id, TaskState::Paused);
            assert(self.model() =~= m.paused(id));
            return Ok(PauseOutcome::Dequeued);
        }
        match self.find(id) {
            Some(i) => {
                match &self.all[i].state {
                    TaskState::Paused => Ok(PauseOutcome::Unchanged),
                    other => Err(invalid_state(id, "Queued/Active", other)),
                }
            },
            None => Err(QueueError::NotFound(id.to_text())),
        }
    }

    /// Sets the state of a task that there is.
    fn set_state(&mut self, id: TaskId, state: TaskState)
        requires
            old(self).model().knows(id),
        ensures
            final(self).model() =~= old(self).model().in_state(id, state),
    {
        if let Some(i) = self.find(id) {
            self.all[i].state = state;
        }
    }

    /// Has a paused task wait again, before all others.
    pub fn resume(&mut self, id: TaskId) -> (r: QueueResult<()>)
        requires
            old(self).model().sound(),
        ensures
            final(self).model().sound(),
            well_resumed(old(self).model(), final(self).model(), id, r),
    {
        let ghost m = self.model();
        match self.find(id) {
            Some(i) => {
                match &self.all[i].state {
                    TaskState::Paused => {},
                    other => {
                        return Err(invalid_state(id, "Paused", other));
                    },
                }
                proof {
                    lemma_resumed_sound(m, id);
                }
                self.queue.insert(0, id);
                assert(self.queue@ =~= seq![id] + m.queue);
                self.set_state(id, TaskState::Queued);
                assert(self.model() =~= m.resumed(id));
                Ok(())
            },
            None => Err(QueueError::NotFound(id.to_text())),
        }
    }

    /// Removes a task and frees its path. Nothing is left to do for a task that was removed before.
    pub fn cancel(&mut self, id: TaskId) -> (r: QueueResult<Option<Cancelled>>)
        requires
            old(self).model().sound(),
        ensures
            final(self).model().sound(),
            well_cancelled(old(self).model(), final(self).model(), id, r),
    {
        let ghost m = self.model();
        proof {
            lemma_id_place(m.active, id);
            lemma_id_place(m.queue, id);
        }
        let place: usize = match self.find(id) {
            Some(i) => i,
            None => {
                return Err(QueueError::NotFound(id.to_text()));
            },
        };
        if let TaskState::Removed = &self.all[place].state {
            return Ok(None);
        }
        let running: Option<usize> = find_id(&self.active, id);
        let waiting: Option<usize> = find_id(&self.queue, id);
        proof {
            lemma_cancelled_sound(m, id);
        }
        let stop: bool = running.is_some();
        if let Some(i) = running {
            let _ = self.active.remove(i);
        } else if let Some(i) = waiting {
            let _ = self.queue.remove(i);
        }
        let path: String = self.all[place].output_path.clone();
        let sidecar: String = metadata_path_for(path.as_str());
        let key: String = path_key(path.as_str(), self.fold_case);
        self.occupied = without_path(&self.occupied, key.as_str());
        self.set_state(id, TaskState::Removed);
        assert(self.model() =~= m.cancelled(id));
        Ok(Some(Cancelled { stop, path, sidecar }))
    }

    /// Starts the first waiting task if another one may run. Gives the task to run.
    pub fn pump(&mut self) -> (r: Option<Task>)
        requires
            old(self).model().sound(),
        ensures
            final(self).model().sound(),
            match r {
                Some(t) => {
                    &&& old(self).model().may_start()
                    &&& final(self).model() =~= old(self).model().pumped()
                    &&& t == final(self).model().task(old(self).model().queue[0])
                },
                None => !old(self).model().may_start() && final(self).model() =~= old(self).model(),
            },
    {
        let ghost m = self.model();
        if self.active.len() >= self.max as usize || self.queue.len() == 0 {
            return None;
        }
        let id: TaskId = self.queue.remove(0);
        assert(m.queue[0] == id);
        assert(self.queue@ =~= m.queue.skip(1));
        proof {
            lemma_pumped_sound(m);
        }
        self.set_state(id, TaskState::Active);
        self.active.push(id);
        assert(self.model() =~= m.pumped());
        assert(m.pumped().active[m.active.len() as int] == id);
        match self.find(id) {
            Some(i) => Some(self.all[i].copy()),
            None => None,
        }
    }

    /// The work of a task ended, with an error's text or without.
    pub fn on_complete(&mut self, id: TaskId, error: Option<String>)
        requires
            old(self).model().sound(),
        ensures
            final(self).model().sound(),
            final(self).model() =~= old(self).model().ended(id, error),
    {
        let ghost m = self.model();
        let ghost why = error;
        proof {
            lemma_ended_sound(m, id, why);
        }
        if let Some(i) = find_id(&self.active, id) {
            let _ = self.active.remove(i);
        }
        if let Some(i) = self.find(id) {
            match error {
                None => {
                    match &self.all[i].state {
                        TaskState::Active => {
                            self.all[i].state = TaskState::Completed;
                        },
                        _ => {},
                    }
                },
                Some(e) => {
                    match &self.all[i].state {
                        TaskState::Removed => {},
                        TaskState::Paused => {},
                        _ => {
                            self.all[i].state = TaskState::Failed(e);
                        },
                    }
                },
            }
            let settled: bool = match &self.all[i].state {
                TaskState::Completed => true,
                TaskState::Failed(_) => true,
                _ => false,
            };
            if settled {
                let key: String = path_key(self.all[i].output_path.as_str(), self.fold_case);
                self.occupied = without_path(&self.occupied, key.as_str());
            }
        }
        assert(self.model() =~= m.ended(id, why));
    }

    /// What is told of a task.
    pub fn query(&self, id: TaskId) -> (r: Option<TaskSnapshot>)
        ensures
            match r {
                Some(s) => self.model().knows(id) && s == task::snapshot_of(self.model().task(id)),
                None => !self.model().knows(id),
            },
    {
        match self.find(id) {
            Some(i) => Some(TaskSnapshot::from(&self.all[i])),
            None => None,
        }
    }

    /// What is told of all tasks.
    pub fn snapshot_all(&self) -> (r: Vec<TaskSnapshot>)
        ensures
            r@ == Seq::new(self.all@.len(), |i: int| task::snapshot_of(self.all@[i])),
    {
        let mut out: Vec<TaskSnapshot> = Vec::new();
        let mut i: usize = 0;
        while i < self.all.len()
            invariant
                i <= self.all@.len(),
                out@.len() == i,
                forall|k: int|
                    0 <= k < i ==> #[trigger] out@[k] == task::snapshot_of(self.all@[k]),
            decreases self.all.len() - i,
        {
            out.push(TaskSnapshot::from(&self.all[i]));
            i = i + 1;
        }
        assert(out@ =~= Seq::new(self.all@.len(), |i: int| task::snapshot_of(self.all@[i])));
        out
    }

    /// The number of waiting tasks.
    pub fn queued_len(&self) -> (r: usize)
        ensures
            r == self.model().queue.len(),
    {
        self.queue.len()
    }

    /// The number of running tasks.
    pub fn active_count(&self) -> (r: usize)
        ensures
            r == self.model().active.len(),
    {
        self.active.len()
    }

    /// Whether no task waits and none runs.
    pub fn is_idle(&self) -> (r: bool)
        ensures
            r == (self.model().queue.len() == 0 && self.model().active.len() == 0),
    {
        self.queue.len() == 0 && self.active.len() == 0
    }
}

impl QueueModel {
    /// The task at place `i` still needs its path.
    pub open spec fn live(self, i: int) -> bool {
        !self.all[i].state.terminal()
    }

    /// What holds of a queue whose tasks are not interfered with: the tasks that wait are queued,
    /// those that run are active, no two tasks that need their paths share one, and those paths are
    /// taken.
    pub open spec fn exclusive(self) -> bool {
        &&& self.sound()
        &&& forall|i: int|
            0 <= i < self.queue.len() ==> self.task(#[trigger] self.queue[i]).state is Queued
        &&& forall|i: int|
            0 <= i < self.active.len() ==> self.task(#[trigger] self.active[i]).state is Active
        &&& forall|i: int, j: int|
            0 <= i < j < self.all.len() && #[trigger] self.live(i) && #[trigger] self.live(j)
                ==> self.key(self.all[i].output_path@) != self.key(self.all[j].output_path@)
        &&& forall|i: int|
            0 <= i < self.all.len() && #[trigger] self.live(i) ==> self.occupied.contains(
                self.key(self.all[i].output_path@),
            )
    }

    /// No task but `id` needs the path of `id`.
    pub open spec fn alone(self, id: TaskId) -> bool {
        forall|i: int|
            0 <= i < self.all.len() && #[trigger] self.live(i) && self.all[i].id != id
                ==> self.key(self.all[i].output_path@) != self.key_for(id)
    }
}

/// Tasks that share a queue never share a path: a new task gets a path that no other task needs.
pub proof fn law_new_tasks_get_their_own_path(m: QueueModel, t: Task)
    requires
        m.exclusive(),
        !m.knows(t.id),
        t.state is Queued,
        !m.occupied.contains(m.key(t.output_path@)),
    ensures
        m.enqueued(t).exclusive(),
{
    lemma_enqueued_sound(m, t);
    let n = m.enqueued(t);
    lemma_task_place(m.all, t.id);
    assert(n.all.drop_last() =~= m.all);
    assert forall|x: TaskId| m.knows(x) implies #[trigger] n.task(x) == m.task(x) by {
        lemma_task_place(m.all, x);
    }
    assert(n.task(t.id) == t);
    assert forall|i: int| 0 <= i < m.all.len() implies #[trigger] n.live(i) == m.live(i) by {}
    assert forall|i: int| 0 <= i < n.queue.len() implies n.task(
        #[trigger] n.queue[i],
    ).state is Queued by {
        if i < m.queue.len() {
            assert(m.knows(m.queue[i]));
            assert(n.queue[i] == m.queue[i]);
        }
    }
    assert forall|i: int| 0 <= i < n.active.len() implies n.task(
        #[trigger] n.active[i],
    ).state is Active by {
        assert(m.knows(m.active[i]));
    }
    assert forall|i: int, j: int|
        0 <= i < j < n.all.len() && #[trigger] n.live(i) && #[trigger] n.live(
            j,
        ) implies n.key(n.all[i].output_path@) != n.key(n.all[j].output_path@) by {
        assert(m.live(i));
        if j < m.all.len() {
            assert(m.live(j));
        }
    }
    assert forall|i: int| 0 <= i < n.all.len() && #[trigger] n.live(i) implies n.occupied.contains(
        n.key(n.all[i].output_path@),
    ) by {
        if i < m.all.len() {
            assert(m.live(i));
        }
    }
}

/// What a change of one task's state leaves exclusive.
proof fn lemma_changed_exclusive(m: QueueModel, id: TaskId, n: QueueModel, state: TaskState)
    requires
        m.exclusive(),
        m.knows(id),
        n.sound(),
        n.all == m.in_state(id, state).all,
        n.fold_case == m.fold_case,
        forall|i: int|
            0 <= i < n.queue.len() ==> #[trigger] n.queue[i] == id && state is Queued || (n.queue[i]
                != id && m.queue.contains(n.queue[i])),
        forall|i: int|
            0 <= i < n.active.len() ==> #[trigger] n.active[i] == id && state is Active || (
            n.active[i] != id && m.active.contains(n.active[i])),
        !state.terminal() ==> !m.task(id).state.terminal(),
        n.occupied == m.occupied || state.terminal() && m.alone(id) && n.occupied
            == m.occupied.remove(m.key_for(id)),
    ensures
        n.exclusive(),
{
    lemma_in_state(m, id, state);
    lemma_task_place(m.all, id);
    let p = task_place(m.all, id);
    let k = m.in_state(id, state);
    assert(forall|x: TaskId| #[trigger] n.task(x) == k.task(x));
    assert forall|i: int| 0 <= i < n.queue.len() implies n.task(
        #[trigger] n.queue[i],
    ).state is Queued by {
        if n.queue[i] != id {
            let j = choose|j: int| 0 <= j < m.queue.len() && m.queue[j] == n.queue[i];
            assert(m.knows(m.queue[j]));
            assert(k.task(m.queue[j]) == m.task(m.queue[j]));
        }
    }
    assert forall|i: int| 0 <= i < n.active.len() implies n.task(
        #[trigger] n.active[i],
    ).state is Active by {
        if n.active[i] != id {
            let j = choose|j: int| 0 <= j < m.active.len() && m.active[j] == n.active[i];
            assert(m.knows(m.active[j]));
            assert(k.task(m.active[j]) == m.task(m.active[j]));
        }
    }
    assert forall|i: int| 0 <= i < n.all.len() && #[trigger] n.live(i) implies m.live(i) by {
        if i == p {
            assert(m.all[p] == m.task(id));
        }
    }
    assert forall|i: int, j: int|
        0 <= i < j < n.all.len() && #[trigger] n.live(i) && #[trigger] n.live(
            j,
        ) implies n.key(n.all[i].output_path@) != n.key(n.all[j].output_path@) by {
        assert(m.live(i) && m.live(j));
    }
    assert forall|i: int| 0 <= i < n.all.len() && #[trigger] n.live(i) implies n.occupied.contains(
        n.key(n.all[i].output_path@),
    ) by {
        assert(m.live(i));
        if i == p {
            assert(n.all[p].state == state);
        } else {
            assert(m.all[i].id != m.all[p].id);
        }
    }
}

/// A live task is alone on its path.
proof fn lemma_live_is_alone(m: QueueModel, id: TaskId)
    requires
        m.exclusive(),
        m.knows(id),
        !m.task(id).state.terminal(),
    ensures
        m.alone(id),
{
    lemma_task_place(m.all, id);
    let p = task_place(m.all, id);
    assert(m.live(p));
    assert forall|i: int|
        0 <= i < m.all.len() && #[trigger] m.live(i) && m.all[i].id
            != id implies m.key(m.all[i].output_path@) != m.key_for(id) by {
        if i < p {
        } else {
            assert(p < i);
        }
    }
}

/// Pausing keeps paths apart.
pub proof fn law_pausing_keeps_paths_apart(m: QueueModel, id: TaskId)
    requires
        m.exclusive(),
        m.runs(id) || m.waits(id),
    ensures
        m.paused(id).exclusive(),
        m.paused(id).knows(id),
        m.paused(id).task(id).state is Paused,
{
    lemma_runs_or_waits(m, id);
    lemma_paused_sound(m, id);
    lemma_remove_no_duplicates(m.queue, id);
    lemma_remove_no_duplicates(m.active, id);
    lemma_id_place(m.queue, id);
    lemma_id_place(m.active, id);
    if m.runs(id) {
        assert(m.task(m.active[id_place(m.active, id)]).state is Active);
    } else {
        assert(m.task(m.queue[id_place(m.queue, id)]).state is Queued);
    }
    assert(without_id(m.queue, id) == m.paused(id).queue);
    assert(without_id(m.active, id) == m.paused(id).active);
    lemma_changed_exclusive(m, id, m.paused(id), TaskState::Paused);
    lemma_in_state(m, id, TaskState::Paused);
    assert(m.in_state(id, TaskState::Paused).knows(id));
}

/// Resuming keeps paths apart, and puts the task before all others.
pub proof fn law_resuming_keeps_paths_apart(m: QueueModel, id: TaskId)
    requires
        m.exclusive(),
        m.knows(id),
        m.task(id).state is Paused,
    ensures
        m.resumed(id).exclusive(),
        m.resumed(id).queue[0] == id,
        m.resumed(id).queue.skip(1) == m.queue,
{
    lemma_resumed_sound(m, id);
    lemma_runs_or_waits(m, id);
    lemma_id_place(m.queue, id);
    lemma_id_place(m.active, id);
    let n = m.resumed(id);
    assert forall|i: int| 0 <= i < n.queue.len() implies #[trigger] n.queue[i] == id || (n.queue[i]
        != id && m.queue.contains(n.queue[i])) by {
        if i > 0 {
            assert(n.queue[i] == m.queue[i - 1]);
        }
    }
    assert forall|i: int| 0 <= i < n.active.len() implies #[trigger] n.active[i] != id
        && m.active.contains(n.active[i]) by {
        assert(m.active[i] == n.active[i]);
    }
    lemma_changed_exclusive(m, id, n, TaskState::Queued);
    assert(n.queue.skip(1) =~= m.queue);
}

/// Cancelling keeps paths apart, unless the task had ended and another one has its path by now.
/// Once cancelled, a task stays removed: cancelling it again finds nothing to do.
pub proof fn law_cancelling_keeps_paths_apart(m: QueueModel, id: TaskId)
    requires
        m.exclusive(),
        m.knows(id),
        m.task(id).state.terminal() ==> m.alone(id),
    ensures
        m.cancelled(id).exclusive(),
        m.cancelled(id).knows(id),
        m.cancelled(id).task(id).state is Removed,
        !m.cancelled(id).runs(id),
        !m.cancelled(id).waits(id),
{
    lemma_cancelled_sound(m, id);
    lemma_runs_or_waits(m, id);
    lemma_remove_no_duplicates(m.queue, id);
    lemma_remove_no_duplicates(m.active, id);
    if !m.task(id).state.terminal() {
        lemma_live_is_alone(m, id);
    }
    let n = m.cancelled(id);
    assert(without_id(m.queue, id) == n.queue);
    assert(without_id(m.active, id) == n.active);
    lemma_changed_exclusive(m, id, n, TaskState::Removed);
    lemma_in_state(m, id, TaskState::Removed);
    assert(m.in_state(id, TaskState::Removed).knows(id));
    lemma_id_place(n.queue, id);
    lemma_id_place(n.active, id);
}

/// Any task that was put in can be cancelled, whatever became of it: afterwards it is removed, neither
/// waits nor runs, and its path is free; cancelling it again finds nothing to do.
pub proof fn law_cancelling_always_succeeds(m: QueueModel, id: TaskId)
    requires
        m.sound(),
        m.knows(id),
    ensures
        m.cancelled(id).sound(),
        m.cancelled(id).knows(id),
        m.cancelled(id).task(id).state is Removed,
        !m.cancelled(id).waits(id),
        !m.cancelled(id).runs(id),
        !m.cancelled(id).occupied.contains(m.key_for(id)),
        m.task(id).state is Removed ==> !m.waits(id) && !m.runs(id),
{
    lemma_cancelled_sound(m, id);
    lemma_runs_or_waits(m, id);
    lemma_remove_no_duplicates(m.queue, id);
    lemma_remove_no_duplicates(m.active, id);
    let n = m.cancelled(id);
    assert(without_id(m.queue, id) == n.queue);
    assert(without_id(m.active, id) == n.active);
    lemma_in_state(m, id, TaskState::Removed);
    assert(m.in_state(id, TaskState::Removed).knows(id));
    lemma_id_place(n.queue, id);
    lemma_id_place(n.active, id);
}

/// Starting tasks keeps paths apart, and starts the task that waited longest.
pub proof fn law_starting_keeps_paths_apart(m: QueueModel)
    requires
        m.exclusive(),
        m.may_start(),
    ensures
        m.pumped().exclusive(),
        m.pumped().runs(m.queue[0]),
        m.pumped().active.len() <= m.max,
{
    lemma_pumped_sound(m);
    let id = m.queue[0];
    let n = m.pumped();
    assert(m.task(m.queue[0]).state is Queued);
    assert forall|i: int| 0 <= i < n.queue.len() implies #[trigger] n.queue[i] != id
        && m.queue.contains(n.queue[i]) by {
        assert(n.queue[i] == m.queue[i + 1]);
    }
    assert forall|i: int| 0 <= i < n.active.len() implies #[trigger] n.active[i] == id || (
    n.active[i] != id && m.active.contains(n.active[i])) by {
        if i < m.active.len() {
            assert(n.active[i] == m.active[i]);
            assert(m.queue[0] != m.active[i]);
        }
    }
    lemma_changed_exclusive(m, id, n, TaskState::Active);
    lemma_id_place(n.active, id);
    assert(n.active[m.active.len() as int] == id);
}

/// The end of a running task keeps paths apart: it completes or fails, and its path is free.
pub proof fn law_ending_keeps_paths_apart(m: QueueModel, id: TaskId, error: Option<String>)
    requires
        m.exclusive(),
        m.runs(id),
    ensures
        m.ended(id, error).exclusive(),
        m.ended(id, error).task(id).state == (match error {
            None => TaskState::Completed,
            Some(e) => TaskState::Failed(e),
        }),
        !m.ended(id, error).occupied.contains(m.key_for(id)),
{
    lemma_ended_sound(m, id, error);
    lemma_runs_or_waits(m, id);
    lemma_id_place(m.active, id);
    lemma_id_place(m.queue, id);
    assert(m.task(m.active[id_place(m.active, id)]).state is Active);
    lemma_live_is_alone(m, id);
    lemma_remove_no_duplicates(m.active, id);
    let n = m.ended(id, error);
    let state = match error {
        None => TaskState::Completed,
        Some(e) => TaskState::Failed(e),
    };
    assert(n.active == without_id(m.active, id));
    assert forall|i: int| 0 <= i < n.queue.len() implies #[trigger] n.queue[i] != id
        && m.queue.contains(n.queue[i]) by {
        assert(m.queue[i] == n.queue[i]);
    }
    lemma_changed_exclusive(m, id, n, state);
    lemma_in_state(m, id, state);
    assert(n.task(id) == m.in_state(id, state).task(id));
}

} // verus!
