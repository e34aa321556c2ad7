//! Tasks of a queue: their ids, their states, and what is told of them.

use crate::text;
use vstd::prelude::*;

verus! {

/// The hexadecimal digit of value `d`, in lower case.
pub open spec fn hex_char(d: nat) -> char {
    if d < 10 {
        (48 + d) as char
    } else {
        (87 + d) as char
    }
}

/// The last `len` hexadecimal digits of `n`.
pub open spec fn hex_text(n: nat, len: nat) -> Seq<char>
    decreases len,
{
    if len == 0 {
        Seq::empty()
    } else {
        hex_text(n / 16, (len - 1) as nat).push(hex_char(n % 16))
    }
}

/// The text of a 128-bit id: 32 hexadecimal digits in groups of 8, 4, 4, 4 and 12, with hyphens
/// between them.
pub open spec fn hyphenated(n: u128) -> Seq<char> {
    let h = hex_text(n as nat, 32);
    h.take(8).push('-') + h.subrange(8, 12).push('-') + h.subrange(12, 16).push('-') + h.subrange(
        16,
        20,
    ).push('-') + h.skip(20)
}

/// The value of a hexadecimal digit of either case.
pub open spec fn hex_value(c: char) -> Option<nat> {
    if '0' <= c <= '9' {
        Some((c as nat - 48) as nat)
    } else if 'a' <= c <= 'f' {
        Some((c as nat - 87) as nat)
    } else if 'A' <= c <= 'F' {
        Some((c as nat - 55) as nat)
    } else {
        None
    }
}

/// The number that hexadecimal digits spell.
pub open spec fn hex_number(s: Seq<char>) -> Option<nat>
    decreases s.len(),
{
    if s.len() == 0 {
        Some(0)
    } else {
        match (hex_number(s.drop_last()), hex_value(s.last())) {
            (Some(n), Some(d)) => Some(16 * n + d),
            _ => None,
        }
    }
}

/// The number of 36 characters that are hexadecimal digits but for hyphens in the four places.
pub open spec fn hyphenated_number(s: Seq<char>) -> Option<nat> {
    if s[8] == '-' && s[13] == '-' && s[18] == '-' && s[23] == '-' {
        hex_number(
            s.take(8) + s.subrange(9, 13) + s.subrange(14, 18) + s.subrange(19, 23) + s.skip(24),
        )
    } else {
        None
    }
}

/// The id that a text spells: 32 digits, or the hyphenated form, bare, in braces or behind
/// `urn:uuid:`.
pub open spec fn spelled_id(s: Seq<char>) -> Option<nat> {
    if s.len() == 32 {
        hex_number(s)
    } else if s.len() == 36 {
        hyphenated_number(s)
    } else if s.len() == 38 && s[0] == '{' && s[37] == '}' {
        hyphenated_number(s.subrange(1, 37))
    } else if s.len() == 45 && text::same_ignoring_case(s.take(9), "urn:uuid:"@) {
        hyphenated_number(s.skip(9))
    } else {
        None
    }
}

/// The version and variant bits of a random id: version 4, variant `10`.
pub open spec fn has_random_mark(n: u128) -> bool {
    n & 0xF000_C000_0000_0000_0000u128 == 0x4000_8000_0000_0000_0000u128
}

/// The parsing errors of `uuid`, carried as they are.
#[verifier::external_type_specification]
#[verifier::external_body]
pub struct ExUuidError(uuid::Error);

/// Calls `uuid::Uuid::new_v4`. Claimed: the version and variant bits are those of a random id. The
/// other bits are random, and nothing is claimed of them; the call panics only where the system has
/// no random numbers to give.
#[verifier::external_body]
fn random_id() -> (r: u128)
    ensures
        has_random_mark(r),
{
    uuid::Uuid::new_v4().as_u128()
}

/// Calls the `Display` of `uuid::Uuid`. Claimed: the text is the hyphenated form in lower case.
#[verifier::external_body]
fn id_text(n: u128) -> (r: String)
    ensures
        r@ == hyphenated(n),
{
    uuid::Uuid::from_u128(n).to_string()
}

/// Calls `uuid::Uuid::parse_str`. Claimed: it takes the forms that `spelled_id` lists and no others,
/// and gives the number that they spell.
#[verifier::external_body]
fn parse_id(text: &str) -> (r: std::result::Result<u128, uuid::Error>)
    ensures
        match r {
            Ok(n) => spelled_id(text@) == Some(n as nat),
            Err(_) => spelled_id(text@) is None,
        },
{
    uuid::Uuid::parse_str(text).map(|id| id.as_u128())
}

/// Calls the `Display` of `uuid::Error`. Nothing is claimed of the wording.
#[verifier::external_body]
fn id_error_text(error: &uuid::Error) -> (r: String) {
    error.to_string()
}

/// The id of a task, 128 bits wide. Ids of new tasks are random, so that no two tasks share one,
/// across processes and restarts.
#[derive(Debug, Clone, Copy, PartialEq, Eq, Structural, Hash)]
pub struct TaskId(pub u128);

/// A text that spells no task id, and what is wrong with it.
#[derive(Debug)]
pub struct InvalidTaskId {
    pub reason: String,
}

impl TaskId {
    /// A new random id.
    pub fn new() -> (r: Self)
        ensures
            has_random_mark(r.0),
    {
        TaskId(random_id())
    }

    /// The id as a text.
    pub fn to_text(&self) -> (r: String)
        ensures
            r@ == hyphenated(self.0),
    {
        id_text(self.0)
    }

    /// The id that a text spells.
    pub fn from_str(text: &str) -> (r: std::result::Result<TaskId, InvalidTaskId>)
        ensures
            match r {
                Ok(id) => spelled_id(text@) == Some(id.0 as nat),
                Err(_) => spelled_id(text@) is None,
            },
    {
        match parse_id(text) {
            Ok(n) => Ok(TaskId(n)),
            Err(e) => Err(InvalidTaskId { reason: id_error_text(&e) }),
        }
    }
}

impl Default for TaskId {
    fn default() -> (r: Self)
        ensures
            has_random_mark(r.0),
    {
        TaskId::new()
    }
}

/// `16` to the power of `k`.
spec fn sixteens(k: nat) -> nat
    decreases k,
{
    if k == 0 {
        1
    } else {
        16 * sixteens((k - 1) as nat)
    }
}

proof fn lemma_hex_text(n: nat, k: nat)
    requires
        n < sixteens(k),
    ensures
        hex_text(n, k).len() == k,
        hex_number(hex_text(n, k)) == Some(n),
    decreases k,
{
    if k > 0 {
        let m = (k - 1) as nat;
        assert(n / 16 < sixteens(m)) by (nonlinear_arith)
            requires
                n < 16 * sixteens(m),
        ;
        lemma_hex_text(n / 16, m);
        let t = hex_text(n, k);
        assert(t.drop_last() =~= hex_text(n / 16, m));
        let d = n % 16;
        assert(t.last() == hex_char(d));
        assert(hex_value(hex_char(d)) == Some(d));
    }
}

/// The text of an id spells that id.
pub proof fn law_id_text_round_trip(n: u128)
    ensures
        spelled_id(hyphenated(n)) == Some(n as nat),
{
    reveal_with_fuel(sixteens, 33);
    lemma_hex_text(n as nat, 32);
    let h = hex_text(n as nat, 32);
    let s = hyphenated(n);
    assert(s.take(8) + s.subrange(9, 13) + s.subrange(14, 18) + s.subrange(19, 23) + s.skip(24)
        =~= h);
}

/// Ids with the same text are the same.
pub proof fn law_id_text_injective(a: u128, b: u128)
    requires
        hyphenated(a) == hyphenated(b),
    ensures
        a == b,
{
    law_id_text_round_trip(a);
    law_id_text_round_trip(b);
}

/// The state of a task in its queue.
#[derive(Debug, Clone, PartialEq, Eq)]
pub enum TaskState {
    Queued,
    Active,
    Paused,
    /// With the error's text.
    Failed(String),
    Completed,
    Removed,
}

/// The name of a state.
pub open spec fn state_name(s: TaskState) -> Seq<char> {
    match s {
        TaskState::Queued => "Queued"@,
        TaskState::Active => "Active"@,
        TaskState::Paused => "Paused"@,
        TaskState::Failed(_) => "Failed"@,
        TaskState::Completed => "Completed"@,
        TaskState::Removed => "Removed"@,
    }
}

impl TaskState {
    /// The task ended: it failed, was completed or was removed.
    pub open spec fn terminal(self) -> bool {
        self is Failed || self is Completed || self is Removed
    }

    /// Whether the task ended.
    pub fn is_terminal(&self) -> (r: bool)
        ensures
            r == self.terminal(),
    {
        match self {
            TaskState::Failed(_) => true,
            TaskState::Completed => true,
            TaskState::Removed => true,
            _ => false,
        }
    }

    /// The name of the state.
    pub fn as_str(&self) -> (r: &'static str)
        ensures
            r@ == state_name(*self),
    {
        match self {
            TaskState::Queued => "Queued",
            TaskState::Active => "Active",
            TaskState::Paused => "Paused",
            TaskState::Failed(_) => "Failed",
            TaskState::Completed => "Completed",
            TaskState::Removed => "Removed",
        }
    }

    /// The same state once more.
    pub fn copy(&self) -> (r: Self)
        ensures
            r == *self,
    {
        match self {
            TaskState::Queued => TaskState::Queued,
            TaskState::Active => TaskState::Active,
            TaskState::Paused => TaskState::Paused,
            TaskState::Failed(t) => TaskState::Failed(t.clone()),
            TaskState::Completed => TaskState::Completed,
            TaskState::Removed => TaskState::Removed,
        }
    }
}

/// A task of a queue.
#[derive(Debug)]
pub struct Task {
    pub id: TaskId,
    pub url: String,
    pub output_path: String,
    pub state: TaskState,
    pub downloaded: u64,
    pub total_size: u64,
    pub workers: u64,
    /// In nanoseconds.
    pub created_at: u64,
}

/// A task that was just put into a queue.
pub open spec fn fresh_task(
    id: TaskId,
    url: String,
    output_path: String,
    workers: u64,
    now: u64,
) -> Task {
    Task {
        id,
        url,
        output_path,
        state: TaskState::Queued,
        downloaded: 0,
        total_size: 0,
        workers,
        created_at: now,
    }
}

impl Task {
    /// A task with a random id.
    pub fn new(url: String, output_path: String, workers: u64, now: u64) -> (r: Self)
        ensures
            has_random_mark(r.id.0),
            r == fresh_task(r.id, url, output_path, workers, now),
    {
        Task::with_id(TaskId::new(), url, output_path, workers, now)
    }

    /// A task with a given id.
    pub fn with_id(id: TaskId, url: String, output_path: String, workers: u64, now: u64) -> (r:
        Self)
        ensures
            r == fresh_task(id, url, output_path, workers, now),
    {
        Task {
            id,
            url,
            output_path,
            state: TaskState::Queued,
            downloaded: 0,
            total_size: 0,
            workers,
            created_at: now,
        }
    }

    /// The same task once more.
    pub fn copy(&self) -> (r: Self)
        ensures
            r == *self,
    {
        Task {
            id: self.id,
            url: self.url.clone(),
            output_path: self.output_path.clone(),
            state: self.state.copy(),
            downloaded: self.downloaded,
            total_size: self.total_size,
            workers: self.workers,
            created_at: self.created_at,
        }
    }
}

/// What is told of a task.
#[derive(Debug)]
pub struct TaskSnapshot {
    pub id: TaskId,
    pub url: String,
    pub output_path: String,
    pub state: TaskState,
    pub downloaded: u64,
    pub total_size: u64,
    pub workers: u64,
}

/// What is told of `t`.
pub open spec fn snapshot_of(t: Task) -> TaskSnapshot {
    TaskSnapshot {
        id: t.id,
        url: t.url,
        output_path: t.output_path,
        state: t.state,
        downloaded: t.downloaded,
        total_size: t.total_size,
        workers: t.workers,
    }
}

impl<'a> From<&'a Task> for TaskSnapshot {
    fn from(t: &'a Task) -> (r: Self) {
        TaskSnapshot {
            id: t.id,
            url: t.url.clone(),
            output_path: t.output_path.clone(),
            state: t.state.copy(),
            downloaded: t.downloaded,
            total_size: t.total_size,
            workers: t.workers,
        }
    }
}

impl<'a> vstd::std_specs::convert::FromSpecImpl<&'a Task> for TaskSnapshot {
    open spec fn obeys_from_spec() -> bool {
        true
    }

    open spec fn from_spec(t: &'a Task) -> TaskSnapshot {
        snapshot_of(*t)
    }
}

} // verus!
