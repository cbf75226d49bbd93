use vstd::prelude::*;
use crate::record::{StudentRanking, Message, sorted, stable_reorder};
use crate::sort::merge_sort;

verus! {

/// How many times a worker tries to connect before it gives up.
pub const CONNECT_ATTEMPTS: u32 = 5;

/// How long a worker waits after a failed attempt, in milliseconds.
pub const BACKOFF_MS: u64 = 1000;

/// What a worker does after one attempt to connect.
pub enum ConnectStep {
    /// The connection stands: start the session.
    Connected,
    /// Wait this long, then try again.
    Retry { wait_ms: u64 },
    /// Every attempt failed: a fatal connection error.
    GiveUp,
}

/// The step after attempt number `made` (counting from one), which connected or not.
pub open spec fn connect_step(made: nat, connected: bool) -> ConnectStep {
    if connected {
        ConnectStep::Connected
    } else if made < CONNECT_ATTEMPTS {
        ConnectStep::Retry { wait_ms: BACKOFF_MS }
    } else {
        ConnectStep::GiveUp
    }
}

/// Where the attempts from number `a + 1` on lead, when attempt `i + 1` finds the
/// coordinator listening exactly if `up[i]`: the index of the attempt that
/// connected, or `None` once the worker gave up.
pub open spec fn connect_run(up: Seq<bool>, a: nat) -> Option<nat>
    decreases CONNECT_ATTEMPTS - a,
{
    if a >= CONNECT_ATTEMPTS || a >= up.len() {
        None
    } else {
        match connect_step(a + 1, up[a as int]) {
            ConnectStep::Connected => Some(a),
            ConnectStep::Retry { .. } => connect_run(up, a + 1),
            ConnectStep::GiveUp => None,
        }
    }
}

/// The decision after attempt number `made`.
pub fn after_connect_attempt(made: u32, connected: bool) -> (r: ConnectStep)
    requires
        1 <= made <= CONNECT_ATTEMPTS,
    ensures
        r == connect_step(made as nat, connected),
{
    if connected {
        ConnectStep::Connected
    } else if made < CONNECT_ATTEMPTS {
        ConnectStep::Retry { wait_ms: BACKOFF_MS }
    } else {
        ConnectStep::GiveUp
    }
}

/// If the coordinator is listening by attempt `a + 1`, within the attempt budget,
/// and keeps listening, the worker connects no later than that attempt. If it
/// never listens, the worker gives up after all its attempts.
pub proof fn lemma_retry_outcome(up: Seq<bool>, a: nat)
    requires
        up.len() >= CONNECT_ATTEMPTS,
    ensures
        a < CONNECT_ATTEMPTS && (forall|i: int| a <= i < up.len() ==> #[trigger] up[i])
            ==> (connect_run(up, 0) matches Some(c) && c <= a),
        (forall|i: int| 0 <= i < CONNECT_ATTEMPTS ==> !#[trigger] up[i]) ==> connect_run(up, 0) is None,
{
    lemma_retry_from(up, 0, a);
}

proof fn lemma_retry_from(up: Seq<bool>, b: nat, a: nat)
    requires
        up.len() >= CONNECT_ATTEMPTS,
        b <= CONNECT_ATTEMPTS,
    ensures
        b <= a < CONNECT_ATTEMPTS && (forall|i: int| a <= i < up.len() ==> #[trigger] up[i])
            ==> (connect_run(up, b) matches Some(c) && b <= c <= a),
        (forall|i: int| b <= i < CONNECT_ATTEMPTS ==> !#[trigger] up[i]) ==> connect_run(up, b) is None,
    decreases CONNECT_ATTEMPTS - b,
{
    if b < CONNECT_ATTEMPTS {
        lemma_retry_from(up, b + 1, a);
        if b <= a < CONNECT_ATTEMPTS && (forall|i: int| a <= i < up.len() ==> #[trigger] up[i]) {
            if b == a {
                assert(up[b as int]);
            }
        }
    }
}

/// Where a worker's session stands.
pub enum WorkerState {
    /// Ready to send a task request.
    Start,
    /// Waiting for the coordinator to answer a request.
    AwaitResponse,
    /// Holding a task whose records are to be sorted and returned.
    Working(String),
    /// Told that no task is left: a graceful end.
    Done,
    /// A read failed or a message broke the protocol: an abrupt end.
    Disconnected,
}

/// What happened in a worker's session.
pub enum WorkerEvent {
    /// The message that the state calls for was sent.
    Sent,
    /// A message arrived.
    Received(Message),
    /// Reading or writing failed, or a frame could not be decoded.
    Failed,
}

/// The state after `e` in state `s`.
pub open spec fn worker_next(s: WorkerState, e: WorkerEvent) -> WorkerState {
    match s {
        WorkerState::Done => WorkerState::Done,
        WorkerState::Disconnected => WorkerState::Disconnected,
        WorkerState::Start => match e {
            WorkerEvent::Sent => WorkerState::AwaitResponse,
            _ => WorkerState::Disconnected,
        },
        WorkerState::AwaitResponse => match e {
            WorkerEvent::Received(Message::AssignTask(t)) => WorkerState::Working(t),
            WorkerEvent::Received(Message::NoMoreTasks) => WorkerState::Done,
            _ => WorkerState::Disconnected,
        },
        WorkerState::Working(_) => match e {
            WorkerEvent::Sent => WorkerState::Start,
            _ => WorkerState::Disconnected,
        },
    }
}

/// One step of a worker's session. After a request, a task moves the worker to
/// work and `NoMoreTasks` ends the session; after a sent result the worker asks
/// again. Any failure, and any message that the state does not expect, ends
/// the session abruptly. The two end states never change.
pub fn worker_step(s: WorkerState, e: WorkerEvent) -> (r: WorkerState)
    ensures
        r == worker_next(s, e),
{
    match s {
        WorkerState::Done => WorkerState::Done,
        WorkerState::Disconnected => WorkerState::Disconnected,
        WorkerState::Start => match e {
            WorkerEvent::Sent => WorkerState::AwaitResponse,
            _ => WorkerState::Disconnected,
        },
        WorkerState::AwaitResponse => match e {
            WorkerEvent::Received(Message::AssignTask(t)) => WorkerState::Working(t),
            WorkerEvent::Received(Message::NoMoreTasks) => WorkerState::Done,
            _ => WorkerState::Disconnected,
        },
        WorkerState::Working(_) => match e {
            WorkerEvent::Sent => WorkerState::Start,
            _ => WorkerState::Disconnected,
        },
    }
}

/// Whether the session has ended, gracefully or not.
pub fn is_finished(s: &WorkerState) -> (r: bool)
    ensures
        r == (*s is Done || *s is Disconnected),
{
    match s {
        WorkerState::Done | WorkerState::Disconnected => true,
        _ => false,
    }
}

/// The result message for a task's records: the records sorted stably in
/// ascending key order.
pub fn task_result(records: Vec<StudentRanking>) -> (m: Message)
    ensures
        m matches Message::TaskResult(v) && sorted(v@) && stable_reorder(v@, records@),
{
    let mut records = records;
    merge_sort(&mut records);
    Message::TaskResult(records)
}

} // verus!
