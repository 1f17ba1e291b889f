use vstd::prelude::*;

verus! {

/// Connection attempts made before a link gives up.
pub const CONNECT_ATTEMPTS: u32 = 20;

/// Timeout of one connection attempt, in milliseconds.
pub const CONNECT_TIMEOUT_MS: u64 = 3000;

/// Write timeout set on a fresh connection, in milliseconds.
pub const WRITE_TIMEOUT_MS: u64 = 100;

/// Frames that the queue in front of a link holds; the oldest is dropped
/// when a new one arrives on a full queue.
pub const QUEUE_CAPACITY: usize = 64;

/// Why a link's worker stopped.
#[derive(Clone, Copy, Debug, PartialEq, Eq, Structural)]
pub enum LinkExit {
    /// The sending side of the queue was dropped.
    Closed,
    /// The owner asked to quit while the worker was connecting.
    EarlyQuit,
    /// Every connection attempt failed; `after_loss` when the link had been
    /// up before.
    Unreachable { after_loss: bool },
    /// A connection was made but its write timeout could not be set.
    ConfigurationFailed { after_loss: bool },
}

/// Where a link's worker stands.
#[derive(Clone, Copy, Debug, PartialEq, Eq, Structural)]
pub enum LinkState {
    /// Trying to connect; `failures` attempts have failed so far.
    Connecting { failures: u32, after_loss: bool },
    /// Connected: frames are taken from the queue and written.
    Sending,
    /// The worker has stopped.
    Done(LinkExit),
}

/// What the worker does next.
#[derive(Clone, Copy, Debug, PartialEq, Eq, Structural)]
pub enum LinkAction {
    /// One connection attempt with a timeout of `CONNECT_TIMEOUT_MS`, then set
    /// a write timeout of `WRITE_TIMEOUT_MS`.
    Connect,
    /// Wait for the next frame and write all of it.
    SendNext,
    /// Stop the worker.
    Exit(LinkExit),
}

/// What the worker's outside work came back with.
#[derive(Clone, Copy, Debug, PartialEq, Eq, Structural)]
pub enum LinkEvent {
    Connected,
    ConnectFailed,
    ConfigureFailed,
    Sent,
    WriteFailed,
    QueueClosed,
}

/// The action due in `s`; `quit` says whether the owner asked to stop.
pub open spec fn action_of(s: LinkState, quit: bool) -> LinkAction {
    match s {
        LinkState::Connecting { failures, after_loss } => if quit {
            LinkAction::Exit(LinkExit::EarlyQuit)
        } else if failures >= CONNECT_ATTEMPTS {
            LinkAction::Exit(LinkExit::Unreachable { after_loss })
        } else {
            LinkAction::Connect
        },
        LinkState::Sending => LinkAction::SendNext,
        LinkState::Done(e) => LinkAction::Exit(e),
    }
}

/// The state after event `e` in state `s`.
pub open spec fn state_after(s: LinkState, e: LinkEvent) -> LinkState {
    match (s, e) {
        (LinkState::Connecting { failures, after_loss }, LinkEvent::Connected) => LinkState::Sending,
        (LinkState::Connecting { failures, after_loss }, LinkEvent::ConnectFailed) => if failures
            < CONNECT_ATTEMPTS {
            LinkState::Connecting { failures: (failures + 1) as u32, after_loss }
        } else {
            LinkState::Done(LinkExit::Unreachable { after_loss })
        },
        (LinkState::Connecting { failures, after_loss }, LinkEvent::ConfigureFailed) => LinkState::Done(
            LinkExit::ConfigurationFailed { after_loss },
        ),
        (LinkState::Sending, LinkEvent::WriteFailed) => LinkState::Connecting {
            failures: 0,
            after_loss: true,
        },
        (LinkState::Sending, LinkEvent::QueueClosed) => LinkState::Done(LinkExit::Closed),
        _ => s,
    }
}

/// The state after `n` failed attempts in a row.
pub open spec fn after_failures(s: LinkState, n: nat) -> LinkState
    decreases n,
{
    if n == 0 {
        s
    } else {
        state_after(after_failures(s, (n - 1) as nat), LinkEvent::ConnectFailed)
    }
}

/// The state in which a fresh link starts.
pub fn start() -> (s: LinkState)
    ensures
        s == (LinkState::Connecting { failures: 0, after_loss: false }),
{
    LinkState::Connecting { failures: 0, after_loss: false }
}

/// The action due in state `s`; `quit` says whether the owner asked to stop.
pub fn next_action(s: LinkState, quit: bool) -> (a: LinkAction)
    ensures
        a == action_of(s, quit),
{
    match s {
        LinkState::Connecting { failures, after_loss } => {
            if quit {
                LinkAction::Exit(LinkExit::EarlyQuit)
            } else if failures >= CONNECT_ATTEMPTS {
                LinkAction::Exit(LinkExit::Unreachable { after_loss })
            } else {
                LinkAction::Connect
            }
        },
        LinkState::Sending => LinkAction::SendNext,
        LinkState::Done(e) => LinkAction::Exit(e),
    }
}

/// The state after event `e` in state `s`. A lost connection starts a new
/// round of attempts; events that do not fit the state change nothing.
pub fn advance(s: LinkState, e: LinkEvent) -> (t: LinkState)
    ensures
        t == state_after(s, e),
{
    match (s, e) {
        (LinkState::Connecting { failures, after_loss }, LinkEvent::Connected) => LinkState::Sending,
        (LinkState::Connecting { failures, after_loss }, LinkEvent::ConnectFailed) => {
            if failures < CONNECT_ATTEMPTS {
                LinkState::Connecting { failures: failures + 1, after_loss }
            } else {
                LinkState::Done(LinkExit::Unreachable { after_loss })
            }
        },
        (LinkState::Connecting { failures, after_loss }, LinkEvent::ConfigureFailed) => LinkState::Done(
            LinkExit::ConfigurationFailed { after_loss },
        ),
        (LinkState::Sending, LinkEvent::WriteFailed) => LinkState::Connecting {
            failures: 0,
            after_loss: true,
        },
        (LinkState::Sending, LinkEvent::QueueClosed) => LinkState::Done(LinkExit::Closed),
        _ => s,
    }
}

proof fn lemma_after_failures(after_loss: bool, n: nat)
    requires
        n <= CONNECT_ATTEMPTS,
    ensures
        after_failures(LinkState::Connecting { failures: 0, after_loss }, n) == (LinkState::Connecting {
            failures: n as u32,
            after_loss,
        }),
    decreases n,
{
    if n > 0 {
        lemma_after_failures(after_loss, (n - 1) as nat);
    }
}

/// A round of connection attempts makes exactly `CONNECT_ATTEMPTS` attempts:
/// after fewer failures another attempt is due, after that many the link
/// gives up as unreachable.
pub proof fn lemma_gives_up_after_all_attempts(after_loss: bool, n: nat)
    requires
        n <= CONNECT_ATTEMPTS,
    ensures
        n < CONNECT_ATTEMPTS ==> action_of(
            after_failures(LinkState::Connecting { failures: 0, after_loss }, n),
            false,
        ) == LinkAction::Connect,
        n == CONNECT_ATTEMPTS ==> action_of(
            after_failures(LinkState::Connecting { failures: 0, after_loss }, n),
            false,
        ) == LinkAction::Exit(LinkExit::Unreachable { after_loss }),
{
    lemma_after_failures(after_loss, n);
}

} // verus!
