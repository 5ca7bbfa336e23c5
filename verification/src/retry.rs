//! When a connection is tried again.
use vstd::prelude::*;

verus! {

/// How an I/O operation failed, as far as it matters here.
#[derive(Debug, Clone, Copy, PartialEq, Eq, Structural)]
pub enum IoErrorKind {
    NotFound,
    ConnectionRefused,
    ConnectionReset,
    ConnectionAborted,
    NotConnected,
    BrokenPipe,
    UnexpectedEof,
    Other,
}

/// How the connection to the compositor failed.
#[derive(Debug, Clone, Copy, PartialEq, Eq, Structural)]
pub enum BackendFailure {
    Io { kind: IoErrorKind },
    Protocol,
}

/// One of the causes of an error.
#[derive(Debug, Clone, Copy, PartialEq, Eq, Structural)]
pub enum Cause {
    /// There is no compositor to connect to.
    NoCompositor,
    /// Connecting to the compositor failed for another reason.
    Connect,
    /// The compositor sent a message that could not be read.
    BadMessage,
    /// The connection failed while messages were handled.
    Dispatch { failure: BackendFailure },
    /// The connection failed otherwise.
    Backend { failure: BackendFailure },
    /// Something else.
    Other,
}

/// Whether an I/O failure means that the connection to the compositor was lost.
pub open spec fn is_disconnect(kind: IoErrorKind) -> bool {
    ||| kind == IoErrorKind::BrokenPipe
    ||| kind == IoErrorKind::ConnectionReset
    ||| kind == IoErrorKind::ConnectionAborted
    ||| kind == IoErrorKind::NotConnected
    ||| kind == IoErrorKind::UnexpectedEof
}

/// Whether the connection failed in that it was lost.
pub open spec fn is_lost(failure: BackendFailure) -> bool {
    failure matches BackendFailure::Io { kind } && is_disconnect(kind)
}

/// Whether a cause is a reason to connect again.
pub open spec fn is_retryable(cause: Cause) -> bool {
    match cause {
        Cause::NoCompositor => true,
        Cause::Dispatch { failure } => is_lost(failure),
        Cause::Backend { failure } => is_lost(failure),
        _ => false,
    }
}

/// Tells whether an I/O failure means that the connection to the compositor was lost.
pub fn is_retryable_wayland_io(kind: IoErrorKind) -> (r: bool)
    ensures
        r == is_disconnect(kind),
{
    match kind {
        IoErrorKind::BrokenPipe
        | IoErrorKind::ConnectionReset
        | IoErrorKind::ConnectionAborted
        | IoErrorKind::NotConnected
        | IoErrorKind::UnexpectedEof => true,
        _ => false,
    }
}

/// Tells whether the watcher connects to the compositor again after an error with the given
/// causes.
pub fn should_retry_watcher_error(causes: &[Cause]) -> (r: bool)
    ensures
        r <==> exists|i: int| 0 <= i < causes@.len() && is_retryable(#[trigger] causes@[i]),
{
    let mut i: usize = 0;
    while i < causes.len()
        invariant
            i <= causes@.len(),
            forall|j: int| 0 <= j < i ==> !is_retryable(#[trigger] causes@[j]),
        decreases causes@.len() - i,
    {
        let retryable = match causes[i] {
            Cause::NoCompositor => true,
            Cause::Dispatch { failure: BackendFailure::Io { kind } } => is_retryable_wayland_io(
                kind,
            ),
            Cause::Backend { failure: BackendFailure::Io { kind } } => is_retryable_wayland_io(
                kind,
            ),
            _ => false,
        };
        if retryable {
            assert(is_retryable(causes@[i as int]));
            return true;
        }
        i += 1;
    }
    false
}

/// How long the watcher waits before it connects again, in milliseconds.
pub const WATCHER_DELAY_MS: u64 = 2_000;

/// How often a client tries again to reach the daemon.
pub const CONNECT_RETRIES: u32 = 5;

/// How long a client waits before it tries again, in milliseconds.
pub const CONNECT_DELAY_MS: u64 = 200;

/// What is done after a failed attempt.
#[derive(Debug, Clone, Copy, PartialEq, Eq, Structural)]
pub enum NextStep {
    /// Wait, and try again.
    Wait { millis: u64 },
    /// Give up.
    GiveUp,
}

/// Decides what the watcher does after an error with the given causes.
pub fn after_watcher_error(causes: &[Cause]) -> (r: NextStep)
    ensures
        r == (if exists|i: int| 0 <= i < causes@.len() && is_retryable(#[trigger] causes@[i]) {
            NextStep::Wait { millis: WATCHER_DELAY_MS }
        } else {
            NextStep::GiveUp
        }),
{
    if should_retry_watcher_error(causes) {
        NextStep::Wait { millis: WATCHER_DELAY_MS }
    } else {
        NextStep::GiveUp
    }
}

/// Whether a failure to reach the daemon may mean that it is only starting.
pub open spec fn may_be_starting(kind: IoErrorKind) -> bool {
    kind == IoErrorKind::NotFound || kind == IoErrorKind::ConnectionRefused
}

/// Decides what a client does after it failed to reach the daemon for the `attempt`th time,
/// counted from zero.
pub fn after_connect_failure(attempt: u32, kind: IoErrorKind) -> (r: NextStep)
    ensures
        r == (if attempt < CONNECT_RETRIES && may_be_starting(kind) {
            NextStep::Wait { millis: CONNECT_DELAY_MS }
        } else {
            NextStep::GiveUp
        }),
{
    let starting = match kind {
        IoErrorKind::NotFound | IoErrorKind::ConnectionRefused => true,
        _ => false,
    };
    if attempt < CONNECT_RETRIES && starting {
        NextStep::Wait { millis: CONNECT_DELAY_MS }
    } else {
        NextStep::GiveUp
    }
}

} // verus!
