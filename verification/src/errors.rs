use vstd::prelude::*;

verus! {

/// The fail-fast error kinds of the core.
///
/// The deployment is a closed, single-purpose control system: silent data
/// corruption is worse than a hard stop, so a protocol violation or a
/// malformed input is surfaced as a named error kind and the caller
/// terminates the process. Per-connection transport failures are the one
/// recoverable family and are handled inside the broker by pruning; they
/// never appear here.
#[derive(Clone, Copy, Debug, PartialEq, Eq, Structural)]
pub enum ProtocolError {
    /// A subscriber sent application data where only a close indication or
    /// "no data ready" is expected.
    UnexpectedData,
    /// A read from a subscriber failed with an error other than "would
    /// block".
    ReadFailed,
    /// A write to a subscriber failed with an error other than "connection
    /// aborted".
    WriteFailed,
    /// A module line is not exactly 36 comma-separated integers in range.
    MalformedCells,
    /// A replay record does not begin with a decimal epoch-millisecond
    /// timestamp before the first colon.
    MalformedRecord,
}

} // verus!
