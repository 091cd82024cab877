//! The error kinds a codec operation can report.

use vstd::prelude::*;

verus! {

/// Why a decode (or a transport-backed encode) failed.
///
/// Every operation returns either a success value or exactly one of these
/// kinds; there is no partial-success state.
#[derive(Clone, Copy, Debug, PartialEq, Eq, Structural)]
pub enum DecodeError {
    /// Fewer bytes remain than the construct requires.
    Truncated,
    /// A value fails its domain validation, or a TLV record's declared
    /// length does not match what the field codec consumes.
    Malformed,
    /// The extension types of a message's TLV records are not strictly
    /// increasing.
    OutOfOrder,
    /// The leading type tag matches no declared message kind, or differs
    /// from the kind a direct decode expected.
    InvalidData,
    /// An underlying transport failed.  The codec itself never produces
    /// this kind, since it works on in-memory buffers; a caller that reads
    /// from or writes to a stream maps transport errors here unchanged.
    IoFailure,
}

} // verus!
