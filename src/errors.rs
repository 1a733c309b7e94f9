use vstd::prelude::*;

verus! {

/// The failures that the server can run into.
#[derive(Debug, Clone, Copy, PartialEq, Eq)]
pub enum TwinkleError {
    /// A datagram that breaks the framing rules of the wire protocol.
    ParseError,
    /// A store that cannot be written in the snapshot format.
    FailedSerialization,
    /// A snapshot stream that is cut short or otherwise malformed.
    FailedDeserialization,
    /// A state that only a defect in the server can reach.
    SomethingWrong,
}

} // verus!
