use vstd::prelude::*;

verus! {

/// Errors raised by the codec when bytes or values cannot be handled.
///
/// `Protocol` failures are caused by malformed input (bad framing, an
/// unknown registry, an out-of-range state); they carry the offending
/// detail so a caller can report it.
#[derive(Debug, Clone, PartialEq, Eq)]
pub enum ProtocolError {
    /// A variable-length integer carried a continuation flag on its
    /// fifth byte.
    VarIntTooLong,
    /// The byte source ended before the value being read was complete.
    UnexpectedEnd,
    /// A length-prefixed string declared a negative byte length.
    NegativeLength,
    /// The bytes of a length-prefixed string were not valid UTF-8.
    InvalidUtf8,
    /// The backing registry document is not a JSON object.
    DocumentNotObject,
    /// The named registry is absent from the backing data; carries the
    /// name exactly as the caller supplied it.
    RegistryNotFound(String),
    /// The named registry is present but its value is not a JSON object.
    RegistryNotObject(String),
    /// A JSON number is representable neither as an integer nor as a
    /// finite float.
    InvalidNumber,
    /// An encoded buffer did not start with a compound tag of at least
    /// three bytes, so the network-form transform cannot apply.
    InvalidRootTag,
    /// A value is too large for its binary form (a string longer than
    /// 65535 bytes, an array of more than 2147483647 elements).
    ValueTooLarge,
    /// A list mixes element kinds and therefore has no binary form.
    MixedList,
    /// The raw next-state integer of a handshake matches no known state;
    /// carries the raw value.
    InvalidNextState(i32),
}

} // verus!
