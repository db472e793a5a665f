use vstd::prelude::*;

verus! {

/// Errors reported by the transport core.
///
/// `Decoding` covers malformed wire bytes (truncated input, an invalid
/// frame-type byte, an empty frame list); `UnexpectedEof` marks the one
/// benign end-of-input condition: running out of bytes exactly at a
/// frame-type boundary, which a payload decoder treats as "no more frames".
/// `InvalidData` is a reassembly conflict (same offset, different byte),
/// `BufferOverflow` a write beyond the flow-control window,
/// `UnsupportedVersion` a version mismatch on a regular packet, and
/// `InvalidHandle` an unknown connection handle presented by a caller.
#[derive(Clone, Copy, Debug, PartialEq, Eq, Structural)]
pub enum Error {
    BufferOverflow,
    Decoding,
    InvalidData,
    InvalidHandle,
    UnexpectedEof,
    UnsupportedVersion(u32),
}

} // verus!
