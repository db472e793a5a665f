use vstd::prelude::*;

pub mod endpoint_role;
pub mod engine;
pub mod errors;
pub mod frames;
pub mod packets;
pub mod threaded;
pub mod wire;

verus! {

/// Protocol version carried on the first packet of a connection
/// (implementation-specific placeholder value).
pub const QUIC_VERSION: u32 = 0xFAB00001;

} // verus!
