use vstd::prelude::*;

verus! {

/// Which side of a connection this endpoint plays; packet decoding uses
/// it to tell a regular packet from a version negotiation.
#[derive(Clone, Copy, Debug, PartialEq, Eq, Structural)]
pub enum EndpointRole {
    Client,
    Server,
}

} // verus!
