use vstd::prelude::*;

verus! {

/// The opaque token callers hold for a connection.
pub type Handle = u64;

/// Hands out fresh, strictly increasing handles.
#[derive(Debug, PartialEq, Eq, Structural)]
pub struct HandleGenerator {
    pub last_handle: Handle,
}

impl HandleGenerator {
    pub fn new() -> (r: HandleGenerator)
        ensures
            r.last_handle == 0,
    {
        HandleGenerator { last_handle: 0 }
    }

    /// The next unused handle; every value returned is distinct.
    pub fn generate(&mut self) -> (r: Handle)
        requires
            old(self).last_handle < u64::MAX,
        ensures
            final(self).last_handle == old(self).last_handle + 1,
            r == final(self).last_handle,
    {
        self.last_handle = self.last_handle + 1;
        self.last_handle
    }
}

} // verus!
