use crate::CoreError;
use vstd::prelude::*;

verus! {

/// An exclusive-claim flag: at most one live claim handle exists at a time.
/// Claiming is explicit through `try_lock`; releasing is explicit through
/// `release`, which consumes the handle that `try_lock` produced.
#[derive(Debug)]
pub struct Resource {
    taken: bool,
}

/// Witness that a `Resource` was claimed.  Handing it back to `release`
/// clears the flag; discarding it instead leaves the claim held forever.
#[derive(Debug)]
pub struct ResourceHandle {
    _priv: (),
}

impl Resource {
    /// Whether the resource is currently claimed.
    pub closed spec fn spec_taken(&self) -> bool {
        self.taken
    }

    pub fn new() -> (r: Resource)
        ensures
            !r.spec_taken(),
    {
        Resource { taken: false }
    }

    pub fn is_taken(&self) -> (r: bool)
        ensures
            r == self.spec_taken(),
    {
        self.taken
    }

    /// Claim the resource: succeeds exactly when it is currently free,
    /// and fails with `WouldBlock` when it is already claimed.
    pub fn try_lock(&mut self) -> (r: Result<ResourceHandle, CoreError>)
        ensures
            old(self).spec_taken() ==> r == Err::<ResourceHandle, CoreError>(
                CoreError::WouldBlock,
            ) && *final(self) == *old(self),
            !old(self).spec_taken() ==> r is Ok && final(self).spec_taken(),
    {
        if self.taken {
            Err(CoreError::WouldBlock)
        } else {
            self.taken = true;
            Ok(ResourceHandle { _priv: () })
        }
    }

    /// Release a claim: the flag is cleared unconditionally, and the handle
    /// that witnessed the claim is consumed.
    pub fn release(&mut self, handle: ResourceHandle) -> (r: ())
        ensures
            !final(self).spec_taken(),
    {
        let _ = handle;
        self.taken = false;
    }
}

/// A resource's observable state is exactly its claimed-flag.
pub proof fn lemma_resource_eq(a: Resource, b: Resource)
    requires
        a.spec_taken() == b.spec_taken(),
    ensures
        a == b,
{
    assert(a.taken == b.taken);
}

} // verus!
