use vstd::prelude::*;

verus! {

/// A minted credential: the opaque payload bytes together with the
/// platform-issued handle. The handle is the correlation key for matching
/// asynchronous confirmation events to this ticket's request, and the
/// argument to the platform's cancel operation. It is immutable once issued
/// and compared only by exact equality.
#[derive(Debug)]
pub struct Ticket {
    pub data: Vec<u8>,
    pub handle: u32,
}

/// Copies a byte payload into a freshly owned vector.
pub(crate) fn copy_bytes(v: &Vec<u8>) -> (r: Vec<u8>)
    ensures
        r@ == v@,
{
    let mut r: Vec<u8> = Vec::new();
    let mut i: usize = 0;
    while i < v.len()
        invariant
            i <= v.len(),
            r@ =~= v@.subrange(0, i as int),
        decreases v.len() - i,
    {
        r.push(v[i]);
        i += 1;
    }
    proof {
        assert(r@ =~= v@);
    }
    r
}

impl Ticket {
    /// Returns an independently owned copy of the credential payload.
    /// The ticket itself is never mutated by this call.
    pub fn get_bytes(&self) -> (r: Vec<u8>)
        ensures
            r@ == self.data@,
    {
        copy_bytes(&self.data)
    }

    /// Issues the platform's cancel call for this ticket's handle — exactly
    /// one call, recorded against the platform. Cancelling is always safe
    /// after resolution; there is deliberately no internal guard against
    /// cancelling a ticket that already completed successfully, so avoiding
    /// that is the caller's responsibility.
    pub fn cancel(&self, platform: &mut crate::platform::Platform)
        ensures
            final(platform).cancelled@ == old(platform).cancelled@.push(self.handle),
            final(platform).next_handle == old(platform).next_handle,
            final(platform).minted == old(platform).minted,
            final(platform).script == old(platform).script,
            final(platform).session_bytes == old(platform).session_bytes,
    {
        platform.cancel_ticket(self.handle);
    }
}

} // verus!
