use vstd::prelude::*;
use crate::ticket::copy_bytes;

verus! {

/// The two notification streams the platform emits.
#[derive(Debug, PartialEq, Eq, Structural, Clone, Copy)]
pub enum EventKind {
    /// A session ticket was validated (or rejected) by the platform.
    SessionValidated,
    /// A web-API ticket is ready (or was rejected); carries the payload.
    WebApiReady,
}

/// One platform-emitted notification: the stream it belongs to, the handle
/// it concerns, the platform's verdict (`Err` carries the platform's message
/// verbatim), the authoritative payload (meaningful for web-API
/// confirmations), and its arrival instant in time units measured from the
/// start of the request it reaches.
#[derive(Debug)]
pub struct PlatformEvent {
    pub kind: EventKind,
    pub handle: u32,
    pub result: Result<(), String>,
    pub bytes: Vec<u8>,
    pub at: u64,
}

/// Explicit state of the external identity platform, as one request sees it:
/// which handle the next mint call will assign, the provisional payload it
/// issues with session mints, the events it will emit during the request in
/// arrival order, and a record of every mint and cancel call it has received.
///
/// The engine is verified against this model for every script; tests
/// configure it to simulate any platform behaviour.
#[derive(Debug)]
pub struct Platform {
    /// Handle the next mint call will assign.
    pub next_handle: u32,
    /// Provisional payload issued with every session-ticket mint.
    pub session_bytes: Vec<u8>,
    /// Events this platform will emit during the request, in arrival order.
    pub script: Vec<PlatformEvent>,
    /// Handles handed out by mint calls, oldest first.
    pub minted: Vec<u32>,
    /// Handles received by cancel calls, oldest first.
    pub cancelled: Vec<u32>,
}

impl Platform {
    /// Arrival instants never decrease along the script: time moves forward.
    pub open spec fn wf(self) -> bool {
        forall|i: int, j: int|
            0 <= i < j < self.script@.len() ==> self.script@[i].at <= self.script@[j].at
    }

    /// A platform that has received no calls yet and will emit `script`.
    pub fn new(session_bytes: Vec<u8>, script: Vec<PlatformEvent>) -> (r: Platform)
        ensures
            r.next_handle == 1,
            r.session_bytes == session_bytes,
            r.script == script,
            r.minted@.len() == 0,
            r.cancelled@.len() == 0,
    {
        Platform {
            next_handle: 1,
            session_bytes,
            script,
            minted: Vec::new(),
            cancelled: Vec::new(),
        }
    }

    /// Synchronous session-ticket mint: assigns a fresh handle and returns it
    /// with the provisional payload. The identity is opaque to the platform
    /// model. Records the mint.
    pub fn mint_session(&mut self, identity: &crate::addr::NetIdentity) -> (r: (u32, Vec<u8>))
        requires
            old(self).next_handle < u32::MAX,
        ensures
            r.0 == old(self).next_handle,
            r.1@ == old(self).session_bytes@,
            final(self).next_handle == old(self).next_handle + 1,
            final(self).minted@ == old(self).minted@.push(r.0),
            final(self).cancelled == old(self).cancelled,
            final(self).script == old(self).script,
            final(self).session_bytes == old(self).session_bytes,
    {
        let h = self.next_handle;
        self.next_handle = self.next_handle + 1;
        self.minted.push(h);
        let bytes = copy_bytes(&self.session_bytes);
        (h, bytes)
    }

    /// Synchronous web-API ticket mint: assigns a fresh handle; no usable
    /// payload exists until the platform confirms. The target-service
    /// identity is opaque to the platform model. Records the mint.
    pub fn mint_webapi(&mut self, identity: &str) -> (r: u32)
        requires
            old(self).next_handle < u32::MAX,
        ensures
            r == old(self).next_handle,
            final(self).next_handle == old(self).next_handle + 1,
            final(self).minted@ == old(self).minted@.push(r),
            final(self).cancelled == old(self).cancelled,
            final(self).script == old(self).script,
            final(self).session_bytes == old(self).session_bytes,
    {
        let h = self.next_handle;
        self.next_handle = self.next_handle + 1;
        self.minted.push(h);
        h
    }

    /// Fire-and-forget cancel of the ticket behind `handle`. Records the call.
    pub fn cancel_ticket(&mut self, handle: u32)
        ensures
            final(self).cancelled@ == old(self).cancelled@.push(handle),
            final(self).next_handle == old(self).next_handle,
            final(self).minted == old(self).minted,
            final(self).script == old(self).script,
            final(self).session_bytes == old(self).session_bytes,
    {
        self.cancelled.push(handle);
    }
}

} // verus!
