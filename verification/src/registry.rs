use vstd::prelude::*;
use crate::platform::{EventKind, PlatformEvent};
use crate::ticket::copy_bytes;

verus! {

/// What one delivery carries into a pending request's slot: the arrival
/// instant and the platform's verdict — `Ok` with the authoritative payload,
/// or `Err` with the platform's message passed through verbatim.
#[derive(Debug)]
pub struct Delivery {
    pub at: u64,
    pub result: Result<Vec<u8>, String>,
}

/// The per-request pending state: the correlation handle, the notification
/// stream it listens on, and the deliver-once result slot. The slot is the
/// single-use result channel: it is written at most once, by construction,
/// because delivery refuses an already-filled slot.
#[derive(Debug)]
pub struct PendingRequest {
    pub handle: u32,
    pub kind: EventKind,
    pub slot: Option<Delivery>,
}

/// An event reaches a pending request only when both the stream and the
/// correlation handle match exactly.
pub open spec fn event_matches(req: PendingRequest, e: PlatformEvent) -> bool {
    e.kind == req.kind && e.handle == req.handle
}

/// The delivery `d` is what the event `e` puts into a slot: same instant,
/// same verdict, an owned copy of the payload.
pub open spec fn delivery_matches_event(d: Delivery, e: PlatformEvent) -> bool {
    &&& d.at == e.at
    &&& match (d.result, e.result) {
        (Ok(b), Ok(u)) => b@ == e.bytes@,
        (Err(m), Err(me)) => m == me,
        _ => false,
    }
}

/// How one dispatched event changes one pending request's slot: an empty
/// slot of a matching request is filled from the event; every other slot is
/// left exactly as it was.
pub open spec fn delivered_slot(req: PendingRequest, e: PlatformEvent, new_slot: Option<Delivery>) -> bool {
    if req.slot is None && event_matches(req, e) {
        new_slot matches Some(d) && delivery_matches_event(d, e)
    } else {
        new_slot == req.slot
    }
}

/// A live registration: the subscription identifier handed back by
/// `register`, and the pending request the listener serves.
#[derive(Debug)]
pub struct Listener {
    pub id: u64,
    pub request: PendingRequest,
}

/// The process-wide subscription table: every concurrent request registers
/// a listener here, and every platform event is offered to every listener,
/// in registration order. The registry holds no domain knowledge beyond the
/// per-listener delivery rule.
#[derive(Debug)]
pub struct Registry {
    /// The subscription identifier the next registration will receive.
    pub next_id: u64,
    /// All live listeners, oldest registration first.
    pub listeners: Vec<Listener>,
}

impl Registry {
    /// Subscription identifiers are pairwise distinct and below `next_id`.
    pub open spec fn wf(self) -> bool {
        &&& forall|i: int|
            0 <= i < self.listeners@.len() ==> (#[trigger] self.listeners@[i]).id < self.next_id
        &&& forall|i: int, j: int|
            0 <= i < j < self.listeners@.len()
                ==> (#[trigger] self.listeners@[i]).id != (#[trigger] self.listeners@[j]).id
    }

    /// An empty registry.
    pub fn new() -> (r: Registry)
        ensures
            r.wf(),
            r.next_id == 0,
            r.listeners@.len() == 0,
    {
        Registry { next_id: 0, listeners: Vec::new() }
    }

    /// Adds a listener for `request`; never fails. The returned subscription
    /// identifier is fresh, and releasing it later removes exactly this
    /// listener.
    pub fn register(&mut self, request: PendingRequest) -> (id: u64)
        requires
            old(self).wf(),
            old(self).next_id < u64::MAX,
        ensures
            final(self).wf(),
            id == old(self).next_id,
            final(self).next_id == old(self).next_id + 1,
            final(self).listeners@ == old(self).listeners@.push(Listener { id, request }),
    {
        let id = self.next_id;
        self.next_id = self.next_id + 1;
        self.listeners.push(Listener { id, request });
        proof {
            assert forall|i: int, j: int|
                0 <= i < j < self.listeners@.len() implies (#[trigger] self.listeners@[i]).id
                != (#[trigger] self.listeners@[j]).id by {
                assert(self.listeners@[i] == old(self).listeners@.push(
                    Listener { id, request },
                )[i]);
            }
        }
        id
    }

    /// Idempotent removal of the listener registered under `id`: removing an
    /// absent identifier is a no-op, not an error. Returns the removed
    /// listener's pending request, if one was present.
    pub fn release(&mut self, id: u64) -> (r: Option<PendingRequest>)
        requires
            old(self).wf(),
        ensures
            final(self).wf(),
            final(self).next_id == old(self).next_id,
            forall|i: int|
                0 <= i < final(self).listeners@.len()
                    ==> (#[trigger] final(self).listeners@[i]).id != id,
            match r {
                Some(req) => exists|j: int|
                    {
                        &&& 0 <= j < old(self).listeners@.len()
                        &&& (#[trigger] old(self).listeners@[j]).id == id
                        &&& old(self).listeners@[j].request == req
                        &&& final(self).listeners@ == old(self).listeners@.remove(j)
                    },
                None => {
                    &&& final(self).listeners@ == old(self).listeners@
                    &&& forall|j: int|
                        0 <= j < old(self).listeners@.len()
                            ==> (#[trigger] old(self).listeners@[j]).id != id
                },
            },
    {
        let mut i: usize = 0;
        while i < self.listeners.len()
            invariant
                self == old(self),
                old(self).wf(),
                i <= self.listeners@.len(),
                forall|j: int| 0 <= j < i ==> (#[trigger] self.listeners@[j]).id != id,
            decreases self.listeners@.len() - i,
        {
            if self.listeners[i].id == id {
                let removed = self.listeners.remove(i);
                proof {
                    let ghost j = i as int;
                    assert(old(self).listeners@[j].id == id);
                    assert forall|k: int|
                        0 <= k < self.listeners@.len() implies (#[trigger] self.listeners@[k]).id
                        != id by {
                        if k < j {
                            assert(self.listeners@[k] == old(self).listeners@[k]);
                            assert(old(self).listeners@[k].id != old(self).listeners@[j].id);
                        } else {
                            assert(self.listeners@[k] == old(self).listeners@[k + 1]);
                            assert(old(self).listeners@[j].id != old(self).listeners@[k + 1].id);
                        }
                    }
                    assert forall|k1: int, k2: int|
                        0 <= k1 < k2 < self.listeners@.len() implies (#[trigger] self.listeners@[k1]).id
                        != (#[trigger] self.listeners@[k2]).id by {
                        let o1: int = if k1 < j { k1 } else { k1 + 1 };
                        let o2: int = if k2 < j { k2 } else { k2 + 1 };
                        assert(self.listeners@[k1] == old(self).listeners@[o1]);
                        assert(self.listeners@[k2] == old(self).listeners@[o2]);
                        assert(old(self).listeners@[o1].id != old(self).listeners@[o2].id);
                    }
                    assert forall|k: int|
                        0 <= k < self.listeners@.len() implies (#[trigger] self.listeners@[k]).id
                        < self.next_id by {
                        let o: int = if k < j { k } else { k + 1 };
                        assert(self.listeners@[k] == old(self).listeners@[o]);
                        assert(old(self).listeners@[o].id < old(self).next_id);
                    }
                }
                return Some(removed.request);
            }
            i = i + 1;
        }
        None
    }

    /// Offers `event` to every live listener, in registration order: each
    /// matching listener with an empty slot takes the delivery; every other
    /// listener is untouched. The set of registrations itself never changes.
    pub fn dispatch(&mut self, event: &PlatformEvent)
        ensures
            final(self).next_id == old(self).next_id,
            final(self).listeners@.len() == old(self).listeners@.len(),
            forall|i: int|
                0 <= i < old(self).listeners@.len() ==> {
                    &&& (#[trigger] final(self).listeners@[i]).id == old(self).listeners@[i].id
                    &&& final(self).listeners@[i].request.handle == old(
                        self,
                    ).listeners@[i].request.handle
                    &&& final(self).listeners@[i].request.kind == old(
                        self,
                    ).listeners@[i].request.kind
                    &&& delivered_slot(
                        old(self).listeners@[i].request,
                        *event,
                        final(self).listeners@[i].request.slot,
                    )
                },
            old(self).wf() ==> final(self).wf(),
    {
        let n = self.listeners.len();
        let mut i: usize = 0;
        while i < n
            invariant
                n == self.listeners@.len(),
                self.listeners@.len() == old(self).listeners@.len(),
                self.next_id == old(self).next_id,
                i <= n,
                forall|j: int|
                    i <= j < n ==> (#[trigger] self.listeners@[j]) == old(self).listeners@[j],
                forall|j: int|
                    0 <= j < i ==> {
                        &&& (#[trigger] self.listeners@[j]).id == old(self).listeners@[j].id
                        &&& self.listeners@[j].request.handle == old(
                            self,
                        ).listeners@[j].request.handle
                        &&& self.listeners@[j].request.kind == old(self).listeners@[j].request.kind
                        &&& delivered_slot(
                            old(self).listeners@[j].request,
                            *event,
                            self.listeners@[j].request.slot,
                        )
                    },
            decreases n - i,
        {
            let matches_kind = self.listeners[i].request.kind == event.kind;
            let matches_handle = self.listeners[i].request.handle == event.handle;
            let empty = self.listeners[i].request.slot.is_none();
            if matches_kind && matches_handle && empty {
                let d = Delivery {
                    at: event.at,
                    result: match &event.result {
                        Ok(_) => Ok(copy_bytes(&event.bytes)),
                        Err(m) => Err(m.clone()),
                    },
                };
                self.listeners[i].request.slot = Some(d);
            }
            i = i + 1;
        }
    }
}

/// An event carrying one request's handle never resolves a different
/// request's pending result: a delivery leaves every slot whose request is
/// correlated with another handle exactly as it was.
pub proof fn lemma_foreign_event_ignored(
    req: PendingRequest,
    e: PlatformEvent,
    new_slot: Option<Delivery>,
)
    requires
        delivered_slot(req, e, new_slot),
        e.handle != req.handle,
    ensures
        new_slot == req.slot,
{
}

} // verus!
