use vstd::prelude::*;
use crate::addr::NetIdentity;
use crate::errors::AuthError;
use crate::platform::{EventKind, Platform, PlatformEvent};
use crate::registry::{
    delivered_slot, delivery_matches_event, Delivery, PendingRequest, Registry,
};
use crate::ticket::Ticket;

verus! {

/// The deadline used when the caller leaves the timeout unspecified,
/// in time units.
pub const DEFAULT_TIMEOUT_UNITS: u64 = 10;

/// The deadline of a request: the caller's timeout, or the default.
pub open spec fn spec_deadline(timeout_seconds: Option<u32>) -> u64 {
    match timeout_seconds {
        Some(s) => s as u64,
        None => DEFAULT_TIMEOUT_UNITS,
    }
}

/// An event wins the race of the request listening on `kind`/`handle` with
/// deadline `deadline` when it belongs to that stream, carries that exact
/// handle, and arrives strictly before the timer fires.
pub open spec fn wins(e: PlatformEvent, kind: EventKind, handle: u32, deadline: u64) -> bool {
    e.kind == kind && e.handle == handle && e.at < deadline
}

/// The first winning event among the first `n` events of the script, if any:
/// the deliver-once slot keeps the earliest matching delivery and ignores
/// everything after it.
pub open spec fn first_match_upto(
    script: Seq<PlatformEvent>,
    kind: EventKind,
    handle: u32,
    deadline: u64,
    n: int,
) -> Option<PlatformEvent>
    decreases n,
{
    if n <= 0 || n > script.len() {
        None
    } else {
        match first_match_upto(script, kind, handle, deadline, n - 1) {
            Some(e) => Some(e),
            None => {
                if wins(script[n - 1], kind, handle, deadline) {
                    Some(script[n - 1])
                } else {
                    None
                }
            },
        }
    }
}

/// The event that resolves the race, if any: the first event of the script
/// that matches the request and arrives before the deadline.
pub open spec fn race_winner(
    script: Seq<PlatformEvent>,
    kind: EventKind,
    handle: u32,
    deadline: u64,
) -> Option<PlatformEvent> {
    first_match_upto(script, kind, handle, deadline, script.len() as int)
}

/// A slot holds exactly what the winning event delivered — or nothing, when
/// no event won.
pub open spec fn slot_matches(slot: Option<Delivery>, winner: Option<PlatformEvent>) -> bool {
    match (slot, winner) {
        (None, None) => true,
        (Some(d), Some(e)) => delivery_matches_event(d, e),
        _ => false,
    }
}

/// How a listener's slot looks after the first `n` events of the script were
/// offered to it: a slot that was already filled is untouched; an empty slot
/// holds the delivery of the first winning event among those `n`, if one won.
pub open spec fn evolved(
    kind: EventKind,
    handle: u32,
    orig_slot: Option<Delivery>,
    slot: Option<Delivery>,
    script: Seq<PlatformEvent>,
    deadline: u64,
    n: int,
) -> bool {
    match orig_slot {
        Some(_) => slot == orig_slot,
        None => slot_matches(slot, first_match_upto(script, kind, handle, deadline, n)),
    }
}

/// One dispatch step keeps a listener's slot in step with the race: offering
/// event `i` to a slot that tracked the first `i` events leaves it tracking
/// the first `i + 1`.
proof fn lemma_dispatch_step(
    kind: EventKind,
    handle: u32,
    orig_slot: Option<Delivery>,
    cur: PendingRequest,
    new_slot: Option<Delivery>,
    script: Seq<PlatformEvent>,
    deadline: u64,
    i: int,
)
    requires
        cur.kind == kind,
        cur.handle == handle,
        0 <= i < script.len(),
        if script[i].at < deadline {
            delivered_slot(cur, script[i], new_slot)
        } else {
            new_slot == cur.slot
        },
        evolved(kind, handle, orig_slot, cur.slot, script, deadline, i),
    ensures
        evolved(kind, handle, orig_slot, new_slot, script, deadline, i + 1),
{
}

/// How the registry as a whole looks after one request ran to resolution
/// against `script`: every listener that was registered before is still
/// registered, under the same identifier, handle and stream, and its slot
/// evolved by exactly the script's deliveries.
pub open spec fn registry_evolved(
    before: Registry,
    after: Registry,
    script: Seq<PlatformEvent>,
    deadline: u64,
) -> bool {
    &&& after.listeners@.len() == before.listeners@.len()
    &&& forall|j: int|
        0 <= j < before.listeners@.len() ==> {
            &&& (#[trigger] after.listeners@[j]).id == before.listeners@[j].id
            &&& after.listeners@[j].request.handle == before.listeners@[j].request.handle
            &&& after.listeners@[j].request.kind == before.listeners@[j].request.kind
            &&& evolved(
                before.listeners@[j].request.kind,
                before.listeners@[j].request.handle,
                before.listeners@[j].request.slot,
                after.listeners@[j].request.slot,
                script,
                deadline,
                script.len() as int,
            )
        }
}

/// Subscribes a listener for `kind`/`handle`, offers every scripted event
/// that arrives before the deadline to the whole registry, then releases the
/// subscription — exactly once, whatever won the race. Returns the slot: the
/// first matching delivery, or nothing when the timer fired first.
fn await_confirmation(
    script: &Vec<PlatformEvent>,
    registry: &mut Registry,
    kind: EventKind,
    handle: u32,
    deadline: u64,
) -> (slot: Option<Delivery>)
    requires
        old(registry).wf(),
        old(registry).next_id < u64::MAX,
    ensures
        final(registry).wf(),
        final(registry).next_id == old(registry).next_id + 1,
        registry_evolved(*old(registry), *final(registry), script@, deadline),
        slot_matches(slot, race_winner(script@, kind, handle, deadline)),
{
    let ghost base = old(registry).listeners@;
    let ghost l = base.len() as int;
    let id = registry.register(PendingRequest { handle, kind, slot: None });
    let ghost pushed = base.push(
        (crate::registry::Listener { id, request: PendingRequest { handle, kind, slot: None } }),
    );
    let n = script.len();
    let mut i: usize = 0;
    while i < n
        invariant
            n == script@.len(),
            i <= n,
            registry.wf(),
            registry.next_id == old(registry).next_id + 1,
            registry.listeners@.len() == l + 1,
            pushed.len() == l + 1,
            pushed == base.push(
                (crate::registry::Listener {
                    id,
                    request: PendingRequest { handle, kind, slot: None },
                }),
            ),
            forall|j: int|
                0 <= j <= l ==> {
                    &&& (#[trigger] registry.listeners@[j]).id == pushed[j].id
                    &&& registry.listeners@[j].request.handle == pushed[j].request.handle
                    &&& registry.listeners@[j].request.kind == pushed[j].request.kind
                    &&& evolved(
                        pushed[j].request.kind,
                        pushed[j].request.handle,
                        pushed[j].request.slot,
                        registry.listeners@[j].request.slot,
                        script@,
                        deadline,
                        i as int,
                    )
                },
        decreases n - i,
    {
        let ghost prev = registry.listeners@;
        let arrives_in_time = script[i].at < deadline;
        if arrives_in_time {
            registry.dispatch(&script[i]);
        }
        proof {
            assert forall|j: int| 0 <= j <= l implies {
                &&& (#[trigger] registry.listeners@[j]).id == pushed[j].id
                &&& registry.listeners@[j].request.handle == pushed[j].request.handle
                &&& registry.listeners@[j].request.kind == pushed[j].request.kind
                &&& evolved(
                    pushed[j].request.kind,
                    pushed[j].request.handle,
                    pushed[j].request.slot,
                    registry.listeners@[j].request.slot,
                    script@,
                    deadline,
                    i + 1,
                )
            } by {
                lemma_dispatch_step(
                    pushed[j].request.kind,
                    pushed[j].request.handle,
                    pushed[j].request.slot,
                    prev[j].request,
                    registry.listeners@[j].request.slot,
                    script@,
                    deadline,
                    i as int,
                );
            }
        }
        i = i + 1;
    }
    let ghost pre = *registry;
    let removed = registry.release(id);
    proof {
        assert(pre.listeners@[l].id == id);
        if removed is Some {
            {
                let req = removed->Some_0;
                let j = choose|j: int|
                    {
                        &&& 0 <= j < pre.listeners@.len()
                        &&& (#[trigger] pre.listeners@[j]).id == id
                        &&& pre.listeners@[j].request == req
                        &&& registry.listeners@ == pre.listeners@.remove(j)
                    };
                if j != l {
                    assert(pre.listeners@[j].id == pre.listeners@[l].id);
                    assert(false);
                }
                assert(registry.listeners@ == pre.listeners@.remove(l));
                assert forall|k: int| 0 <= k < l implies registry.listeners@[k]
                    == pre.listeners@[k] by {}
            }
        } else {
            assert(false);
        }
    }
    match removed {
        Some(req) => req.slot,
        None => None,
    }
}

/// What one request hands back: the caller-visible result, and the instant
/// at which the request resolved, in time units from the request's start.
#[derive(Debug)]
pub struct RequestOutcome {
    pub result: Result<Ticket, AuthError>,
    pub elapsed: u64,
}

/// Which way the race between the confirmation and the timer ended, as the
/// waiting task observes it.
#[derive(Debug)]
pub enum RaceOutcome {
    /// The subscription delivered the platform's verdict before the
    /// deadline: `Ok` with the authoritative payload, or `Err` with the
    /// platform's message.
    Delivered(Result<Vec<u8>, String>),
    /// The result channel closed without ever carrying a value.
    ChannelClosed,
    /// The deadline passed first.
    TimedOut,
}

/// Resolves a session-ticket race: on success the caller receives the
/// ticket exactly as it was minted; every other way out consumes the ticket
/// and demands exactly one cancel call, with this request's handle.
pub fn resolve_session(outcome: RaceOutcome, ticket: Ticket) -> (r: (
    Result<Ticket, AuthError>,
    Option<u32>,
))
    ensures
        match outcome {
            RaceOutcome::Delivered(Ok(_)) => r.0 == Ok::<Ticket, AuthError>(ticket) && r.1
                is None,
            RaceOutcome::Delivered(Err(m)) => r.0 == Err::<Ticket, AuthError>(
                AuthError::PlatformRejected(m),
            ) && r.1 == Some(ticket.handle),
            RaceOutcome::ChannelClosed => r.0 == Err::<Ticket, AuthError>(
                AuthError::ChannelFailure,
            ) && r.1 == Some(ticket.handle),
            RaceOutcome::TimedOut => r.0 == Err::<Ticket, AuthError>(AuthError::Timeout) && r.1
                == Some(ticket.handle),
        },
        r.1 is Some <==> !(r.0 is Ok),
{
    match outcome {
        RaceOutcome::Delivered(res) => match res {
            Ok(_) => (Ok(ticket), None),
            Err(m) => {
                let h = ticket.handle;
                (Err(AuthError::PlatformRejected(m)), Some(h))
            },
        },
        RaceOutcome::ChannelClosed => {
            let h = ticket.handle;
            (Err(AuthError::ChannelFailure), Some(h))
        },
        RaceOutcome::TimedOut => {
            let h = ticket.handle;
            (Err(AuthError::Timeout), Some(h))
        },
    }
}

/// Resolves a web-API-ticket race: here the confirmation itself carries the
/// authoritative payload, so success assembles the final ticket from the
/// handle and the delivered bytes; every other way out demands exactly one
/// cancel call, with this request's handle.
pub fn resolve_webapi(outcome: RaceOutcome, handle: u32) -> (r: (
    Result<Ticket, AuthError>,
    Option<u32>,
))
    ensures
        match outcome {
            RaceOutcome::Delivered(Ok(bytes)) => (match r.0 {
                Ok(t) => t.handle == handle && t.data == bytes,
                Err(_) => false,
            }) && r.1 is None,
            RaceOutcome::Delivered(Err(m)) => r.0 == Err::<Ticket, AuthError>(
                AuthError::PlatformRejected(m),
            ) && r.1 == Some(handle),
            RaceOutcome::ChannelClosed => r.0 == Err::<Ticket, AuthError>(
                AuthError::ChannelFailure,
            ) && r.1 == Some(handle),
            RaceOutcome::TimedOut => r.0 == Err::<Ticket, AuthError>(AuthError::Timeout) && r.1
                == Some(handle),
        },
        r.1 is Some <==> !(r.0 is Ok),
{
    match outcome {
        RaceOutcome::Delivered(res) => match res {
            Ok(bytes) => (Ok(Ticket { data: bytes, handle }), None),
            Err(m) => (Err(AuthError::PlatformRejected(m)), Some(handle)),
        },
        RaceOutcome::ChannelClosed => (Err(AuthError::ChannelFailure), Some(handle)),
        RaceOutcome::TimedOut => (Err(AuthError::Timeout), Some(handle)),
    }
}

/// What a session request resolves to, for every platform behaviour. The
/// race winner's verdict decides: success hands back the mint-time ticket
/// and leaves the platform's cancel record untouched; a rejection passes the
/// platform's message through and adds exactly one cancel call with this
/// request's handle; no winner resolves as a timeout at exactly the
/// deadline, again with exactly one cancel call.
pub open spec fn session_request_resolved(
    r: RequestOutcome,
    before: Platform,
    deadline: u64,
    cancelled_after: Seq<u32>,
) -> bool {
    let h = before.next_handle;
    match race_winner(before.script@, EventKind::SessionValidated, h, deadline) {
        Some(e) => {
            &&& r.elapsed == e.at
            &&& match e.result {
                Ok(_) => {
                    &&& match r.result {
                        Ok(t) => t.handle == h && t.data@ == before.session_bytes@,
                        Err(_) => false,
                    }
                    &&& cancelled_after == before.cancelled@
                },
                Err(m) => {
                    &&& match r.result {
                        Ok(_) => false,
                        Err(err) => err == AuthError::PlatformRejected(m),
                    }
                    &&& cancelled_after == before.cancelled@.push(h)
                },
            }
        },
        None => {
            &&& r.elapsed == deadline
            &&& match r.result {
                Ok(_) => false,
                Err(err) => err == AuthError::Timeout,
            }
            &&& cancelled_after == before.cancelled@.push(h)
        },
    }
}

/// What a web-API request resolves to, for every platform behaviour: as for
/// a session request, except that success assembles the ticket from the
/// winning event's own payload.
pub open spec fn webapi_request_resolved(
    r: RequestOutcome,
    before: Platform,
    deadline: u64,
    cancelled_after: Seq<u32>,
) -> bool {
    let h = before.next_handle;
    match race_winner(before.script@, EventKind::WebApiReady, h, deadline) {
        Some(e) => {
            &&& r.elapsed == e.at
            &&& match e.result {
                Ok(_) => {
                    &&& match r.result {
                        Ok(t) => t.handle == h && t.data@ == e.bytes@,
                        Err(_) => false,
                    }
                    &&& cancelled_after == before.cancelled@
                },
                Err(m) => {
                    &&& match r.result {
                        Ok(_) => false,
                        Err(err) => err == AuthError::PlatformRejected(m),
                    }
                    &&& cancelled_after == before.cancelled@.push(h)
                },
            }
        },
        None => {
            &&& r.elapsed == deadline
            &&& match r.result {
                Ok(_) => false,
                Err(err) => err == AuthError::Timeout,
            }
            &&& cancelled_after == before.cancelled@.push(h)
        },
    }
}

/// The platform after a request differs from before only in one recorded
/// mint — this request's handle — and whatever the resolution says about
/// the cancel record.
pub open spec fn platform_minted_once(before: Platform, after: Platform) -> bool {
    &&& after.next_handle == before.next_handle + 1
    &&& after.minted@ == before.minted@.push(before.next_handle)
    &&& after.script == before.script
    &&& after.session_bytes == before.session_bytes
}

/// One full session-ticket request: mint against the platform, subscribe,
/// race the confirmation against the deadline, resolve, cancel on every
/// non-success path, and always release the subscription.
pub fn get_session_ticket(
    identity: NetIdentity,
    timeout_seconds: Option<u32>,
    platform: &mut Platform,
    registry: &mut Registry,
) -> (r: RequestOutcome)
    requires
        old(platform).next_handle < u32::MAX,
        old(registry).wf(),
        old(registry).next_id < u64::MAX,
    ensures
        final(registry).wf(),
        registry_evolved(
            *old(registry),
            *final(registry),
            old(platform).script@,
            spec_deadline(timeout_seconds),
        ),
        platform_minted_once(*old(platform), *final(platform)),
        session_request_resolved(
            r,
            *old(platform),
            spec_deadline(timeout_seconds),
            final(platform).cancelled@,
        ),
{
    let deadline: u64 = match timeout_seconds {
        Some(s) => s as u64,
        None => DEFAULT_TIMEOUT_UNITS,
    };
    let (handle, data) = platform.mint_session(&identity);
    let ticket = Ticket { data, handle };
    let slot = await_confirmation(
        &platform.script,
        registry,
        EventKind::SessionValidated,
        handle,
        deadline,
    );
    let (outcome, elapsed): (RaceOutcome, u64) = match slot {
        Some(d) => {
            let at = d.at;
            (RaceOutcome::Delivered(d.result), at)
        },
        None => (RaceOutcome::TimedOut, deadline),
    };
    let (result, cancel) = resolve_session(outcome, ticket);
    match cancel {
        Some(h) => platform.cancel_ticket(h),
        None => (),
    }
    RequestOutcome { result, elapsed }
}

/// Requests a session ticket keyed by a platform account identifier.
pub fn get_session_ticket_with_steam_id(
    steam_id64: u64,
    timeout_seconds: Option<u32>,
    platform: &mut Platform,
    registry: &mut Registry,
) -> (r: RequestOutcome)
    requires
        old(platform).next_handle < u32::MAX,
        old(registry).wf(),
        old(registry).next_id < u64::MAX,
    ensures
        final(registry).wf(),
        registry_evolved(
            *old(registry),
            *final(registry),
            old(platform).script@,
            spec_deadline(timeout_seconds),
        ),
        platform_minted_once(*old(platform), *final(platform)),
        session_request_resolved(
            r,
            *old(platform),
            spec_deadline(timeout_seconds),
            final(platform).cancelled@,
        ),
{
    get_session_ticket(NetIdentity::SteamId(steam_id64), timeout_seconds, platform, registry)
}

/// One full web-API-ticket request for a target-service identity: mint,
/// subscribe, race, resolve with the payload the confirmation carries,
/// cancel on every non-success path, and always release the subscription.
pub fn get_auth_ticket_for_web_api(
    identity: String,
    timeout_seconds: Option<u32>,
    platform: &mut Platform,
    registry: &mut Registry,
) -> (r: RequestOutcome)
    requires
        old(platform).next_handle < u32::MAX,
        old(registry).wf(),
        old(registry).next_id < u64::MAX,
    ensures
        final(registry).wf(),
        registry_evolved(
            *old(registry),
            *final(registry),
            old(platform).script@,
            spec_deadline(timeout_seconds),
        ),
        platform_minted_once(*old(platform), *final(platform)),
        webapi_request_resolved(
            r,
            *old(platform),
            spec_deadline(timeout_seconds),
            final(platform).cancelled@,
        ),
{
    let deadline: u64 = match timeout_seconds {
        Some(s) => s as u64,
        None => DEFAULT_TIMEOUT_UNITS,
    };
    let handle = platform.mint_webapi(identity.as_str());
    let slot = await_confirmation(
        &platform.script,
        registry,
        EventKind::WebApiReady,
        handle,
        deadline,
    );
    let (outcome, elapsed): (RaceOutcome, u64) = match slot {
        Some(d) => {
            let at = d.at;
            (RaceOutcome::Delivered(d.result), at)
        },
        None => (RaceOutcome::TimedOut, deadline),
    };
    let (result, cancel) = resolve_webapi(outcome, handle);
    match cancel {
        Some(h) => platform.cancel_ticket(h),
        None => (),
    }
    RequestOutcome { result, elapsed }
}

/// Characterizes the race: a winner is a winning event of the script's
/// first `n` events, and the absence of a winner means none of them wins.
pub proof fn lemma_first_match_characterized(
    script: Seq<PlatformEvent>,
    kind: EventKind,
    handle: u32,
    deadline: u64,
    n: int,
)
    requires
        0 <= n <= script.len(),
    ensures
        match first_match_upto(script, kind, handle, deadline, n) {
            Some(e) => exists|i: int|
                0 <= i < n && script[i] == e && wins(#[trigger] script[i], kind, handle, deadline),
            None => forall|i: int|
                0 <= i < n ==> !wins(#[trigger] script[i], kind, handle, deadline),
        },
    decreases n,
{
    if n > 0 {
        lemma_first_match_characterized(script, kind, handle, deadline, n - 1);
        match first_match_upto(script, kind, handle, deadline, n - 1) {
            Some(e) => {
                let i = choose|i: int|
                    0 <= i < n - 1 && script[i] == e && wins(
                        #[trigger] script[i],
                        kind,
                        handle,
                        deadline,
                    );
                assert(0 <= i < n && script[i] == e && wins(script[i], kind, handle, deadline));
            },
            None => {
                if wins(script[n - 1], kind, handle, deadline) {
                    assert(0 <= n - 1 < n && script[n - 1] == script[n - 1] && wins(
                        script[n - 1],
                        kind,
                        handle,
                        deadline,
                    ));
                }
            },
        }
    }
}

/// A request whose platform event arrives before its deadline always
/// resolves with that event's verdict, never with a timeout: when some
/// event of the script wins the race, the race has a winner.
pub proof fn lemma_confirmation_beats_timeout(
    script: Seq<PlatformEvent>,
    kind: EventKind,
    handle: u32,
    deadline: u64,
)
    requires
        exists|i: int|
            0 <= i < script.len() && wins(#[trigger] script[i], kind, handle, deadline),
    ensures
        race_winner(script, kind, handle, deadline) is Some,
{
    lemma_first_match_characterized(script, kind, handle, deadline, script.len() as int);
    if race_winner(script, kind, handle, deadline) is None {
        let i = choose|i: int|
            0 <= i < script.len() && wins(#[trigger] script[i], kind, handle, deadline);
        assert(!wins(script[i], kind, handle, deadline));
    }
}

/// A request that no event confirms resolves with a timeout at exactly the
/// deadline: with no winning event anywhere in the script, the race has no
/// winner.
pub proof fn lemma_no_confirmation_times_out(
    script: Seq<PlatformEvent>,
    kind: EventKind,
    handle: u32,
    deadline: u64,
)
    requires
        forall|i: int|
            0 <= i < script.len() ==> !wins(#[trigger] script[i], kind, handle, deadline),
    ensures
        race_winner(script, kind, handle, deadline) is None,
{
    lemma_first_match_characterized(script, kind, handle, deadline, script.len() as int);
    if race_winner(script, kind, handle, deadline) is Some {
        let e = race_winner(script, kind, handle, deadline)->Some_0;
        let i = choose|i: int|
            0 <= i < script.len() && script[i] == e && wins(
                #[trigger] script[i],
                kind,
                handle,
                deadline,
            );
        assert(!wins(script[i], kind, handle, deadline));
    }
}

/// Only an event of this request's own stream and handle, arrived before
/// the deadline, can resolve its race: an event correlated with any other
/// request never wins it.
pub proof fn lemma_winner_is_correlated(
    script: Seq<PlatformEvent>,
    kind: EventKind,
    handle: u32,
    deadline: u64,
)
    ensures
        match race_winner(script, kind, handle, deadline) {
            Some(e) => e.kind == kind && e.handle == handle && e.at < deadline,
            None => true,
        },
{
    lemma_first_match_characterized(script, kind, handle, deadline, script.len() as int);
}

/// Requests a session ticket keyed by a network address given as a string.
/// A string that does not parse as an address fails immediately with
/// `InvalidInput`: no mint call is made, no subscription is taken, and the
/// platform and the registry are left exactly as they were.
pub fn get_session_ticket_with_ip(
    ip: String,
    timeout_seconds: Option<u32>,
    platform: &mut Platform,
    registry: &mut Registry,
) -> (r: RequestOutcome)
    requires
        old(platform).next_handle < u32::MAX,
        old(registry).wf(),
        old(registry).next_id < u64::MAX,
    ensures
        crate::addr::is_valid_addr(ip@) ==> {
            &&& final(registry).wf()
            &&& registry_evolved(
                *old(registry),
                *final(registry),
                old(platform).script@,
                spec_deadline(timeout_seconds),
            )
            &&& platform_minted_once(*old(platform), *final(platform))
            &&& session_request_resolved(
                r,
                *old(platform),
                spec_deadline(timeout_seconds),
                final(platform).cancelled@,
            )
        },
        !crate::addr::is_valid_addr(ip@) ==> {
            &&& *final(platform) == *old(platform)
            &&& *final(registry) == *old(registry)
            &&& match r.result {
                Ok(_) => false,
                Err(e) => e == AuthError::InvalidInput,
            }
            &&& r.elapsed == 0
        },
{
    match crate::addr::parse_sock_addr(ip.as_str()) {
        Some(ad) => get_session_ticket(
            NetIdentity::Ip(ad),
            timeout_seconds,
            platform,
            registry,
        ),
        None => RequestOutcome { result: Err(AuthError::InvalidInput), elapsed: 0 },
    }
}

/// The events of this request's own stream and handle, in arrival order.
pub open spec fn matching_events(
    script: Seq<PlatformEvent>,
    kind: EventKind,
    handle: u32,
) -> Seq<PlatformEvent>
    decreases script.len(),
{
    if script.len() == 0 {
        Seq::empty()
    } else {
        let prev = matching_events(script.drop_last(), kind, handle);
        if script.last().kind == kind && script.last().handle == handle {
            prev.push(script.last())
        } else {
            prev
        }
    }
}

/// A race over the first `m` events never looks past them: appending an
/// event beyond the prefix changes nothing.
proof fn lemma_first_match_prefix_stable(
    f: Seq<PlatformEvent>,
    e: PlatformEvent,
    kind: EventKind,
    handle: u32,
    deadline: u64,
    m: int,
)
    requires
        0 <= m <= f.len(),
    ensures
        first_match_upto(f.push(e), kind, handle, deadline, m) == first_match_upto(
            f,
            kind,
            handle,
            deadline,
            m,
        ),
    decreases m,
{
    if m > 0 {
        lemma_first_match_prefix_stable(f, e, kind, handle, deadline, m - 1);
        assert(f.push(e)[m - 1] == f[m - 1]);
    }
}

/// The race sees only the events of its own stream and handle: its winner
/// over a prefix equals its winner over that prefix's matching
/// subsequence.
proof fn lemma_race_filters(
    script: Seq<PlatformEvent>,
    kind: EventKind,
    handle: u32,
    deadline: u64,
    n: int,
)
    requires
        0 <= n <= script.len(),
    ensures
        first_match_upto(script, kind, handle, deadline, n) == ({
            let f = matching_events(script.subrange(0, n), kind, handle);
            first_match_upto(f, kind, handle, deadline, f.len() as int)
        }),
    decreases n,
{
    if n > 0 {
        lemma_race_filters(script, kind, handle, deadline, n - 1);
        let p = script.subrange(0, n);
        let pm1 = script.subrange(0, n - 1);
        assert(p.drop_last() =~= pm1);
        assert(p.last() == script[n - 1]);
        let f1 = matching_events(pm1, kind, handle);
        let f = matching_events(p, kind, handle);
        if script[n - 1].kind == kind && script[n - 1].handle == handle {
            assert(f == f1.push(script[n - 1]));
            lemma_first_match_prefix_stable(
                f1,
                script[n - 1],
                kind,
                handle,
                deadline,
                f1.len() as int,
            );
            assert(f[f1.len() as int] == script[n - 1]);
        } else {
            assert(f == f1);
        }
    }
}

/// Deliveries correlated with other requests never change this request's
/// outcome: two platform scripts that carry the same events of this
/// request's own stream and handle — however many events for other
/// handles or streams are interleaved, and wherever — resolve its race to
/// the same winner, and with it, through the request functions'
/// contracts, to the same result, cancel record and elapsed time.
pub proof fn lemma_race_ignores_foreign_events(
    s1: Seq<PlatformEvent>,
    s2: Seq<PlatformEvent>,
    kind: EventKind,
    handle: u32,
    deadline: u64,
)
    requires
        matching_events(s1, kind, handle) == matching_events(s2, kind, handle),
    ensures
        race_winner(s1, kind, handle, deadline) == race_winner(s2, kind, handle, deadline),
{
    lemma_race_filters(s1, kind, handle, deadline, s1.len() as int);
    lemma_race_filters(s2, kind, handle, deadline, s2.len() as int);
    assert(s1.subrange(0, s1.len() as int) =~= s1);
    assert(s2.subrange(0, s2.len() as int) =~= s2);
}

} // verus!
