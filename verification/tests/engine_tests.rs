use auth_tickets::engine::{
    get_auth_ticket_for_web_api, get_session_ticket, get_session_ticket_with_ip,
    get_session_ticket_with_steam_id, resolve_session, resolve_webapi, RaceOutcome,
};
use auth_tickets::addr::NetIdentity;
use auth_tickets::errors::AuthError;
use auth_tickets::platform::{EventKind, Platform, PlatformEvent};
use auth_tickets::registry::{PendingRequest, Registry};
use auth_tickets::ticket::Ticket;

fn event(kind: EventKind, handle: u32, result: Result<(), String>, bytes: Vec<u8>, at: u64) -> PlatformEvent {
    PlatformEvent { kind, handle, result, bytes, at }
}

#[test]
fn invalid_ip_rejected_without_mint() {
    let mut platform = Platform::new(vec![9, 9], Vec::new());
    let mut registry = Registry::new();
    let r = get_session_ticket_with_ip("not-an-address".to_string(), None, &mut platform, &mut registry);
    assert!(matches!(r.result, Err(AuthError::InvalidInput)));
    assert_eq!(platform.minted.len(), 0);
    assert_eq!(platform.cancelled.len(), 0);
    assert_eq!(registry.listeners.len(), 0);
}

#[test]
fn valid_ip_reaches_mint() {
    let mut platform = Platform::new(vec![7], Vec::new());
    let mut registry = Registry::new();
    let r = get_session_ticket_with_ip("127.0.0.1:8080".to_string(), Some(1), &mut platform, &mut registry);
    assert!(matches!(r.result, Err(AuthError::Timeout)));
    assert_eq!(platform.minted, vec![1]);
}

#[test]
fn steam_id_request_times_out_with_one_cancel() {
    let mut platform = Platform::new(vec![1, 2], Vec::new());
    let mut registry = Registry::new();
    let r = get_session_ticket_with_steam_id(76561198000000000, Some(1), &mut platform, &mut registry);
    assert!(matches!(r.result, Err(AuthError::Timeout)));
    assert_eq!(r.elapsed, 1);
    assert_eq!(platform.cancelled, vec![1]);
    assert_eq!(registry.listeners.len(), 0);
}

#[test]
fn default_timeout_is_ten_units() {
    let mut platform = Platform::new(Vec::new(), Vec::new());
    let mut registry = Registry::new();
    let r = get_session_ticket_with_steam_id(42, None, &mut platform, &mut registry);
    assert!(matches!(r.result, Err(AuthError::Timeout)));
    assert_eq!(r.elapsed, 10);
}

#[test]
fn web_api_success_carries_event_bytes() {
    let script = vec![event(EventKind::WebApiReady, 1, Ok(()), vec![1, 2, 3], 0)];
    let mut platform = Platform::new(Vec::new(), script);
    let mut registry = Registry::new();
    let r = get_auth_ticket_for_web_api("service-x".to_string(), None, &mut platform, &mut registry);
    let ticket = r.result.expect("confirmed ticket");
    assert_eq!(ticket.get_bytes(), vec![1, 2, 3]);
    assert_eq!(platform.cancelled.len(), 0);
    assert_eq!(registry.listeners.len(), 0);
}

#[test]
fn session_success_keeps_mint_time_bytes() {
    let script = vec![event(EventKind::SessionValidated, 1, Ok(()), Vec::new(), 3)];
    let mut platform = Platform::new(vec![5, 6, 7], script);
    let mut registry = Registry::new();
    let r = get_session_ticket(NetIdentity::SteamId(9), None, &mut platform, &mut registry);
    let ticket = r.result.expect("validated ticket");
    assert_eq!(ticket.get_bytes(), vec![5, 6, 7]);
    assert_eq!(r.elapsed, 3);
    assert_eq!(platform.cancelled.len(), 0);
}

#[test]
fn event_before_timeout_beats_timer() {
    let script = vec![event(
        EventKind::SessionValidated,
        1,
        Err("denied".to_string()),
        Vec::new(),
        5,
    )];
    let mut platform = Platform::new(Vec::new(), script);
    let mut registry = Registry::new();
    let r = get_session_ticket_with_steam_id(1, Some(10), &mut platform, &mut registry);
    match r.result {
        Err(AuthError::PlatformRejected(m)) => assert_eq!(m, "denied"),
        other => panic!("expected a platform rejection, got {:?}", other),
    }
    assert_eq!(r.elapsed, 5);
    assert_eq!(platform.cancelled, vec![1]);
}

#[test]
fn event_at_deadline_loses_to_timer() {
    let script = vec![event(EventKind::SessionValidated, 1, Ok(()), Vec::new(), 10)];
    let mut platform = Platform::new(Vec::new(), script);
    let mut registry = Registry::new();
    let r = get_session_ticket_with_steam_id(1, Some(10), &mut platform, &mut registry);
    assert!(matches!(r.result, Err(AuthError::Timeout)));
    assert_eq!(r.elapsed, 10);
    assert_eq!(platform.cancelled, vec![1]);
}

#[test]
fn foreign_handle_never_resolves_request() {
    let script = vec![
        event(EventKind::SessionValidated, 999, Ok(()), Vec::new(), 0),
        event(EventKind::WebApiReady, 1, Ok(()), Vec::new(), 1),
    ];
    let mut platform = Platform::new(Vec::new(), script);
    let mut registry = Registry::new();
    let r = get_session_ticket_with_steam_id(1, Some(5), &mut platform, &mut registry);
    assert!(matches!(r.result, Err(AuthError::Timeout)));
    assert_eq!(r.elapsed, 5);
}

#[test]
fn first_matching_event_wins_deliver_once() {
    let script = vec![
        event(EventKind::SessionValidated, 1, Err("first".to_string()), Vec::new(), 1),
        event(EventKind::SessionValidated, 1, Ok(()), Vec::new(), 2),
    ];
    let mut platform = Platform::new(Vec::new(), script);
    let mut registry = Registry::new();
    let r = get_session_ticket_with_steam_id(1, None, &mut platform, &mut registry);
    match r.result {
        Err(AuthError::PlatformRejected(m)) => assert_eq!(m, "first"),
        other => panic!("expected the first delivery to win, got {:?}", other),
    }
    assert_eq!(r.elapsed, 1);
}

#[test]
fn dispatch_fills_only_matching_listener() {
    let mut registry = Registry::new();
    let id_a = registry.register(PendingRequest {
        handle: 1,
        kind: EventKind::SessionValidated,
        slot: None,
    });
    let id_b = registry.register(PendingRequest {
        handle: 2,
        kind: EventKind::SessionValidated,
        slot: None,
    });
    assert_ne!(id_a, id_b);
    let e = event(EventKind::SessionValidated, 1, Ok(()), Vec::new(), 0);
    registry.dispatch(&e);
    assert!(registry.listeners[0].request.slot.is_some());
    assert!(registry.listeners[1].request.slot.is_none());
}

#[test]
fn release_is_idempotent() {
    let mut registry = Registry::new();
    let id = registry.register(PendingRequest {
        handle: 1,
        kind: EventKind::WebApiReady,
        slot: None,
    });
    assert!(registry.release(id).is_some());
    assert!(registry.release(id).is_none());
    assert_eq!(registry.listeners.len(), 0);
}

#[test]
fn foreign_listener_survives_request_untouched() {
    let mut registry = Registry::new();
    let foreign = registry.register(PendingRequest {
        handle: 500,
        kind: EventKind::SessionValidated,
        slot: None,
    });
    let mut platform = Platform::new(Vec::new(), Vec::new());
    let r = get_session_ticket_with_steam_id(1, Some(1), &mut platform, &mut registry);
    assert!(matches!(r.result, Err(AuthError::Timeout)));
    assert_eq!(registry.listeners.len(), 1);
    assert_eq!(registry.listeners[0].id, foreign);
    assert!(registry.listeners[0].request.slot.is_none());
}

#[test]
fn channel_failure_cancels_and_surfaces() {
    let ticket = Ticket { data: vec![1], handle: 77 };
    let (res, cancel) = resolve_session(RaceOutcome::ChannelClosed, ticket);
    assert!(matches!(res, Err(AuthError::ChannelFailure)));
    assert_eq!(cancel, Some(77));
}

#[test]
fn web_api_channel_failure_cancels_and_surfaces() {
    let (res, cancel) = resolve_webapi(RaceOutcome::ChannelClosed, 88);
    assert!(matches!(res, Err(AuthError::ChannelFailure)));
    assert_eq!(cancel, Some(88));
}

#[test]
fn successful_resolution_requests_no_cancel() {
    let ticket = Ticket { data: vec![4], handle: 3 };
    let (res, cancel) = resolve_session(RaceOutcome::Delivered(Ok(Vec::new())), ticket);
    assert!(res.is_ok());
    assert_eq!(cancel, None);
}

#[test]
fn get_bytes_returns_independent_copies() {
    let ticket = Ticket { data: vec![1, 2, 3], handle: 5 };
    let first = ticket.get_bytes();
    let mut second = ticket.get_bytes();
    assert_eq!(first, second);
    second[0] = 99;
    assert_eq!(first, vec![1, 2, 3]);
    assert_eq!(ticket.get_bytes(), vec![1, 2, 3]);
}

#[test]
fn explicit_cancel_is_recorded_once() {
    let mut platform = Platform::new(Vec::new(), Vec::new());
    let ticket = Ticket { data: Vec::new(), handle: 12 };
    ticket.cancel(&mut platform);
    assert_eq!(platform.cancelled, vec![12]);
}

#[test]
fn error_messages_are_fixed_or_passed_through() {
    assert_eq!(
        AuthError::Timeout.message(),
        "Steam didn't validate the ticket in time."
    );
    assert_eq!(
        AuthError::PlatformRejected("no license".to_string()).message(),
        "no license"
    );
    assert_eq!(AuthError::InvalidInput.message(), "invalid socket address syntax");
    assert_eq!(AuthError::ChannelFailure.message(), "channel closed");
}
