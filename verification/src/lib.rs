//! A verified ticket-request correlation engine.
//!
//! An external identity platform mints short-lived credential tickets and
//! confirms or rejects them asynchronously, out of band. This crate contains
//! the logic that correlates those asynchronous confirmations with the
//! pending request that is waiting for them: a subscription registry keyed
//! by an opaque handle, a deliver-once result slot per request, a race
//! between the confirmation and a deadline, and deterministic cleanup
//! (release the subscription; cancel the ticket on every non-success path).
//!
//! The platform itself is modelled as explicit state ([`platform::Platform`]):
//! the handles it assigns, the events it emits and when, and the mint and
//! cancel calls it has received. The engine is verified against that model
//! for every platform behaviour; an asynchronous host drives the same
//! decision logic against the real platform.

pub mod addr;
pub mod engine;
pub mod errors;
pub mod platform;
pub mod registry;
pub mod ticket;
