use vstd::prelude::*;

verus! {

/// Failure of a single ticket request, surfaced to the caller.
///
/// Every failure is local to one request; nothing here is fatal to the
/// process, and nothing is retried internally.
#[derive(Debug)]
pub enum AuthError {
    /// The caller-supplied address did not parse as a network address.
    /// Surfaced before any platform interaction.
    InvalidInput,
    /// The platform's asynchronous result reported failure; the platform's
    /// message is passed through verbatim.
    PlatformRejected(String),
    /// No confirming event arrived within the deadline.
    Timeout,
    /// The internal result channel closed without ever carrying a value.
    ChannelFailure,
}

impl AuthError {
    /// The user-facing description of the failure: the platform's message
    /// verbatim for a rejection, a fixed text for every other failure.
    pub fn message(&self) -> (r: String)
        ensures
            match *self {
                AuthError::InvalidInput => r@ == "invalid socket address syntax"@,
                AuthError::PlatformRejected(m) => r@ == m@,
                AuthError::Timeout => r@ == "Steam didn't validate the ticket in time."@,
                AuthError::ChannelFailure => r@ == "channel closed"@,
            },
    {
        match self {
            AuthError::InvalidInput => "invalid socket address syntax".to_string(),
            AuthError::PlatformRejected(m) => m.clone(),
            AuthError::Timeout => "Steam didn't validate the ticket in time.".to_string(),
            AuthError::ChannelFailure => "channel closed".to_string(),
        }
    }
}

} // verus!
