//! Application errors and their user-facing messages.
use vstd::prelude::*;
use crate::text::{concat, owned};

verus! {

/// Everything that can go wrong, by kind. Payloads are short static
/// descriptions, never raw tokens or responses.
#[derive(Debug)]
pub enum AppError {
    Config(String),
    Auth(String),
    Provider(String),
    Network(String),
    Security(String),
    Validation(String),
    /// Cooperative shutdown: tasks stop, terminal state is restored.
    Shutdown,
}

/// The message shown for an error.
pub open spec fn message_of(e: AppError) -> Seq<char> {
    match e {
        AppError::Config(s) => "configuration error: "@ + s@,
        AppError::Auth(_) => "authentication failed"@,
        AppError::Provider(s) => "provider error: "@ + s@,
        AppError::Network(s) => "network error: "@ + s@,
        AppError::Security(s) => "security violation: "@ + s@,
        AppError::Validation(s) => "input error: "@ + s@,
        AppError::Shutdown => "shutting down"@,
    }
}

impl AppError {
    /// User-facing message: a fixed prefix for the kind and its description;
    /// an authentication failure never repeats what it was given.
    pub fn user_message(&self) -> (r: String)
        ensures
            r@ == message_of(*self),
    {
        match self {
            AppError::Config(s) => concat("configuration error: ", s.as_str()),
            AppError::Auth(_) => owned("authentication failed"),
            AppError::Provider(s) => concat("provider error: ", s.as_str()),
            AppError::Network(s) => concat("network error: ", s.as_str()),
            AppError::Security(s) => concat("security violation: ", s.as_str()),
            AppError::Validation(s) => concat("input error: ", s.as_str()),
            AppError::Shutdown => owned("shutting down"),
        }
    }
}

} // verus!
