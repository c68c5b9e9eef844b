//! Device authorization grant (RFC 8628) against Microsoft Entra ID: the
//! protocol's values and the decisions between its HTTP round trips.
use vstd::prelude::*;
use crate::error::AppError;
use crate::infra::graph::client::{trim_end_slashes, trimmed_base};
use crate::text::{chars_of, concat, find_chars, find_from, owned, same_text};

verus! {

/// Body of the device-code request.
#[derive(Debug, Clone)]
pub struct DeviceCodeRequest {
    pub client_id: String,
    pub scope: String,
}

/// What the device-code endpoint hands back.
#[derive(Debug, Clone, PartialEq, Eq)]
pub struct DeviceCodeResponse {
    pub device_code: String,
    pub user_code: String,
    pub verification_uri: String,
    pub expires_in: u64,
    pub interval: u64,
    pub message: String,
}

/// What the token endpoint hands back once the user approved.
#[derive(Debug, Clone, PartialEq, Eq)]
pub struct TokenResponse {
    pub token_type: String,
    pub scope: String,
    pub expires_in: u64,
    pub access_token: String,
    pub refresh_token: Option<String>,
}

/// Poll state of a pending flow; the caller sleeps the interval between polls.
#[derive(Debug, Clone, Copy, PartialEq, Eq, Structural)]
pub enum PollOutcome {
    Pending,
    SlowDown,
}

/// The delegated scopes requested, space separated.
pub open spec fn scopes_text() -> Seq<char> {
    "openid profile offline_access User.Read Chat.Read ChatMessage.Send Chat.ReadWrite Presence.Read Presence.Read.All"@
}

/// Delegated scopes for chat, presence and offline refresh.
pub fn default_scopes() -> (r: String)
    ensures
        r@ == scopes_text(),
{
    owned(
        "openid profile offline_access User.Read Chat.Read ChatMessage.Send Chat.ReadWrite Presence.Read Presence.Read.All",
    )
}

/// How a failed token poll goes on, by the `error` code of its body
/// (`None`: the body was not such an error object).
pub open spec fn poll_error_kind(code: Option<Seq<char>>) -> int {
    match code {
        Some(c) => if c == "authorization_pending"@ {
            0
        } else if c == "slow_down"@ {
            1
        } else if c == "authorization_declined"@ || c == "bad_verification_code"@ || c
            == "expired_token"@ {
            2
        } else {
            3
        },
        None => 3,
    }
}

/// The characters of an optional error code.
pub open spec fn code_view(code: Option<&str>) -> Option<Seq<char>> {
    match code {
        Some(c) => Some(c@),
        None => None,
    }
}

/// Classifies a token-endpoint error per RFC 8628 section 3.5: pending and
/// slow-down keep polling; a declined, mistyped or expired code ends the flow;
/// anything else, an unreadable body included, is a token-endpoint error.
/// Neither error repeats what the server said.
pub fn classify_error_code(code: Option<&str>) -> (r: Result<PollOutcome, AppError>)
    ensures
        poll_error_kind(code_view(code)) == 0 ==> r == Ok::<PollOutcome, AppError>(
            PollOutcome::Pending,
        ),
        poll_error_kind(code_view(code)) == 1 ==> r == Ok::<PollOutcome, AppError>(
            PollOutcome::SlowDown,
        ),
        poll_error_kind(code_view(code)) == 2 ==> (r matches Err(AppError::Auth(m)) && m@
            == "device flow ended"@),
        poll_error_kind(code_view(code)) == 3 ==> (r matches Err(AppError::Auth(m)) && m@
            == "token endpoint error"@),
{
    match code {
        Some(c) => {
            if same_text(c, "authorization_pending") {
                Ok(PollOutcome::Pending)
            } else if same_text(c, "slow_down") {
                Ok(PollOutcome::SlowDown)
            } else if same_text(c, "authorization_declined") || same_text(c, "bad_verification_code")
                || same_text(c, "expired_token") {
                Err(AppError::Auth(owned("device flow ended")))
            } else {
                Err(AppError::Auth(owned("token endpoint error")))
            }
        },
        None => Err(AppError::Auth(owned("token endpoint error"))),
    }
}

/// The first poll interval: the server's, at least one second.
pub fn initial_poll_interval(server_interval: u64) -> (r: u64)
    ensures
        r == if server_interval < 1 { 1 } else { server_interval },
{
    if server_interval < 1 {
        1
    } else {
        server_interval
    }
}

/// How many polls a flow gets: the caller's bound, at least one.
pub fn poll_attempts(max_polls: u32) -> (r: u32)
    ensures
        r == if max_polls < 1 { 1 } else { max_polls },
{
    if max_polls < 1 {
        1
    } else {
        max_polls
    }
}

/// The interval after a pending poll: five seconds longer on `slow_down`.
pub fn next_poll_interval(interval: u64, outcome: PollOutcome) -> (r: u64)
    requires
        outcome == PollOutcome::SlowDown ==> interval + 5 <= u64::MAX,
    ensures
        r == match outcome {
            PollOutcome::Pending => interval,
            PollOutcome::SlowDown => (interval + 5) as u64,
        },
{
    match outcome {
        PollOutcome::Pending => interval,
        PollOutcome::SlowDown => interval + 5,
    }
}

/// The error once every poll came back pending.
pub fn poll_timeout() -> (r: AppError)
    ensures
        r matches AppError::Auth(m) && m@ == "device flow timed out"@,
{
    AppError::Auth(owned("device flow timed out"))
}

/// The authority for `tenant` under `base`: the Entra host gets the tenant
/// appended; any other base (a test server) is used as it is. Trailing
/// slashes of the base are dropped either way.
pub open spec fn authority_of(base: Seq<char>, tenant: Seq<char>) -> Seq<char> {
    if find_from(base, "login.microsoftonline.com"@, 0) >= 0 {
        trim_end_slashes(base) + "/"@ + tenant
    } else {
        trim_end_slashes(base)
    }
}

/// The token authority a client of `tenant` talks to.
pub fn authority_url(base: &str, tenant: &str) -> (r: String)
    ensures
        r@ == authority_of(base@, tenant@),
{
    let cs = chars_of(base);
    let host = chars_of("login.microsoftonline.com");
    let b = trimmed_base(base);
    match find_chars(&cs, &host, 0) {
        Some(_) => {
            let with_slash = concat(b.as_str(), "/");
            concat(with_slash.as_str(), tenant)
        },
        None => b,
    }
}

/// The refresh token of a stored session; none stored fails closed with a
/// message that tells the user to log in again.
pub fn require_session(stored: Option<String>) -> (r: Result<String, AppError>)
    ensures
        match stored {
            Some(t) => r == Ok::<String, AppError>(t),
            None => r matches Err(AppError::Config(m)) && m@ == "no session; log in with `rusteams login`"@,
        },
{
    match stored {
        Some(t) => Ok(t),
        None => Err(AppError::Config(owned("no session; log in with `rusteams login`"))),
    }
}

/// The refresh token a sign-in must keep; a grant without one fails.
pub fn issued_refresh_token(token: TokenResponse) -> (r: Result<String, AppError>)
    ensures
        match token.refresh_token {
            Some(t) => r == Ok::<String, AppError>(t),
            None => r matches Err(AppError::Auth(m)) && m@ == "no refresh token issued"@,
        },
{
    match token.refresh_token {
        Some(t) => Ok(t),
        None => Err(AppError::Auth(owned("no refresh token issued"))),
    }
}

} // verus!
