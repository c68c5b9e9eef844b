//! Microsoft Graph HTTP contract: URL builders and response classification.
use vstd::prelude::*;
use crate::text::{chars_of, concat, string_of_range};

verus! {

/// Throttling / retry classification for Graph HTTP responses.
#[derive(Debug, Clone, Copy, PartialEq, Eq, Structural)]
pub enum RetryHint {
    /// Do not retry.
    NoRetry,
    /// Retry after this many seconds (`Retry-After` header or a default).
    RetryAfter(u64),
}

/// The retry decision for an HTTP status and an optional `Retry-After`.
pub open spec fn retry_hint(status: u16, retry_after: Option<u64>) -> RetryHint {
    if status == 429 || status == 503 {
        let secs: u64 = match retry_after {
            Some(s) => s,
            None => 5,
        };
        RetryHint::RetryAfter(if secs < 1 { 1 } else { secs })
    } else if status == 408 || status >= 500 {
        RetryHint::RetryAfter(2)
    } else {
        RetryHint::NoRetry
    }
}

/// Throttled (429) and unavailable (503) responses retry after the server's
/// `Retry-After` (5 s without one, at least 1 s); timeouts and other server
/// errors retry after 2 s; every other status, 401 among them, never retries.
pub fn classify_status(status: u16, retry_after: Option<u64>) -> (r: RetryHint)
    ensures
        r == retry_hint(status, retry_after),
{
    if status == 429 || status == 503 {
        let secs = match retry_after {
            Some(s) => s,
            None => 5,
        };
        RetryHint::RetryAfter(if secs < 1 { 1 } else { secs })
    } else if status == 408 || status >= 500 {
        RetryHint::RetryAfter(2)
    } else {
        RetryHint::NoRetry
    }
}

/// `s` without its trailing `/` characters (`trim_end_matches('/')`).
pub open spec fn trim_end_slashes(s: Seq<char>) -> Seq<char>
    decreases s.len(),
{
    if s.len() > 0 && s.last() == '/' {
        trim_end_slashes(s.drop_last())
    } else {
        s
    }
}

/// The base URL without trailing slashes.
pub fn trimmed_base(base: &str) -> (r: String)
    ensures
        r@ == trim_end_slashes(base@),
{
    let cs = chars_of(base);
    let mut end = cs.len();
    proof {
        assert(cs@.subrange(0, cs@.len() as int) =~= base@);
    }
    while end > 0 && cs[end - 1] == '/'
        invariant
            end <= cs@.len(),
            trim_end_slashes(cs@.subrange(0, end as int)) == trim_end_slashes(base@),
            cs@ == base@,
        decreases end,
    {
        proof {
            assert(cs@.subrange(0, end as int).drop_last() =~= cs@.subrange(0, end - 1));
        }
        end = end - 1;
    }
    proof {
        let t = cs@.subrange(0, end as int);
        if end > 0 {
            assert(t.last() == cs@[end - 1]);
        }
    }
    string_of_range(&cs, 0, end)
}

/// The chat-list endpoint under `base`.
pub fn chats_url(base: &str) -> (r: String)
    ensures
        r@ == trim_end_slashes(base@) + "/me/chats?$expand=lastMessagePreview"@,
{
    let b = trimmed_base(base);
    concat(b.as_str(), "/me/chats?$expand=lastMessagePreview")
}

/// The message-list endpoint of `chat_id` under `base`.
pub fn messages_url(base: &str, chat_id: &str) -> (r: String)
    ensures
        r@ == trim_end_slashes(base@) + "/me/chats/"@ + chat_id@ + "/messages"@,
{
    let b = trimmed_base(base);
    let with_chats = concat(b.as_str(), "/me/chats/");
    let with_id = concat(with_chats.as_str(), chat_id);
    concat(with_id.as_str(), "/messages")
}

} // verus!
