//! Chat conversation model.
use vstd::prelude::*;

verus! {

/// A 1:1 or group chat conversation.
///
/// `last_message_at` is an instant in nanoseconds since the Unix epoch.
#[derive(Debug, Clone, PartialEq, Eq)]
pub struct Chat {
    pub id: String,
    pub topic: Option<String>,
    pub last_message_preview: Option<String>,
    pub last_message_at: Option<i64>,
    pub unread: bool,
}

} // verus!
