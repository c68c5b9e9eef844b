//! User presence model.
use vstd::prelude::*;
use crate::text::{ascii_lower, ascii_lower_chars, chars_of, owned, same_chars};

verus! {

/// Normalized availability. Unknown Graph values map to `Unknown`.
#[derive(Debug, Clone, PartialEq, Eq)]
pub enum Availability {
    Available,
    Busy,
    Away,
    BeRightBack,
    DoNotDisturb,
    Offline,
    PresenceUnknown,
    Unknown(String),
}

/// Normalized user presence.
#[derive(Debug, Clone, PartialEq, Eq)]
pub struct Presence {
    pub user_id: String,
    pub availability: Availability,
    pub activity: String,
}

/// The known availability spelled, in lower case, by `l`.
pub open spec fn known_availability(l: Seq<char>) -> Option<Availability> {
    if l == seq!['a', 'v', 'a', 'i', 'l', 'a', 'b', 'l', 'e'] {
        Some(Availability::Available)
    } else if l == seq!['b', 'u', 's', 'y'] {
        Some(Availability::Busy)
    } else if l == seq!['a', 'w', 'a', 'y'] {
        Some(Availability::Away)
    } else if l == seq!['b', 'e', 'r', 'i', 'g', 'h', 't', 'b', 'a', 'c', 'k'] {
        Some(Availability::BeRightBack)
    } else if l == seq!['d', 'o', 'n', 'o', 't', 'd', 'i', 's', 't', 'u', 'r', 'b'] {
        Some(Availability::DoNotDisturb)
    } else if l == seq!['o', 'f', 'f', 'l', 'i', 'n', 'e'] {
        Some(Availability::Offline)
    } else if l == seq![
        'p', 'r', 'e', 's', 'e', 'n', 'c', 'e', 'u', 'n', 'k', 'n', 'o', 'w', 'n'
    ] {
        Some(Availability::PresenceUnknown)
    } else {
        None
    }
}

/// Whether `lo` spells `name`.
fn spells(lo: &Vec<char>, name: &str) -> (r: bool)
    ensures
        r == (lo@ == name@),
{
    let pat = chars_of(name);
    same_chars(lo, &pat)
}

/// Parses a Graph `availability` string, ignoring ASCII case; anything else
/// becomes `Unknown` with the text as given. Never fails.
pub fn parse_availability(s: &str) -> (r: Availability)
    ensures
        match known_availability(ascii_lower(s@)) {
            Some(a) => r == a,
            None => r matches Availability::Unknown(t) && t@ == s@,
        },
{
    let lo = ascii_lower_chars(s);
    proof {
        reveal_strlit("available");
        reveal_strlit("busy");
        reveal_strlit("away");
        reveal_strlit("berightback");
        reveal_strlit("donotdisturb");
        reveal_strlit("offline");
        reveal_strlit("presenceunknown");
        assert("available"@ =~= seq!['a', 'v', 'a', 'i', 'l', 'a', 'b', 'l', 'e']);
        assert("busy"@ =~= seq!['b', 'u', 's', 'y']);
        assert("away"@ =~= seq!['a', 'w', 'a', 'y']);
        assert("berightback"@ =~= seq!['b', 'e', 'r', 'i', 'g', 'h', 't', 'b', 'a', 'c', 'k']);
        assert("donotdisturb"@ =~= seq!['d', 'o', 'n', 'o', 't', 'd', 'i', 's', 't', 'u', 'r', 'b']);
        assert("offline"@ =~= seq!['o', 'f', 'f', 'l', 'i', 'n', 'e']);
        assert("presenceunknown"@ =~= seq!['p', 'r', 'e', 's', 'e', 'n', 'c', 'e', 'u', 'n', 'k', 'n', 'o', 'w', 'n']);
    }
    if spells(&lo, "available") {
        Availability::Available
    } else if spells(&lo, "busy") {
        Availability::Busy
    } else if spells(&lo, "away") {
        Availability::Away
    } else if spells(&lo, "berightback") {
        Availability::BeRightBack
    } else if spells(&lo, "donotdisturb") {
        Availability::DoNotDisturb
    } else if spells(&lo, "offline") {
        Availability::Offline
    } else if spells(&lo, "presenceunknown") {
        Availability::PresenceUnknown
    } else {
        Availability::Unknown(owned(s))
    }
}

} // verus!
