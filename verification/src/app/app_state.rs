//! Connection lifecycle states.
use vstd::prelude::*;

verus! {

/// Where the client stands with the service.
#[derive(Debug, Default, Clone, Copy, PartialEq, Eq, Structural)]
pub enum ConnectionState {
    Connected,
    Degraded,
    #[default]
    Disconnected,
    Reconnecting,
    Syncing,
}

} // verus!
