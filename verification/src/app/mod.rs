//! Application state, commands and events, connection lifecycle, shutdown
//! signal and the polling sync engine's decisions.
pub mod app_state;
pub mod connection;
pub mod reducer;
pub mod shutdown;
pub mod sync;
