//! rusteams — the verified core of a terminal client for Microsoft Teams.
pub mod config;
pub mod domain;
pub mod error;
pub mod text;
pub mod time;
pub mod app;
pub mod sanitize;
pub mod infra;
pub mod telemetry;
pub mod tui;
