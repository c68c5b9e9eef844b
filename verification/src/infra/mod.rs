//! Adapters to outside services (Microsoft Graph, Entra ID).
pub mod auth;
pub mod graph;
