//! Terminal UI models: composer, palette, confirmations, key bindings,
//! notices and the read panes' text. Drawing itself belongs to the program.
pub mod app;
pub mod compose;
pub mod confirm;
pub mod keys;
pub mod notify;
pub mod submit;
