//! Domain model: chats, messages, ordering, threads, presence, rich bodies.
pub mod chat;
pub mod message;
pub mod order;
pub mod presence;
pub mod rich;
pub mod thread;
