//! A small pipelined HTTP/1.1 chat server library.
//!
//! The crate decodes the wire protocol from raw bytes, routes decoded
//! requests through a method + path-pattern table, and keeps the chat
//! state (contact lists, chat rooms, message logs). All of that logic is
//! verified; socket polling and JSON payload conversion live in the
//! surrounding application.

pub mod chat_service;
pub mod dispatch;
pub mod messages;
pub mod parse;
pub mod parse_laws;
pub mod router;
pub mod server;
pub mod text;

pub use router::Router;
pub use server::Server;
