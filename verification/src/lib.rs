//! Core of a minimal real-time chat relay: the message envelope and its
//! canonical text codec, an in-memory broadcast hub with bounded
//! best-effort delivery, the per-connection bridging decisions, and the
//! terminal client's state machine. Networking and terminal rendering
//! live outside this crate and talk to it through plain values.

pub mod chat;
pub mod client;
pub mod codec;
pub mod envelope;
pub mod handler;
pub mod hub;
pub mod input;
pub mod strutil;
