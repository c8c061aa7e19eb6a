//! Core of an in-process chat/broadcast service: a connection registry with
//! room-scoped fan-out, per-connection session logic that frames messages as
//! JSON, a handshake-gated ping endpoint, and a process-wide broadcast
//! counter.

pub mod frames;
pub mod pingpong;
pub mod registry;
pub mod session;
