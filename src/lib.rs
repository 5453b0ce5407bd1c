//! Synchronization core of a real-time position-sharing server: the shared
//! player registry with bounded per-player snapshot histories and per-viewer
//! delivery tracking, and the per-connection session state machine.

pub mod laws;
pub mod message;
pub mod registry;
pub mod session;
pub mod snapshot;
