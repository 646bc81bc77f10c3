//! Session bridge between a message-oriented network connection and a
//! pseudo-terminal: control-protocol codec, session registry and reaper,
//! latency tracking, and the per-session relay state machine.

pub mod bridge;
pub mod client;
pub mod codec;
pub mod control_plane;
pub mod integrations;
pub mod latency;
pub mod registry;
pub mod session;
