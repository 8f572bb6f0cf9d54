//! A small multi-user text chat: the wire framing, the participant registry
//! and the host's broadcast decisions, verified.

pub mod codec;
pub mod host;
pub mod messages;
pub mod names;
pub mod registry;
pub mod session;
pub mod wire;
