//! Core of a networked N-body simulation server: the world model, the wire
//! codec for the messages exchanged with clients, the adaptive step-count
//! controller of the physics loop, and the subscriber and command logic of the
//! broadcast server.
//!
//! Real-valued quantities are carried as their IEEE-754 bit patterns: nothing
//! in this crate does arithmetic on them, and the wire format transfers them
//! bit for bit.
pub mod bytes;
pub mod codec;
pub mod messages;
pub mod model;
pub mod scheduler;
pub mod server;
pub mod wire;
