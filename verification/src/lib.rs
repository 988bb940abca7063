//! The decisions of a message router and of the services behind it.
//!
//! The router takes messages apart that come over a socket in parts, and says what to send where.
//! Requests go to the server that has registered for their shard, replies back by the hops of their
//! requests. Nothing here touches a socket: whoever does hands in what was received and performs
//! what is asked for.

pub mod application;
pub mod bytes;
pub mod envelope;
pub mod error;
pub mod frame;
pub mod laws;
pub mod message;
pub mod record;
pub mod registry;
pub mod routesrv;
pub mod server;
pub mod wire;
