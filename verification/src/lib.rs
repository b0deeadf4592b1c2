//! A room-scoped broadcast relay: connections are grouped into named rooms and
//! every inbound message is fanned out to the other members of its room.

pub mod auth;
pub mod connection;
pub mod frame;
pub mod graph_ql;
pub mod grpc;
pub mod laws;
pub mod lifecycle;
pub mod queue;
pub mod registry;
pub mod relay;
pub mod simd;
