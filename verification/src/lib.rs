//! Core of a chat/room backend: a durable ordered message store, an
//! in-process publish/subscribe bus, a presence tracker, room messaging
//! orchestration, and a token-bucket rate limiter.

pub mod bus;
pub mod clock;
pub mod digits;
pub mod presence;
pub mod rate;
pub mod record;
pub mod rooms;
pub mod rpc;
pub mod store;
pub mod text;
pub mod types;
