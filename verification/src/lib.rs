//! A small STOMP message broker: the frame parser and codec, the peer
//! registry that decides where a frame goes, and the request a client frame
//! makes of the queues.

pub mod buffer;
pub mod text;
pub mod proto;
pub mod queue;
pub mod connection;
pub mod listener;
