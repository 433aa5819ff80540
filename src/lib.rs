//! A full-mesh gossip overlay node: the wire codec, the protocol messages,
//! the per-connection frame handling and the node's membership state machine.
//! Sockets, timers and the command line live outside this library: they feed
//! it bytes and events and carry out the actions it returns.

pub mod addr;
pub mod codec;
pub mod peer;
