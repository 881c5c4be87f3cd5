//! A source-routed overlay video client: fragment reassembly with per-fragment
//! acknowledgements, retransmission on loss, topology discovery by flooding,
//! shortest-path routing, and in-order delivery of video chunks.

pub mod channel;
pub mod chunks;
pub mod client;
pub mod codec;
pub mod laws;
pub mod message;
pub mod network;
pub mod packet;
pub mod topology;
pub mod wire;
