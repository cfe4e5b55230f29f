//! Sending side of a packet transport: messages are split into fragments,
//! queued on lanes, and flushed out as sequenced packets.

pub mod frag;
pub mod lane;
pub mod laws;
pub mod limit;
pub mod model;
pub mod octets;
pub mod order;
pub mod packet;
pub mod packing;
pub mod promises;
pub mod queue;
pub mod recv;
pub mod rtt;
pub mod send;
pub mod size;
pub mod time;
pub mod trace;
pub mod transport;
pub mod wire;
