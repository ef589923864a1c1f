//! Shortest Path Bridging (IEEE 802.1aq) computation for IS-IS.

pub mod bytes;
pub mod dataplane;
pub mod diff;
pub mod digest;
pub mod ect;
pub mod fdb;
pub mod isis;
pub mod laws;
pub mod mac;
pub mod mcast;
pub mod node;
pub mod northbound;
pub mod order;
pub mod ordmap;
pub mod region;
pub mod southbound;
pub mod spt;
pub mod stlv;
pub mod text;
pub mod topology;
pub mod tree;
pub mod wire;
