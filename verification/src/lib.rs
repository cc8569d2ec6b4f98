//! Data-plane reachability verification over symbolic packet spaces.
//!
//! Forwarding tables are compiled into disjoint per-port header sets held as
//! binary decision diagrams, and reachability between edge devices is decided
//! by propagating header sets through the topology until nothing new arrives.
pub mod kernel;
pub mod simulator;
pub mod memo;
pub mod util;
pub mod symbolic;
