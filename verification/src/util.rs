//! Plain network data: ports, rules, pods and the topology.
pub mod bdd_table;
pub mod device_port;
pub mod forward_action;
pub mod ip_text;
pub mod layer_cache;
pub mod name_map;
pub mod network;
pub mod npbdd;
pub mod pod;
pub mod rule;
pub mod space_port;
pub mod text;
