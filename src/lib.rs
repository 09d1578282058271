//! Address arithmetic, CIDR masks, networks and the fixed IPv4 / IPv6 header
//! layouts, with their behaviour stated as contracts and proved.
pub mod address;
pub mod bitmask;
pub mod header;
pub mod network;
pub mod numeral;
pub mod types;
