//! A small IPv4 address-arithmetic library: dotted-decimal addresses to and
//! from their 32-bit binary form, subnet masks from prefix lengths, network
//! and broadcast addresses, and CIDR range membership. Every operation is a
//! pure function whose behaviour is stated in its contract; `laws` proves
//! the properties that relate them.

pub mod ip;
pub mod laws;
pub mod model;
