//! The byte formats that nodes and relays speak.

pub mod budget;
pub mod flow;
pub mod relay_tcp;
pub mod relay_udp;
pub mod wire;
