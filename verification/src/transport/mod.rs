//! How frames travel: what the sockets carry, and what is made of it.

pub mod peer_tcp;
pub mod relay_tcp;
pub mod udp_mesh;
