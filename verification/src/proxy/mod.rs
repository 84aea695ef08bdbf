//! How programs on this machine reach the peers.

pub mod forwarders;
pub mod socks5;
