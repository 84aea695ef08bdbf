//! Keys, tokens and the replay window.

pub mod node_keys;
pub mod primitives;
pub mod replay;
pub mod session_keys;
pub mod tokens;
