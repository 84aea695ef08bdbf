//! Starskiff: the rules of a small mesh network, verified.

pub mod addr;
pub mod consts;
pub mod control;
pub mod crypto;
pub mod endec;
pub mod engine;
pub mod enroll;
pub mod flows;
pub mod heartbeat;
pub mod ipam;
pub mod logging;
pub mod models;
pub mod net_if;
pub mod node;
pub mod node_config;
pub mod platform;
pub mod protocol;
pub mod proxy;
pub mod runtime;
pub mod secret;
pub mod secretbox;
pub mod service_install;
pub mod session;
pub mod status;
pub mod supervisor;
pub mod tables;
pub mod text;
pub mod tls_verifier;
pub mod transport;
pub mod ws_events;
