//! Protocol and deployment constants. Times are in seconds unless the name says
//! otherwise.

use vstd::prelude::*;

verus! {

/// Port of the control plane (HTTPS and WebSocket).
pub const DEFAULT_API_PORT: u16 = 24930;

/// Port of the UDP relay.
pub const DEFAULT_RELAY_UDP_PORT: u16 = 24931;

/// Port of the TCP relay.
pub const DEFAULT_RELAY_TCP_PORT: u16 = 24932;

/// Port on which a node listens for its peers, on UDP and TCP alike.
pub const DEFAULT_LISTEN_PORT: u16 = 24933;

/// MTU of the virtual interface.
pub const DEFAULT_MTU: u32 = 1300;

/// A peer counts as online for this long after it was last seen.
pub const PRESENCE_TIMEOUT: u64 = 45;

/// Heartbeat interval while nobody watches the admin page.
pub const HEARTBEAT_SLOW_SECS: u32 = 15;

/// Heartbeat interval while the admin page is being watched.
pub const HEARTBEAT_FAST_SECS: u32 = 5;

/// Shortest heartbeat interval that a node accepts from the server.
pub const HEARTBEAT_MIN_SECS: u32 = 5;

/// Longest heartbeat interval that a node accepts from the server.
pub const HEARTBEAT_MAX_SECS: u32 = 60;

/// How long one poll of the admin page counts as watching, in milliseconds.
pub const ADMIN_OBSERVER_TTL_MS: i64 = 12_000;

/// Interval of the pings that keep a path alive.
pub const PEER_PING_INTERVAL: u64 = 10;

/// Missed pings after which a direct path counts as dead.
pub const PEER_PING_MISS_LIMIT: u32 = 3;

/// Interval at which direct paths are probed.
pub const PATH_PROBE_INTERVAL: u64 = 5;

/// Prefix of a device token.
pub const DEVICE_TOKEN_PREFIX: &'static str = "skd_";

/// Prefix of an admin token.
pub const ADMIN_TOKEN_PREFIX: &'static str = "ska_";

/// Prefix of an enroll token.
pub const ENROLL_TOKEN_PREFIX: &'static str = "skk_";

/// Random bytes in the body of a token.
pub const TOKEN_RANDOM_BYTES: usize = 24;

/// Generation of the node protocol.
pub const PROTOCOL_VERSION: u32 = 1;

/// A receive buffer of this size holds any UDP datagram.
pub const UDP_BUFFER_SIZE: usize = 65535;

/// Longest payload of a length-prefixed TCP message.
pub const TCP_MAX_PAYLOAD: usize = 512 * 1024;

/// Longest piece of a stream that travels in one frame over TCP paths.
pub const FLOW_CHUNK: usize = 32 * 1024;

/// Longest piece of a stream that travels in one frame over UDP paths, chosen
/// so that a sealed and relayed frame is never fragmented.
pub const FLOW_CHUNK_UDP: usize = 1200;

/// Longest datagram that a datagram flow carries.
pub const FLOW_MAX_DATAGRAM: usize = 65_400;

} // verus!
