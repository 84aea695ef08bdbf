//! The kinds of events that the server pushes.

use vstd::prelude::*;

verus! {

pub const PEERS_CHANGED: &'static str = "peers_changed";

pub const DEVICE_ONLINE: &'static str = "device_online";

pub const DEVICE_OFFLINE: &'static str = "device_offline";

pub const CONFIG_CHANGED: &'static str = "config_changed";

/// The settings of the device have a new revision.
pub const SETTINGS_CHANGED: &'static str = "settings_changed";

/// An administrator asks the node to restart.
pub const RESTART_REQUESTED: &'static str = "restart_requested";

/// An administrator asks the node to register anew and to refresh its peers.
pub const RECONNECT_REQUESTED: &'static str = "reconnect_requested";

/// The networks that the device belongs to have changed.
pub const NETWORKS_CHANGED: &'static str = "networks_changed";

/// The event channel stands. The client makes this one up itself.
pub const CONNECTED: &'static str = "connected";

} // verus!
