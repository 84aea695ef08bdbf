//! The concurrent maps of the node, each as calls into `dashmap`.
//!
//! Nothing here is proved: what a map holds has a name, and each function says
//! what is believed of the call that it makes.

use dashmap::DashMap;
use vstd::prelude::*;

use crate::engine::NetworkCtx;
use crate::flows::FlowCtx;
use crate::models::{ExposeRule, PathPolicy};
use crate::proxy::forwarders::{ClientFlow, ClientKey};
use crate::session::PeerSession;

verus! {

#[verifier::external_type_specification]
#[verifier::external_body]
#[verifier::reject_recursive_types(K)]
#[verifier::reject_recursive_types(V)]
#[verifier::reject_recursive_types(S)]
pub struct ExDashMap<K, V, S>(DashMap<K, V, S>);

/// Peers by network and device.
pub type PeerMap = DashMap<(u128, u64), PeerSession>;

/// What a map of peers holds.
pub uninterp spec fn peer_entries(table: PeerMap) -> Map<(u128, u64), PeerSession>;

/// `DashMap::new`: holds nothing.
#[verifier::external_body]
pub(crate) fn peers_new() -> (table: PeerMap)
    ensures
        peer_entries(table).dom() == Set::<(u128, u64)>::empty(),
{
    DashMap::new()
}

/// `DashMap::insert`: the entry is there, in place of an older one of that key.
#[verifier::external_body]
pub(crate) fn peers_insert(table: &mut PeerMap, key: (u128, u64), peer: PeerSession)
    ensures
        peer_entries(*final(table)) == peer_entries(*old(table)).insert(key, peer),
{
    table.insert(key, peer);
}

/// `DashMap::remove`: takes the entry of that key out, if there is one.
#[verifier::external_body]
pub(crate) fn peers_remove(table: &mut PeerMap, key: (u128, u64)) -> (peer: Option<PeerSession>)
    ensures
        peer_entries(*final(table)) == peer_entries(*old(table)).remove(key),
        peer == (if peer_entries(*old(table)).dom().contains(key) {
            Some(peer_entries(*old(table))[key])
        } else {
            None
        }),
{
    table.remove(&key).map(|entry| entry.1)
}

/// `DashMap::iter`, the keys alone: each key once, in an order that is left open.
#[verifier::external_body]
pub(crate) fn peers_keys(table: &PeerMap) -> (keys: Vec<(u128, u64)>)
    ensures
        keys@.no_duplicates(),
        keys@.to_set() == peer_entries(*table).dom(),
{
    table.iter().map(|entry| *entry.key()).collect()
}

/// Networks by the number of their identifier.
pub type NetworkMap = DashMap<u128, NetworkCtx>;

/// What a map of networks holds.
pub uninterp spec fn network_entries(table: NetworkMap) -> Map<u128, NetworkCtx>;

/// `DashMap::new`: holds nothing.
#[verifier::external_body]
pub(crate) fn networks_new() -> (table: NetworkMap)
    ensures
        network_entries(table).dom() == Set::<u128>::empty(),
{
    DashMap::new()
}

/// `DashMap::insert`: the entry is there, in place of an older one of that key.
#[verifier::external_body]
pub(crate) fn networks_insert(table: &mut NetworkMap, key: u128, network: NetworkCtx)
    ensures
        network_entries(*final(table)) == network_entries(*old(table)).insert(key, network),
{
    table.insert(key, network);
}

/// `DashMap::remove`: takes the entry of that key out, if there is one.
#[verifier::external_body]
pub(crate) fn networks_remove(table: &mut NetworkMap, key: u128) -> (network: Option<NetworkCtx>)
    ensures
        network_entries(*final(table)) == network_entries(*old(table)).remove(key),
        network == (if network_entries(*old(table)).dom().contains(key) {
            Some(network_entries(*old(table))[key])
        } else {
            None
        }),
{
    table.remove(&key).map(|entry| entry.1)
}

/// `DashMap::iter`, the keys alone: each key once, in an order that is left open.
#[verifier::external_body]
pub(crate) fn networks_keys(table: &NetworkMap) -> (keys: Vec<u128>)
    ensures
        keys@.no_duplicates(),
        keys@.to_set() == network_entries(*table).dom(),
{
    table.iter().map(|entry| *entry.key()).collect()
}

/// Policies by device.
pub type PolicyMap = DashMap<u64, PathPolicy>;

/// What a map of policies holds.
pub uninterp spec fn policy_entries(table: PolicyMap) -> Map<u64, PathPolicy>;

/// `DashMap::new`: holds nothing.
#[verifier::external_body]
pub(crate) fn policies_new() -> (table: PolicyMap)
    ensures
        policy_entries(table).dom() == Set::<u64>::empty(),
{
    DashMap::new()
}

/// `DashMap::insert`: the entry is there, in place of an older one of that key.
#[verifier::external_body]
pub(crate) fn policies_insert(table: &mut PolicyMap, device: u64, policy: PathPolicy)
    ensures
        policy_entries(*final(table)) == policy_entries(*old(table)).insert(device, policy),
{
    table.insert(device, policy);
}

/// `DashMap::get`: a copy of the entry of that key, if there is one.
#[verifier::external_body]
pub(crate) fn policies_get(table: &PolicyMap, device: u64) -> (policy: Option<PathPolicy>)
    ensures
        policy == (if policy_entries(*table).dom().contains(device) {
            Some(policy_entries(*table)[device])
        } else {
            None
        }),
{
    table.get(&device).map(|entry| *entry.value())
}

/// Flows by their id.
pub type FlowTable = DashMap<u32, FlowCtx>;

/// What a map of flows holds.
pub uninterp spec fn flow_entries(table: FlowTable) -> Map<u32, FlowCtx>;

/// `DashMap::new`: holds nothing.
#[verifier::external_body]
pub(crate) fn flows_new() -> (table: FlowTable)
    ensures
        flow_entries(table).dom() == Set::<u32>::empty(),
{
    DashMap::new()
}

/// `DashMap::insert`: the entry is there, in place of an older one of that key.
#[verifier::external_body]
pub(crate) fn flows_insert(table: &mut FlowTable, id: u32, flow: FlowCtx)
    ensures
        flow_entries(*final(table)) == flow_entries(*old(table)).insert(id, flow),
{
    table.insert(id, flow);
}

/// `DashMap::remove`: takes the entry of that key out, if there is one.
#[verifier::external_body]
pub(crate) fn flows_remove(table: &mut FlowTable, id: u32) -> (flow: Option<FlowCtx>)
    ensures
        flow_entries(*final(table)) == flow_entries(*old(table)).remove(id),
        flow == (if flow_entries(*old(table)).dom().contains(id) {
            Some(flow_entries(*old(table))[id])
        } else {
            None
        }),
{
    table.remove(&id).map(|entry| entry.1)
}

/// `DashMap::get`: a copy of the entry of that key, if there is one.
#[verifier::external_body]
pub(crate) fn flows_get(table: &FlowTable, id: u32) -> (flow: Option<FlowCtx>)
    ensures
        flow == (if flow_entries(*table).dom().contains(id) {
            Some(flow_entries(*table)[id])
        } else {
            None
        }),
{
    table.get(&id).map(|entry| *entry.value())
}

/// `DashMap::iter`, the keys alone: each key once, in an order that is left open.
#[verifier::external_body]
pub(crate) fn flows_keys(table: &FlowTable) -> (ids: Vec<u32>)
    ensures
        ids@.no_duplicates(),
        ids@.to_set() == flow_entries(*table).dom(),
{
    table.iter().map(|entry| *entry.key()).collect()
}

/// Flow ids, with nothing more to each.
pub type IdTable = DashMap<u32, ()>;

/// The ids that such a map holds.
pub uninterp spec fn held_ids(table: IdTable) -> Set<u32>;

/// `DashMap::new`: holds nothing.
#[verifier::external_body]
pub(crate) fn ids_new() -> (table: IdTable)
    ensures
        held_ids(table) == Set::<u32>::empty(),
{
    DashMap::new()
}

/// `DashMap::insert`: the id is there, and whether it was before comes back.
#[verifier::external_body]
pub(crate) fn ids_insert(table: &mut IdTable, id: u32) -> (was_there: bool)
    ensures
        held_ids(*final(table)) == held_ids(*old(table)).insert(id),
        was_there == held_ids(*old(table)).contains(id),
{
    table.insert(id, ()).is_some()
}

/// `DashMap::remove`: the id is gone.
#[verifier::external_body]
pub(crate) fn ids_remove(table: &mut IdTable, id: u32)
    ensures
        held_ids(*final(table)) == held_ids(*old(table)).remove(id),
{
    table.remove(&id);
}

/// Services by network.
pub type ExposeTable = DashMap<u128, Vec<ExposeRule>>;

/// What a map of services holds.
pub uninterp spec fn expose_entries(table: ExposeTable) -> Map<u128, Vec<ExposeRule>>;

/// `DashMap::new`: holds nothing.
#[verifier::external_body]
pub(crate) fn exposes_new() -> (table: ExposeTable)
    ensures
        expose_entries(table).dom() == Set::<u128>::empty(),
{
    DashMap::new()
}

/// `DashMap::insert`: the entry is there, in place of an older one of that key.
#[verifier::external_body]
pub(crate) fn exposes_insert(table: &mut ExposeTable, network: u128, rules: Vec<ExposeRule>)
    ensures
        expose_entries(*final(table)) == expose_entries(*old(table)).insert(network, rules),
{
    table.insert(network, rules);
}

/// `DashMap::remove`: takes the entry of that key out, if there is one.
#[verifier::external_body]
pub(crate) fn exposes_remove(table: &mut ExposeTable, network: u128) -> (rules: Option<
    Vec<ExposeRule>,
>)
    ensures
        expose_entries(*final(table)) == expose_entries(*old(table)).remove(network),
        rules == (if expose_entries(*old(table)).dom().contains(network) {
            Some(expose_entries(*old(table))[network])
        } else {
            None
        }),
{
    table.remove(&network).map(|entry| entry.1)
}

/// Clients of a port for datagrams by their address.
pub type ClientMap = DashMap<ClientKey, ClientFlow>;

/// What a map of clients holds.
pub uninterp spec fn client_entries(table: ClientMap) -> Map<ClientKey, ClientFlow>;

/// `DashMap::new`: holds nothing.
#[verifier::external_body]
pub(crate) fn clients_new() -> (table: ClientMap)
    ensures
        client_entries(table).dom() == Set::<ClientKey>::empty(),
{
    DashMap::new()
}

/// `DashMap::insert`: the entry is there, in place of an older one of that key.
#[verifier::external_body]
pub(crate) fn clients_insert(table: &mut ClientMap, key: ClientKey, flow: ClientFlow)
    ensures
        client_entries(*final(table)) == client_entries(*old(table)).insert(key, flow),
{
    table.insert(key, flow);
}

/// `DashMap::remove`: takes the entry of that key out, if there is one.
#[verifier::external_body]
pub(crate) fn clients_remove(table: &mut ClientMap, key: ClientKey)
    ensures
        client_entries(*final(table)) == client_entries(*old(table)).remove(key),
{
    table.remove(&key);
}

/// `DashMap::get`: the entry of that key, if there is one.
#[verifier::external_body]
pub(crate) fn clients_get(table: &ClientMap, key: ClientKey) -> (flow: Option<ClientFlow>)
    ensures
        flow == (if client_entries(*table).dom().contains(key) {
            Some(client_entries(*table)[key])
        } else {
            None
        }),
{
    table.get(&key).map(|entry| *entry.value())
}

/// `DashMap::iter`, the keys alone: each key once, in an order that is left open.
#[verifier::external_body]
pub(crate) fn clients_keys(table: &ClientMap) -> (keys: Vec<ClientKey>)
    ensures
        keys@.no_duplicates(),
        keys@.to_set() == client_entries(*table).dom(),
{
    table.iter().map(|entry| *entry.key()).collect()
}

} // verus!
