//! Local ports whose traffic goes to a service of a peer. Each client of a port
//! for datagrams has a flow of its own, which ends when the client is silent.

use vstd::prelude::*;

use crate::addr;
use crate::addr::{parse_socket, SocketAddr, SocketView};
use crate::models::ForwardRule;
use crate::tables;
use crate::tables::{clients_get, clients_insert, clients_keys, clients_new, clients_remove, ClientMap};
use crate::text::same_text;

verus! {

/// Milliseconds of silence after which a flow of datagrams ends.
pub const UDP_IDLE_MS: i64 = 5 * 60 * 1000;

/// Seconds between two looks for silent clients.
pub const UDP_SWEEP: u64 = 30;

/// A forwarding rule, read.
#[derive(Debug, Clone, Copy)]
pub struct ForwardPlan {
    pub udp: bool,
    pub listen: SocketAddr,
    pub dest: SocketAddr,
}

/// Reads a forwarding rule.
pub fn plan_rule(rule: &ForwardRule) -> (plan: Option<ForwardPlan>)
    ensures
        plan is Some == (addr::socket_value(rule.listen@) is Some && addr::socket_value(rule.dest@) is Some),
        plan matches Some(p) ==> {
            &&& Some(p.listen@) == addr::socket_value(rule.listen@)
            &&& Some(p.dest@) == addr::socket_value(rule.dest@)
            &&& p.udp == (rule.proto@ == "udp"@)
        },
{
    match (parse_socket(rule.listen.as_str()), parse_socket(rule.dest.as_str())) {
        (Some(listen), Some(dest)) => Some(
            ForwardPlan { udp: same_text(rule.proto.as_str(), "udp"), listen, dest },
        ),
        _ => None,
    }
}

/// The address in the virtual network that a rule leads to: IPv4 alone.
pub fn virtual_target(dest: &SocketAddr) -> (ip: Option<u32>)
    ensures
        ip == (match dest@ {
            SocketView::V4 { ip, .. } => Some(ip),
            SocketView::V6 { .. } => None,
        }),
{
    match dest {
        SocketAddr::V4 { ip, .. } => Some(*ip),
        SocketAddr::V6 { .. } => None,
    }
}

/// What a client of a port for datagrams has.
#[derive(Debug, Clone, Copy)]
pub struct ClientFlow {
    pub flow_id: u32,
    pub last_seen_ms: i64,
}

/// The address of a client as numbers: the version of the protocol, an IPv4 address,
/// the eight groups of an IPv6 address, its scope, and the port.
pub type ClientKey = (u8, u32, (u16, u16, u16, u16), (u16, u16, u16, u16), u32, u16);

/// The address of a client as numbers.
pub open spec fn client_key(client: SocketView) -> ClientKey {
    match client {
        SocketView::V4 { ip, port } => (4, ip, (0, 0, 0, 0), (0, 0, 0, 0), 0, port),
        SocketView::V6 { groups: g, scope, port } => (
            6,
            0,
            (g[0], g[1], g[2], g[3]),
            (g[4], g[5], g[6], g[7]),
            scope,
            port,
        ),
    }
}

fn key_of(client: &SocketAddr) -> (key: ClientKey)
    ensures
        key == client_key(client@),
{
    match client {
        SocketAddr::V4 { ip, port } => (4, *ip, (0, 0, 0, 0), (0, 0, 0, 0), 0, *port),
        SocketAddr::V6 { groups: g, scope, port } => (
            6,
            0,
            (g[0], g[1], g[2], g[3]),
            (g[4], g[5], g[6], g[7]),
            *scope,
            *port,
        ),
    }
}

/// No two addresses have the same numbers, so no client takes the place of another.
pub proof fn lemma_clients_are_apart(a: SocketAddr, b: SocketAddr)
    ensures
        client_key(a@) == client_key(b@) ==> a@ == b@,
{
    if client_key(a@) == client_key(b@) {
        match (a, b) {
            (SocketAddr::V6 { groups: g, .. }, SocketAddr::V6 { groups: h, .. }) => {
                assert(g@ =~= h@);
            },
            _ => {},
        }
    }
}

/// The client has been silent for too long.
pub open spec fn is_idle(c: ClientFlow, now_ms: i64) -> bool {
    now_ms - c.last_seen_ms >= UDP_IDLE_MS
}

/// The clients that have been silent for too long.
pub open spec fn idle_clients(all: Map<ClientKey, ClientFlow>, now_ms: i64) -> Set<ClientKey> {
    all.dom().filter(|k: ClientKey| is_idle(all[k], now_ms))
}

/// The list names the flows of these clients, each client once, in some order.
pub open spec fn names_flows(
    flows: Seq<u32>,
    all: Map<ClientKey, ClientFlow>,
    clients: Set<ClientKey>,
) -> bool {
    exists|keys: Seq<ClientKey>|
        #![trigger keys.to_set()]
        keys.no_duplicates() && keys.to_set() == clients && flows == flows_of(all, keys)
}

/// The flows of clients, in order.
pub open spec fn flows_of(all: Map<ClientKey, ClientFlow>, keys: Seq<ClientKey>) -> Seq<u32> {
    Seq::new(keys.len(), |i: int| all[keys[i]].flow_id)
}

/// The clients of a port for datagrams.
pub struct ClientTable {
    clients: ClientMap,
}

impl View for ClientTable {
    type V = Map<ClientKey, ClientFlow>;

    closed spec fn view(&self) -> Map<ClientKey, ClientFlow> {
        tables::client_entries(self.clients)
    }
}

impl ClientTable {
    /// There are none yet.
    pub fn new() -> (t: ClientTable)
        ensures
            t@ == Map::<ClientKey, ClientFlow>::empty(),
    {
        let t = ClientTable { clients: clients_new() };
        assert(t@ =~= Map::<ClientKey, ClientFlow>::empty());
        t
    }

    /// A datagram has come from a client: takes note of the time, and gives its
    /// flow if it has one.
    pub fn touch(&mut self, client: &SocketAddr, now_ms: i64) -> (flow: Option<u32>)
        ensures
            if old(self)@.dom().contains(client_key(client@)) {
                let before = old(self)@[client_key(client@)];
                &&& flow == Some(before.flow_id)
                &&& final(self)@ == old(self)@.insert(
                    client_key(client@),
                    ClientFlow { last_seen_ms: now_ms, ..before },
                )
            } else {
                flow is None && final(self)@ == old(self)@
            },
    {
        let key = key_of(client);
        match clients_get(&self.clients, key) {
            Some(before) => {
                clients_insert(
                    &mut self.clients,
                    key,
                    ClientFlow { flow_id: before.flow_id, last_seen_ms: now_ms },
                );
                Some(before.flow_id)
            },
            None => None,
        }
    }

    /// Takes note of a new client.
    pub fn insert(&mut self, client: &SocketAddr, flow_id: u32, now_ms: i64)
        ensures
            final(self)@ == old(self)@.insert(
                client_key(client@),
                ClientFlow { flow_id, last_seen_ms: now_ms },
            ),
    {
        clients_insert(
            &mut self.clients,
            key_of(client),
            ClientFlow { flow_id, last_seen_ms: now_ms },
        );
    }

    /// Drops the clients that have been silent for too long. Their flows come back,
    /// to be ended.
    pub fn sweep(&mut self, now_ms: i64) -> (flows: Vec<u32>)
        ensures
            final(self)@ == old(self)@.remove_keys(idle_clients(old(self)@, now_ms)),
            names_flows(flows@, old(self)@, idle_clients(old(self)@, now_ms)),
    {
        let ghost before = self@;
        let keys = clients_keys(&self.clients);
        let mut flows: Vec<u32> = Vec::new();
        let ghost mut gone: Seq<ClientKey> = Seq::empty();
        let mut i: usize = 0;
        assert(self@ =~= before.remove_keys(gone.to_set()));
        while i < keys.len()
            invariant
                i <= keys@.len(),
                keys@.no_duplicates(),
                keys@.to_set() == before.dom(),
                gone.no_duplicates(),
                forall|k: ClientKey| #[trigger]
                    gone.contains(k) <==> keys@.take(i as int).contains(k) && is_idle(before[k], now_ms),
                flows@ == flows_of(before, gone),
                self@ == before.remove_keys(gone.to_set()),
            decreases keys@.len() - i,
        {
            let key = keys[i];
            proof {
                assert(keys@.contains(key));
                assert(before.dom().contains(key));
                assert(!keys@.take(i as int).contains(key));
                assert(keys@.take(i + 1) =~= keys@.take(i as int).push(key));
                lemma_push_contains(keys@.take(i as int), key);
                lemma_push_contains(gone, key);
                assert(!gone.contains(key));
            }
            if let Some(flow) = clients_get(&self.clients, key) {
                assert(flow == before[key]);
                if now_ms as i128 - flow.last_seen_ms as i128 >= UDP_IDLE_MS as i128 {
                    clients_remove(&mut self.clients, key);
                    flows.push(flow.flow_id);
                    proof {
                        let more = gone.push(key);
                        assert(flows@ =~= flows_of(before, more));
                        assert(more.no_duplicates());
                        assert(more.to_set() =~= gone.to_set().insert(key));
                        assert(self@ =~= before.remove_keys(more.to_set()));
                        gone = more;
                    }
                }
            }
            i += 1;
        }
        proof {
            assert(keys@.take(i as int) =~= keys@);
            assert forall|k: ClientKey| gone.to_set().contains(k) == idle_clients(before, now_ms).contains(k) by {
                assert(keys@.to_set().contains(k) == keys@.contains(k));
            }
            assert(gone.to_set() =~= idle_clients(before, now_ms));
        }
        flows
    }
}

proof fn lemma_push_contains(s: Seq<ClientKey>, key: ClientKey)
    ensures
        forall|k: ClientKey| #[trigger] s.push(key).contains(k) <==> s.contains(k) || k == key,
{
    assert forall|k: ClientKey| #[trigger] s.push(key).contains(k) <==> s.contains(k) || k == key by {
        if s.contains(k) {
            let j = choose|j: int| 0 <= j < s.len() && s[j] == k;
            assert(s.push(key)[j] == k);
        }
        if k == key {
            assert(s.push(key)[s.len() as int] == k);
        }
        if s.push(key).contains(k) && k != key {
            let j = choose|j: int| 0 <= j < s.push(key).len() && s.push(key)[j] == k;
            assert(s[j] == k);
        }
    }
}

/// A client that was heard of lately stays, and its flow with it.
pub proof fn lemma_fresh_client_stays(
    all: Map<ClientKey, ClientFlow>,
    client: SocketView,
    flow: ClientFlow,
    now_ms: i64,
)
    requires
        !is_idle(flow, now_ms),
    ensures
        ({
            let after = all.insert(client_key(client), flow);
            let swept = after.remove_keys(idle_clients(after, now_ms));
            swept.dom().contains(client_key(client)) && swept[client_key(client)] == flow
        }),
{
}

/// A client is dropped once it has been silent for five minutes, and not before. One that
/// is heard of again starts over.
pub proof fn lemma_silent_clients_are_dropped(
    all: Map<ClientKey, ClientFlow>,
    key: ClientKey,
    now_ms: i64,
)
    requires
        all.dom().contains(key),
    ensures
        ({
            let swept = all.remove_keys(idle_clients(all, now_ms));
            &&& now_ms - all[key].last_seen_ms >= 300_000 ==> !swept.dom().contains(key)
            &&& now_ms - all[key].last_seen_ms < 300_000 ==> swept.dom().contains(key) && swept[key] == all[key]
        }),
{
}

/// The flows that come back are those of the clients that were dropped, and no others.
pub proof fn lemma_flows_of_the_dropped(
    flows: Seq<u32>,
    all: Map<ClientKey, ClientFlow>,
    clients: Set<ClientKey>,
    flow_id: u32,
)
    requires
        names_flows(flows, all, clients),
    ensures
        flows.contains(flow_id) <==> exists|k: ClientKey| #[trigger] clients.contains(k) && all[k].flow_id == flow_id,
{
    let keys = choose|keys: Seq<ClientKey>|
        #![trigger keys.to_set()]
        keys.no_duplicates() && keys.to_set() == clients && flows == flows_of(all, keys);
    if flows.contains(flow_id) {
        let i = choose|i: int| 0 <= i < flows.len() && flows[i] == flow_id;
        assert(keys.contains(keys[i]));
        assert(clients.contains(keys[i]));
    }
    if exists|k: ClientKey| #[trigger] clients.contains(k) && all[k].flow_id == flow_id {
        let k = choose|k: ClientKey| #[trigger] clients.contains(k) && all[k].flow_id == flow_id;
        assert(keys.contains(k));
        let i = choose|i: int| 0 <= i < keys.len() && keys[i] == k;
        assert(flows[i] == flow_id);
    }
}

} // verus!
