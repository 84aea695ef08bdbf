//! The peers of a node in all its networks.
//!
//! Session keys depend on the network, so a device that shares several networks
//! with the node has one session in each. A frame does not say which network it
//! belongs to: the sessions of its sender are tried in turn, and a session that
//! cannot open the frame is left as it was.

use std::collections::{HashMap, HashSet};

use vstd::prelude::*;

use crate::addr::{ipv4_to_text, parse_ipv4, parse_socket, parse_u64, SocketAddr, SocketView};
use crate::consts::{FLOW_CHUNK, FLOW_CHUNK_UDP};
use crate::crypto::primitives::{hex_decode, AEAD_MAX_MESSAGE};
use crate::crypto::session_keys::SessionKeys;
use crate::endec::{to_array, write_u64_le};
use crate::ipam::Cidr;
use crate::heartbeat::{loss_permille, rate_bps, HbCounters};
use crate::models::{
    NetId, PathPolicy, PeerInfo, PeerPathReport, PeerPolicy, PeerStatus,
};
use crate::text;
use crate::text::owned;
use crate::protocol::wire::{
    CodecView, RawFrame, FIXED_HEADER, FRAME_DATA, FRAME_FLOW, FRAME_PING, FRAME_PONG, TAG_SIZE,
};
use crate::session::{Arrival, PathKind, PeerSession, PeerView, PongEffect, Route, TcpProbe};
use crate::tables::{
    networks_insert, networks_keys, networks_new, networks_remove, peers_insert, peers_keys, peers_new,
    peers_remove, policies_get, policies_insert, policies_new, NetworkMap, PeerMap, PolicyMap,
};
use crate::addr;
use crate::crypto::primitives;
use crate::crypto::session_keys;
use crate::endec;
use crate::heartbeat;
use crate::ipam;
use crate::models;
use crate::protocol::wire;
use crate::session;
use crate::tables;

verus! {

/// A network that the node takes part in.
pub struct NetworkCtx {
    pub id: NetId,
    pub name: String,
    pub cidr: Option<Cidr>,
    /// The node's own address in the network.
    pub self_ip: Option<u32>,
    /// Devices by their address in the network.
    pub ip_map: HashMap<u32, u64>,
}

/// A network, as values.
pub ghost struct NetworkView {
    pub id: NetId,
    pub name: Seq<char>,
    pub cidr: Option<Cidr>,
    pub self_ip: Option<u32>,
    pub ip_map: Map<u32, u64>,
}

impl View for NetworkCtx {
    type V = NetworkView;

    open spec fn view(&self) -> NetworkView {
        NetworkView {
            id: self.id,
            name: self.name@,
            cidr: self.cidr,
            self_ip: self.self_ip,
            ip_map: self.ip_map@,
        }
    }
}

/// What the node knows of its networks and peers.
pub ghost struct MeshView {
    pub device_id: u64,
    pub dh_priv: Seq<u8>,
    pub dh_pub: Seq<u8>,
    pub peers: Map<(u128, u64), PeerView>,
    pub networks: Map<u128, NetworkView>,
    pub policy: PathPolicy,
    pub overrides: Map<u64, PathPolicy>,
    pub stopping: bool,
}

/// The key of a peer.
pub open spec fn peer_key(network: NetId, device: u64) -> (u128, u64) {
    (network.key() as u128, device)
}

impl MeshView {
    /// What holds of every mesh: entries stand under their own keys, and the
    /// codecs are in order.
    pub open spec fn wf(self) -> bool {
        &&& forall|k: (u128, u64)| #[trigger]
            self.peers.dom().contains(k) ==> {
                &&& k == peer_key(self.peers[k].network, self.peers[k].id)
                &&& self.peers[k].codec.valid()
                &&& self.peers[k].codec.boot.len() == 16
            }
        &&& forall|n: u128| #[trigger]
            self.networks.dom().contains(n) ==> n == self.networks[n].id.key()
    }

    /// The policy for a device: its own, or the general one.
    pub open spec fn policy_for(self, device: u64) -> PathPolicy {
        if self.overrides.dom().contains(device) {
            self.overrides[device]
        } else {
            self.policy
        }
    }

    /// Whether the session `k` hands out the content of a packet.
    pub open spec fn opens(self, k: (u128, u64), packet: Seq<u8>) -> bool {
        &&& self.peers.dom().contains(k)
        &&& self.peers[k].codec.has_room()
        &&& self.peers[k].codec.open_step(packet).1 is Some
    }

    /// The mesh with another value for one peer.
    pub open spec fn with_peer(self, k: (u128, u64), p: PeerView) -> MeshView {
        MeshView { peers: self.peers.insert(k, p), ..self }
    }
}

/// The networks and peers of the node.
pub struct Mesh {
    device_id: u64,
    dh_priv: [u8; 32],
    dh_pub: [u8; 32],
    peers: PeerMap,
    networks: NetworkMap,
    path_policy: PathPolicy,
    peer_policies: PolicyMap,
    stopping: bool,
}

/// Peers, as values.
pub open spec fn peers_view(m: Map<(u128, u64), PeerSession>) -> Map<(u128, u64), PeerView> {
    m.map_values(|p: PeerSession| p@)
}

/// Networks, as values.
pub open spec fn networks_view(m: Map<u128, NetworkCtx>) -> Map<u128, NetworkView> {
    m.map_values(|n: NetworkCtx| n@)
}

impl View for Mesh {
    type V = MeshView;

    closed spec fn view(&self) -> MeshView {
        MeshView {
            device_id: self.device_id,
            dh_priv: self.dh_priv@,
            dh_pub: self.dh_pub@,
            peers: peers_view(tables::peer_entries(self.peers)),
            networks: networks_view(tables::network_entries(self.networks)),
            policy: self.path_policy,
            overrides: tables::policy_entries(self.peer_policies),
            stopping: self.stopping,
        }
    }
}

/// What a frame asks for.
#[derive(Debug)]
pub enum InboundEvent {
    /// Send this frame back the way the other came.
    Reply { frame: Vec<u8> },
    Pong { effect: PongEffect },
    /// A packet for the virtual interface.
    Data { payload: Vec<u8> },
    /// A message for the streams.
    Flow { payload: Vec<u8> },
    Nothing,
}

/// A frame that was opened.
#[derive(Debug)]
pub struct Inbound {
    pub network: NetId,
    pub peer: u64,
    /// Whether the connection that the frame came over now carries frames to the
    /// peer.
    pub link_risen: bool,
    pub event: InboundEvent,
}

/// A frame to send.
#[derive(Debug)]
pub struct Outbound {
    pub frame: Vec<u8>,
    pub route: Route,
    pub policy: PathPolicy,
    /// The number of dropped frames, where it is to be logged.
    pub logged: Option<u64>,
}

/// The codec after one more frame was sealed.
pub open spec fn counted(c: CodecView) -> CodecView {
    CodecView { counter: (c.counter + 1) as u64, ..c }
}

/// The peer after a frame was taken in, before its content is looked at.
pub open spec fn noticed(p: PeerView, arrival: Arrival, bytes: u64, policy: PathPolicy) -> PeerView {
    match arrival {
        Arrival::DirectTcp { conn } => p.with_rx(bytes).with_link(conn, policy),
        _ => p.with_rx(bytes),
    }
}

/// The peer after the content of a frame was dealt with.
pub open spec fn received(
    p: PeerView,
    arrival: Arrival,
    frame_type: u8,
    payload: Seq<u8>,
    bytes: u64,
    policy: PathPolicy,
    now_ms: i64,
) -> PeerView {
    let q = noticed(p, arrival, bytes, policy);
    if frame_type == FRAME_PING {
        if q.codec.counter < u64::MAX {
            PeerView { codec: counted(q.codec), ..q }.with_tx(bytes)
        } else {
            q
        }
    } else if frame_type == FRAME_PONG {
        q.with_pong(arrival, payload, policy, now_ms)
    } else {
        q
    }
}

/// What the content of a frame asks for.
pub open spec fn event_matches(
    event: InboundEvent,
    p: PeerView,
    arrival: Arrival,
    frame_type: u8,
    payload: Seq<u8>,
    bytes: u64,
    policy: PathPolicy,
    device_id: u64,
) -> bool {
    let q = noticed(p, arrival, bytes, policy);
    if frame_type == FRAME_PING && q.codec.counter < u64::MAX {
        event matches InboundEvent::Reply { frame } && wire::is_next_frame(
            q.codec,
            frame@,
            device_id,
            FRAME_PONG,
            payload,
        )
    } else if frame_type == FRAME_PONG {
        event matches InboundEvent::Pong { effect } && effect == (if arrival is DirectUdp && session::allows(
            policy,
            PathKind::DirectUdp,
        ) {
            if q.path != PathKind::DirectUdp {
                PongEffect::Up
            } else if q.direct is None {
                PongEffect::UpPinned
            } else {
                PongEffect::Nothing
            }
        } else {
            PongEffect::Nothing
        })
    } else if frame_type == FRAME_DATA {
        event matches InboundEvent::Data { payload: content } && content@ == payload
    } else if frame_type == FRAME_FLOW {
        event matches InboundEvent::Flow { payload: content } && content@ == payload
    } else {
        event is Nothing
    }
}

/// Deals with a frame from a peer that its codec has opened.
pub fn receive(
    peer: &mut PeerSession,
    arrival: Arrival,
    frame_type: u8,
    payload: Vec<u8>,
    bytes: usize,
    policy: PathPolicy,
    device_id: u64,
    now_ms: i64,
) -> (outcome: (bool, InboundEvent))
    requires
        old(peer)@.codec.boot.len() == 16,
        payload@.len() + FIXED_HEADER + TAG_SIZE == bytes,
        bytes <= AEAD_MAX_MESSAGE,
    ensures
        final(peer)@ == received(
            old(peer)@,
            arrival,
            frame_type,
            payload@,
            bytes as u64,
            policy,
            now_ms,
        ),
        outcome.0 == (arrival is DirectTcp && old(peer)@.rises_to_link(policy)),
        event_matches(
            outcome.1,
            old(peer)@,
            arrival,
            frame_type,
            payload@,
            bytes as u64,
            policy,
            device_id,
        ),
{
    peer.add_rx(bytes);
    let risen = match arrival {
        Arrival::DirectTcp { conn } => peer.attach_link(conn, policy),
        _ => false,
    };
    let event = if frame_type == FRAME_PING {
        if peer.codec.can_seal() {
            let frame = peer.codec.seal(device_id, FRAME_PONG, payload.as_slice());
            peer.add_tx(frame.len());
            InboundEvent::Reply { frame }
        } else {
            InboundEvent::Nothing
        }
    } else if frame_type == FRAME_PONG {
        let effect = peer.on_pong(arrival, payload.as_slice(), policy, now_ms);
        InboundEvent::Pong { effect }
    } else if frame_type == FRAME_DATA {
        InboundEvent::Data { payload }
    } else if frame_type == FRAME_FLOW {
        InboundEvent::Flow { payload }
    } else {
        InboundEvent::Nothing
    };
    (risen, event)
}

proof fn lemma_peers_insert(m: Map<(u128, u64), PeerSession>, k: (u128, u64), p: PeerSession)
    ensures
        peers_view(m.insert(k, p)) == peers_view(m).insert(k, p@),
        peers_view(m.remove(k).insert(k, p)) == peers_view(m).insert(k, p@),
        peers_view(m.remove(k)) == peers_view(m).remove(k),
        peers_view(m).dom() == m.dom(),
        m.dom().contains(k) ==> peers_view(m)[k] == m[k]@,
        m.dom().contains(k) && p@ == m[k]@ ==> peers_view(m).insert(k, p@) == peers_view(m),
{
    assert(peers_view(m.insert(k, p)) =~= peers_view(m).insert(k, p@));
    assert(peers_view(m.remove(k).insert(k, p)) =~= peers_view(m).insert(k, p@));
    assert(peers_view(m.remove(k)) =~= peers_view(m).remove(k));
    assert(peers_view(m).dom() =~= m.dom());
    if m.dom().contains(k) && p@ == m[k]@ {
        assert(peers_view(m).insert(k, p@) =~= peers_view(m));
    }
}

impl Mesh {
    /// A node without networks.
    pub fn new(device_id: u64, dh_priv: [u8; 32], dh_pub: [u8; 32]) -> (mesh: Mesh)
        ensures
            mesh@.wf(),
            mesh@ == (MeshView {
                device_id,
                dh_priv: dh_priv@,
                dh_pub: dh_pub@,
                peers: Map::empty(),
                networks: Map::empty(),
                policy: PathPolicy::Auto,
                overrides: Map::empty(),
                stopping: false,
            }),
    {
        let mesh = Mesh {
            device_id,
            dh_priv,
            dh_pub,
            peers: peers_new(),
            networks: networks_new(),
            path_policy: PathPolicy::Auto,
            peer_policies: policies_new(),
            stopping: false,
        };
        assert(mesh@.peers =~= Map::empty());
        assert(mesh@.networks =~= Map::empty());
        assert(mesh@.overrides =~= Map::empty());
        mesh
    }

    /// The policy for a device.
    pub fn policy_for(&self, device: u64) -> (policy: PathPolicy)
        ensures
            policy == self@.policy_for(device),
    {
        match policies_get(&self.peer_policies, device) {
            Some(policy) => policy,
            None => self.path_policy,
        }
    }

    /// Takes in a frame: finds the session that can open it and deals with its
    /// content. Nothing changes where no session can.
    pub fn handle_frame(&mut self, arrival: Arrival, packet: &[u8], now_ms: i64) -> (inbound: Option<
        Inbound,
    >)
        requires
            old(self)@.wf(),
            packet@.len() <= AEAD_MAX_MESSAGE,
        ensures
            final(self)@.wf(),
            match inbound {
                None => {
                    &&& final(self)@ == old(self)@
                    &&& wire::parsed_frame(packet@) matches Some(f) ==> forall|k: (u128, u64)|
                        k.1 == f.sender ==> !#[trigger] old(self)@.opens(k, packet@)
                },
                Some(i) => {
                    let k = peer_key(i.network, i.peer);
                    let old_peer = old(self)@.peers[k];
                    let policy = old(self)@.policy_for(i.peer);
                    let (codec, content) = old_peer.codec.open_step(packet@);
                    let opened = PeerView { codec, ..old_peer };
                    let bytes = packet@.len() as u64;
                    &&& wire::parsed_frame(packet@) is Some && wire::parsed_frame(packet@)->0.sender == i.peer
                    &&& old(self)@.opens(k, packet@)
                    &&& i.link_risen == (arrival is DirectTcp && old_peer.rises_to_link(policy))
                    &&& final(self)@ == old(self)@.with_peer(
                        k,
                        received(
                            opened,
                            arrival,
                            (content->0).1,
                            (content->0).2,
                            bytes,
                            policy,
                            now_ms,
                        ),
                    )
                    &&& event_matches(
                        i.event,
                        opened,
                        arrival,
                        (content->0).1,
                        (content->0).2,
                        bytes,
                        policy,
                        old(self)@.device_id,
                    )
                },
            },
    {
        let sender = match RawFrame::try_parse(packet) {
            Some(frame) => frame.sender_id,
            None => {
                return None;
            },
        };
        let keys = peers_keys(&self.peers);
        let ghost before = self@;
        let mut n: usize = 0;
        while n < keys.len()
            invariant
                n <= keys@.len(),
                self@ == before,
                before == old(self)@,
                before.wf(),
                keys@.to_set() == before.peers.dom(),
                packet@.len() <= AEAD_MAX_MESSAGE,
                wire::parsed_frame(packet@) is Some,
                wire::parsed_frame(packet@)->0.sender == sender,
                forall|j: int|
                    0 <= j < n && #[trigger] keys@[j].1 == sender ==> !before.opens(
                        keys@[j],
                        packet@,
                    ),
            decreases keys@.len() - n,
        {
            let key = keys[n];
            if key.1 == sender {
                let ghost m = tables::peer_entries(self.peers);
                proof {
                    assert(keys@.to_set().contains(key));
                    assert(before.peers.dom().contains(key));
                    assert(peers_view(m).dom() =~= m.dom());
                }
                match peers_remove(&mut self.peers, key) {
                    Some(mut peer) => {
                        let ghost p = peer@;
                        assert(before.peers[key] == p);
                        if peer.codec.can_open() {
                            match peer.codec.try_open(packet) {
                                Some((_, frame_type, payload)) => {
                                    let network = peer.network;
                                    let policy = self.policy_for(peer.id);
                                    let ghost opened = peer@;
                                    let ghost content = payload@;
                                    let (link_risen, event) = receive(
                                        &mut peer,
                                        arrival,
                                        frame_type,
                                        payload,
                                        packet.len(),
                                        policy,
                                        self.device_id,
                                        now_ms,
                                    );
                                    let ghost after = peer@;
                                    proof {
                                        lemma_peers_insert(m, key, peer);
                                    }
                                    peers_insert(&mut self.peers, key, peer);
                                    proof {
                                        assert(self@.peers == before.peers.insert(key, after));
                                        assert(before.opens(key, packet@));
                                        assert(key == peer_key(network, sender));
                                    }
                                    return Some(Inbound { network, peer: sender, link_risen, event });
                                },
                                None => {},
                            }
                        }
                        proof {
                            assert(peer@ == p);
                            lemma_peers_insert(m, key, peer);
                        }
                        peers_insert(&mut self.peers, key, peer);
                        assert(self@.peers == before.peers);
                    },
                    None => {},
                }
            }
            n += 1;
        }
        proof {
            assert forall|k: (u128, u64)| k.1 == sender implies !#[trigger] before.opens(
                k,
                packet@,
            ) by {
                if before.opens(k, packet@) {
                    assert(keys@.to_set().contains(k));
                    let j = choose|j: int| 0 <= j < keys@.len() && keys@[j] == k;
                    assert(keys@[j].1 == sender);
                }
            }
        }
        None
    }

    /// Seals a frame for a peer and picks its route. `link_open` says whether the
    /// direct connection with the peer, if there is one, still stands. There is
    /// nothing to send to an unknown peer, or once the counter of the session is used
    /// up. While the node stops, a frame is sealed and goes nowhere.
    pub fn send(
        &mut self,
        network: &NetId,
        device: u64,
        frame_type: u8,
        payload: &[u8],
        link_open: bool,
        now_ms: i64,
    ) -> (outbound: Option<Outbound>)
        requires
            old(self)@.wf(),
            payload@.len() <= AEAD_MAX_MESSAGE,
            payload@.len() + FIXED_HEADER + TAG_SIZE <= usize::MAX,
        ensures
            final(self)@.wf(),
            is_sent(
                old(self)@,
                final(self)@,
                *network,
                device,
                frame_type,
                payload@,
                link_open,
                now_ms,
                outbound,
            ),
    {
        let key = (network.number(), device);
        let policy = self.policy_for(device);
        let ghost m = tables::peer_entries(self.peers);
        let ghost before = self@;
        assert(peers_view(m).dom() =~= m.dom());
        match peers_remove(&mut self.peers, key) {
            Some(mut peer) => {
                let ghost p = peer@;
                assert(before.peers[key] == p);
                if !peer.codec.can_seal() {
                    proof {
                        lemma_peers_insert(m, key, peer);
                    }
                    peers_insert(&mut self.peers, key, peer);
                    assert(self@.peers == before.peers);
                    return None;
                }
                let frame = peer.codec.seal(self.device_id, frame_type, payload);
                if self.stopping {
                    let ghost sealed = peer@;
                    proof {
                        lemma_peers_insert(m, key, peer);
                    }
                    peers_insert(&mut self.peers, key, peer);
                    assert(self@.peers == before.peers.insert(key, sealed));
                    return None;
                }
                let route = peer.choose_route(policy, link_open);
                let logged = peer.account_route(route, frame.len(), now_ms);
                let ghost after = peer@;
                proof {
                    lemma_peers_insert(m, key, peer);
                }
                peers_insert(&mut self.peers, key, peer);
                assert(self@.peers == before.peers.insert(key, after));
                Some(Outbound { frame, route, policy, logged })
            },
            None => {
                assert(m.remove(key) =~= m);
                None
            },
        }
    }
}

impl Mesh {
    /// Seals a message of a flow for a peer and picks its route.
    pub fn send_flow_payload(
        &mut self,
        network: &NetId,
        device: u64,
        payload: &[u8],
        link_open: bool,
        now_ms: i64,
    ) -> (outbound: Option<Outbound>)
        requires
            old(self)@.wf(),
            payload@.len() <= AEAD_MAX_MESSAGE,
            payload@.len() + FIXED_HEADER + TAG_SIZE <= usize::MAX,
        ensures
            final(self)@.wf(),
            is_sent(
                old(self)@,
                final(self)@,
                *network,
                device,
                FRAME_FLOW,
                payload@,
                link_open,
                now_ms,
                outbound,
            ),
    {
        self.send(network, device, FRAME_FLOW, payload, link_open, now_ms)
    }
}

/// What sending a frame comes to: the mesh before and after, and what goes out.
pub open spec fn is_sent(
    before: MeshView,
    after: MeshView,
    network: NetId,
    device: u64,
    frame_type: u8,
    payload: Seq<u8>,
    link_open: bool,
    now_ms: i64,
    outbound: Option<Outbound>,
) -> bool {
    match outbound {
        None => !before.can_send(network, device) && after == (if before.can_seal(network, device) {
            let k = peer_key(network, device);
            before.with_peer(k, PeerView { codec: counted(before.peers[k].codec), ..before.peers[k] })
        } else {
            before
        }),
        Some(o) => {
            let k = peer_key(network, device);
            let p = before.peers[k];
            let policy = before.policy_for(device);
            &&& before.can_send(network, device)
            &&& o.policy == policy
            &&& o.route == p.route_for(policy, link_open)
            &&& wire::is_next_frame(
                p.codec,
                o.frame@,
                before.device_id,
                frame_type,
                payload,
            )
            &&& o.logged == (if o.route is Drop && p.diag_due(now_ms) {
                Some(session::counter_sum(p.tx_dropped, 1))
            } else {
                None
            })
            &&& after == before.with_peer(
                k,
                PeerView { codec: counted(p.codec), ..p }.with_route(
                    o.route,
                    o.frame@.len() as u64,
                    now_ms,
                ),
            )
        },
    }
}

impl MeshView {
    /// Whether a frame to a device can be sealed.
    pub open spec fn can_seal(self, network: NetId, device: u64) -> bool {
        &&& self.peers.dom().contains(peer_key(network, device))
        &&& self.peers[peer_key(network, device)].codec.counter < u64::MAX
    }

    /// Whether a frame to a device can be sealed and sent.
    pub open spec fn can_send(self, network: NetId, device: u64) -> bool {
        !self.stopping && self.can_seal(network, device)
    }
}

/// The peer after a ping to it was sealed and, unless the node stops, sent.
pub open spec fn pinged_peer(
    p: PeerView,
    policy: PathPolicy,
    stopping: bool,
    link_open: bool,
    bytes: u64,
    now_ms: i64,
) -> PeerView {
    let q = PeerView { codec: counted(p.codec), ..p };
    if stopping {
        q
    } else {
        q.with_route(p.route_for(policy, link_open), bytes, now_ms)
    }
}

/// The overrides that a list of policies makes. Entries whose device is no
/// number are passed over; of two for one device the later counts.
pub open spec fn overrides_of(list: Seq<PeerPolicy>) -> Map<u64, PathPolicy>
    decreases list.len(),
{
    if list.len() == 0 {
        Map::empty()
    } else {
        let rest = overrides_of(list.drop_last());
        match addr::signed_number(list.last().device_id@, u64::MAX as nat) {
            Some(id) => rest.insert(id as u64, list.last().policy),
            None => rest,
        }
    }
}

/// The entries of a list of policies whose device is no number.
pub open spec fn misnamed(list: Seq<PeerPolicy>) -> Seq<Seq<char>>
    decreases list.len(),
{
    if list.len() == 0 {
        Seq::empty()
    } else {
        let rest = misnamed(list.drop_last());
        match addr::signed_number(list.last().device_id@, u64::MAX as nat) {
            Some(_) => rest,
            None => rest.push(list.last().device_id@),
        }
    }
}

/// Addresses as values.
pub open spec fn address_views(list: Seq<SocketAddr>) -> Seq<SocketView> {
    list.map_values(|a: SocketAddr| a@)
}

/// Whether an address can be a peer's: neither the unspecified one nor the
/// broadcast one.
pub open spec fn is_endpoint(v: SocketView) -> bool {
    match v {
        SocketView::V4 { ip, .. } => ip != 0 && ip != 0xffff_ffff,
        SocketView::V6 { .. } => true,
    }
}

/// The usable addresses out of what a peer announces.
pub open spec fn announced(list: Seq<String>) -> Seq<SocketView>
    decreases list.len(),
{
    if list.len() == 0 {
        Seq::empty()
    } else {
        let rest = announced(list.drop_last());
        match addr::socket_value(list.last()@) {
            Some(v) => if is_endpoint(v) {
                rest.push(v)
            } else {
                rest
            },
            None => rest,
        }
    }
}

/// Reads the addresses that a peer announces.
pub fn read_endpoints(list: &Vec<String>) -> (endpoints: Vec<SocketAddr>)
    ensures
        address_views(endpoints@) == announced(list@),
{
    let mut endpoints: Vec<SocketAddr> = Vec::new();
    let mut i: usize = 0;
    assert(list@.take(0) =~= Seq::empty());
    assert(address_views(endpoints@) =~= Seq::empty());
    while i < list.len()
        invariant
            i <= list@.len(),
            address_views(endpoints@) == announced(list@.take(i as int)),
        decreases list@.len() - i,
    {
        let ghost before = endpoints@;
        proof {
            assert(list@.take(i + 1).drop_last() =~= list@.take(i as int));
            assert(list@.take(i + 1).last() == list@[i as int]);
        }
        match parse_socket(list[i].as_str()) {
            Some(addr) => {
                let usable = match addr {
                    SocketAddr::V4 { ip, .. } => ip != 0 && ip != 0xffff_ffff,
                    SocketAddr::V6 { .. } => true,
                };
                if usable {
                    endpoints.push(addr);
                    assert(address_views(endpoints@) =~= address_views(before).push(addr@));
                }
            },
            None => {},
        }
        i += 1;
    }
    assert(list@.take(i as int) =~= list@);
    endpoints
}

/// Whether what the server says of a peer can be used.
pub open spec fn usable(info: PeerInfo) -> bool {
    addr::ipv4_value(info.ip@) is Some && primitives::is_hex_text(info.dh_pubkey@) && info.dh_pubkey@.len() == 64
}

/// The keys of a session with a peer.
pub open spec fn keys_with(m: MeshView, network: NetId, info: PeerInfo) -> Option<
    (Seq<u8>, Seq<u8>),
> {
    session_keys::session_keys_of(m.dh_priv, m.dh_pub, primitives::hex_bytes(info.dh_pubkey@), network.0@)
}

/// The devices by address that a list of peers makes; of two with one address the
/// later counts.
pub open spec fn addresses_of(list: Seq<PeerInfo>) -> Map<u32, u64>
    decreases list.len(),
{
    if list.len() == 0 {
        Map::empty()
    } else {
        let rest = addresses_of(list.drop_last());
        if usable(list.last()) {
            rest.insert(addr::ipv4_value(list.last().ip@)->0, list.last().device_id)
        } else {
            rest
        }
    }
}

/// The entry `i` is the last usable one of its device among the first `n`.
pub open spec fn is_latest(list: Seq<PeerInfo>, i: int, n: int) -> bool {
    &&& 0 <= i < n
    &&& usable(list[i])
    &&& forall|j: int|
        i < j < n && usable(#[trigger] list[j]) ==> list[j].device_id != list[i].device_id
}

/// The peer is as the server says.
pub open spec fn told(p: PeerView, info: PeerInfo) -> bool {
    &&& p.name == info.name@
    &&& Some(p.virtual_ip) == addr::ipv4_value(info.ip@)
    &&& p.online == info.online
    &&& p.tcp_listen_port == info.tcp_listen_port
    &&& address_views(p.endpoints) == announced(info.udp_endpoints@)
}

/// The peer without what the server says of it.
pub open spec fn untold(p: PeerView) -> PeerView {
    PeerView {
        name: Seq::empty(),
        virtual_ip: 0,
        online: false,
        tcp_listen_port: None,
        endpoints: Seq::empty(),
        ..p
    }
}

/// A session that has just begun, with the keys that `info` leads to.
pub open spec fn begun(m: MeshView, network: NetId, p: PeerView, info: PeerInfo) -> bool {
    &&& keys_with(m, network, info) == Some((p.codec.send_key, p.codec.recv_key))
    &&& p.codec.counter == 0
    &&& p.codec.generations.len() == 0
    &&& untold(p) == untold(
        session::fresh_peer(
            info.device_id,
            network,
            info.name@,
            0,
            primitives::hex_bytes(info.dh_pubkey@),
            p.codec,
        ),
    )
}

/// The entry `i` is the first of its device that a session can begin with.
pub open spec fn opens_session(m: MeshView, network: NetId, list: Seq<PeerInfo>, i: int) -> bool {
    &&& usable(list[i])
    &&& keys_with(m, network, list[i]) is Some
    &&& forall|j: int|
        0 <= j < i && usable(#[trigger] list[j]) && list[j].device_id == list[i].device_id
            ==> keys_with(m, network, list[j]) is None
}

/// The devices that a list of peers adds to a network, in the order of the list.
pub open spec fn newcomers(m: MeshView, network: NetId, list: Seq<PeerInfo>) -> Seq<u64>
    decreases list.len(),
{
    if list.len() == 0 {
        Seq::empty()
    } else {
        let rest = newcomers(m, network, list.drop_last());
        let info = list.last();
        if usable(info) && keys_with(m, network, info) is Some && !m.peers.dom().contains(
            peer_key(network, info.device_id),
        ) && !rest.contains(info.device_id) {
            rest.push(info.device_id)
        } else {
            rest
        }
    }
}

/// What a list of peers, of which the first `n` entries were gone through, makes
/// of the sessions; those that the list lacks are still there.
pub open spec fn merged(
    m: MeshView,
    network: NetId,
    list: Seq<PeerInfo>,
    n: int,
    peers: Map<(u128, u64), PeerView>,
) -> bool {
    let net = network.key() as u128;
    &&& forall|k: (u128, u64)|
        #![trigger peers.dom().contains(k)]
        #![trigger m.peers.dom().contains(k)]
        k.0 != net ==> peers.dom().contains(k) == m.peers.dom().contains(k) && peers[k]
            == m.peers[k]
    &&& forall|k: (u128, u64)|
        #![trigger m.peers.dom().contains(k)]
        #![trigger peers.dom().contains(k)]
        m.peers.dom().contains(k) ==> peers.dom().contains(k) && untold(peers[k]) == untold(
            m.peers[k],
        )
    &&& forall|i: int|
        0 <= i < n && usable(#[trigger] list[i]) && keys_with(m, network, list[i]) is Some
            ==> peers.dom().contains((net, list[i].device_id))
    &&& forall|i: int|
        #![trigger list[i]]
        is_latest(list, i, n) && peers.dom().contains((net, list[i].device_id)) ==> told(
            peers[(net, list[i].device_id)],
            list[i],
        )
    &&& forall|k: (u128, u64)|
        #![trigger peers.dom().contains(k)]
        peers.dom().contains(k) && !m.peers.dom().contains(k) ==> exists|i: int|
            0 <= i < n && opens_session(m, network, list, i) && (#[trigger] list[i]).device_id == k.1 && begun(
                m,
                network,
                peers[k],
                list[i],
            )
}

/// What came of a list of peers.
#[derive(Debug)]
pub struct Refreshed {
    /// Devices that are new, in the order of the list.
    pub joined: Vec<u64>,
    /// Devices that are gone, each with the number of its direct connection.
    pub left: Vec<(u64, Option<u64>)>,
}

/// A network that the node has left.
#[derive(Debug)]
pub struct Pruned {
    pub network: NetId,
    pub name: String,
    /// Its devices, each with the number of its direct connection.
    pub peers: Vec<(u64, Option<u64>)>,
}

/// What to do about a peer when its turn to be probed comes.
#[derive(Debug)]
pub struct ProbePlan {
    /// The ping.
    pub ping: Vec<u8>,
    /// How the ping goes out on the current path; not at all while the node stops.
    pub route: Option<Route>,
    pub policy: PathPolicy,
    /// The number of dropped frames, where it is to be logged.
    pub logged: Option<u64>,
    /// Addresses that get the ping as well, from every local address.
    pub udp_targets: Vec<SocketAddr>,
    pub tcp: Option<TcpProbe>,
    /// The direct path that was given up.
    pub lost: Option<PathKind>,
}

proof fn lemma_key_listed(keys: Seq<(u128, u64)>, k: (u128, u64)) -> (j: int)
    requires
        keys.to_set().contains(k),
    ensures
        0 <= j < keys.len(),
        keys[j] == k,
{
    choose|j: int| 0 <= j < keys.len() && keys[j] == k
}

impl Mesh {
    /// Takes note of how sending over a direct connection went. Where a dropped
    /// frame is to be logged, the number of dropped frames comes back.
    pub fn link_sent(
        &mut self,
        network: &NetId,
        device: u64,
        sent: bool,
        bytes: usize,
        now_ms: i64,
    ) -> (logged: Option<u64>)
        requires
            old(self)@.wf(),
        ensures
            final(self)@.wf(),
            !old(self)@.peers.dom().contains(peer_key(*network, device)) ==> final(self)@ == old(
                self,
            )@ && logged is None,
            old(self)@.peers.dom().contains(peer_key(*network, device)) ==> {
                let k = peer_key(*network, device);
                let p = old(self)@.peers[k];
                &&& final(self)@ == old(self)@.with_peer(
                    k,
                    if sent {
                        p.with_tx(bytes as u64)
                    } else {
                        p.with_drop(now_ms)
                    },
                )
                &&& logged == (if !sent && p.diag_due(now_ms) {
                    Some(session::counter_sum(p.tx_dropped, 1))
                } else {
                    None
                })
            },
    {
        let key = (network.number(), device);
        let ghost m = tables::peer_entries(self.peers);
        let ghost before = self@;
        assert(peers_view(m).dom() =~= m.dom());
        match peers_remove(&mut self.peers, key) {
            Some(mut peer) => {
                let logged = peer.link_sent(sent, bytes, now_ms);
                let ghost after = peer@;
                proof {
                    lemma_peers_insert(m, key, peer);
                }
                peers_insert(&mut self.peers, key, peer);
                assert(self@.peers == before.peers.insert(key, after));
                logged
            },
            None => {
                assert(m.remove(key) =~= m);
                None
            },
        }
    }

    /// Takes note of a direct connection with a peer; true if frames now take it.
    pub fn attach_peer_tcp(&mut self, network: &NetId, device: u64, conn: u64) -> (risen: bool)
        requires
            old(self)@.wf(),
        ensures
            final(self)@.wf(),
            !old(self)@.peers.dom().contains(peer_key(*network, device)) ==> final(self)@ == old(
                self,
            )@ && !risen,
            old(self)@.peers.dom().contains(peer_key(*network, device)) ==> {
                let k = peer_key(*network, device);
                let p = old(self)@.peers[k];
                let policy = old(self)@.policy_for(device);
                &&& final(self)@ == old(self)@.with_peer(k, p.with_link(conn, policy))
                &&& risen == p.rises_to_link(policy)
            },
    {
        let key = (network.number(), device);
        let policy = self.policy_for(device);
        let ghost m = tables::peer_entries(self.peers);
        let ghost before = self@;
        assert(peers_view(m).dom() =~= m.dom());
        match peers_remove(&mut self.peers, key) {
            Some(mut peer) => {
                let risen = peer.attach_link(conn, policy);
                let ghost after = peer@;
                proof {
                    lemma_peers_insert(m, key, peer);
                }
                peers_insert(&mut self.peers, key, peer);
                assert(self@.peers == before.peers.insert(key, after));
                risen
            },
            None => {
                assert(m.remove(key) =~= m);
                false
            },
        }
    }

    /// A ping for a direct connection that was just made, whatever path the peer is
    /// on.
    pub fn link_ping(&mut self, network: &NetId, device: u64, now_ms: i64) -> (frame: Option<Vec<u8>>)
        requires
            old(self)@.wf(),
        ensures
            final(self)@.wf(),
            match frame {
                None => final(self)@ == old(self)@ && (!old(self)@.peers.dom().contains(
                    peer_key(*network, device),
                ) || old(self)@.peers[peer_key(*network, device)].codec.counter == u64::MAX),
                Some(f) => {
                    let k = peer_key(*network, device);
                    let p = old(self)@.peers[k];
                    &&& old(self)@.peers.dom().contains(k)
                    &&& p.codec.counter < u64::MAX
                    &&& wire::is_next_frame(
                        p.codec,
                        f@,
                        old(self)@.device_id,
                        FRAME_PING,
                        endec::le_bytes(now_ms as u64 as nat, 8),
                    )
                    &&& final(self)@ == old(self)@.with_peer(
                        k,
                        PeerView { codec: counted(p.codec), ..p }.with_tx(f@.len() as u64),
                    )
                },
            },
    {
        let key = (network.number(), device);
        let ghost m = tables::peer_entries(self.peers);
        let ghost before = self@;
        assert(peers_view(m).dom() =~= m.dom());
        match peers_remove(&mut self.peers, key) {
            Some(mut peer) => {
                assert(before.peers[key] == peer@);
                if !peer.codec.can_seal() {
                    proof {
                        lemma_peers_insert(m, key, peer);
                    }
                    peers_insert(&mut self.peers, key, peer);
                    assert(self@.peers == before.peers);
                    return None;
                }
                let mut payload: Vec<u8> = Vec::new();
                write_u64_le(&mut payload, now_ms as u64);
                assert(payload@ =~= endec::le_bytes(now_ms as u64 as nat, 8));
                proof {
                    endec::lemma_le_bytes_len(now_ms as u64 as nat, 8);
                }
                let frame = peer.codec.seal(self.device_id, FRAME_PING, payload.as_slice());
                peer.add_tx(frame.len());
                let ghost after = peer@;
                proof {
                    lemma_peers_insert(m, key, peer);
                }
                peers_insert(&mut self.peers, key, peer);
                assert(self@.peers == before.peers.insert(key, after));
                Some(frame)
            },
            None => {
                assert(m.remove(key) =~= m);
                None
            },
        }
    }

    /// The longest piece of a stream to send to a peer in one frame. On UDP paths,
    /// and to an unknown peer, it is the one that is never fragmented.
    pub fn flow_chunk_for(&mut self, network: &NetId, device: u64) -> (chunk: usize)
        requires
            old(self)@.wf(),
        ensures
            final(self)@ == old(self)@,
            chunk == (if old(self)@.peers.dom().contains(peer_key(*network, device)) && (old(
                self,
            )@.peers[peer_key(*network, device)].path == PathKind::DirectTcp || old(
                self,
            )@.peers[peer_key(*network, device)].path == PathKind::RelayTcp) {
                FLOW_CHUNK
            } else {
                FLOW_CHUNK_UDP
            }),
    {
        let key = (network.number(), device);
        let ghost m = tables::peer_entries(self.peers);
        let ghost before = self@;
        assert(peers_view(m).dom() =~= m.dom());
        match peers_remove(&mut self.peers, key) {
            Some(peer) => {
                let path = peer.path();
                proof {
                    lemma_peers_insert(m, key, peer);
                }
                peers_insert(&mut self.peers, key, peer);
                assert(self@.peers == before.peers);
                if path == PathKind::DirectTcp || path == PathKind::RelayTcp {
                    FLOW_CHUNK
                } else {
                    FLOW_CHUNK_UDP
                }
            },
            None => {
                assert(m.remove(key) =~= m);
                FLOW_CHUNK_UDP
            },
        }
    }

    /// Puts the policies of the server into force. The devices whose entry could
    /// not be read come back, and whether some peer is now to be reached over the
    /// TCP relay.
    pub fn set_policies(&mut self, general: PathPolicy, list: &Vec<PeerPolicy>) -> (outcome: (
        Vec<String>,
        bool,
    ))
        requires
            old(self)@.wf(),
        ensures
            final(self)@.wf(),
            text::texts(outcome.0@) == misnamed(list@),
            final(self)@.policy == general,
            final(self)@.overrides == overrides_of(list@),
            final(self)@ == (MeshView {
                policy: general,
                overrides: overrides_of(list@),
                peers: final(self)@.peers,
                ..old(self)@
            }),
            final(self)@.peers.dom() == old(self)@.peers.dom(),
            forall|k: (u128, u64)| #[trigger]
                old(self)@.peers.dom().contains(k) ==> final(self)@.peers[k] == (PeerView {
                    path: old(self)@.peers[k].path_under(final(self)@.policy_for(k.1)),
                    ..old(self)@.peers[k]
                }),
            outcome.1 == (general == PathPolicy::RelayTcp || exists|k: (u128, u64)| #[trigger]
                old(self)@.peers.dom().contains(k) && final(self)@.policy_for(k.1)
                    == PathPolicy::RelayTcp),
    {
        let ghost before = self@;
        let mut skipped: Vec<String> = Vec::new();
        let mut table = policies_new();
        let mut i: usize = 0;
        assert(list@.take(0) =~= Seq::empty());
        assert(tables::policy_entries(table) =~= Map::empty());
        assert(text::texts(skipped@) =~= Seq::empty());
        while i < list.len()
            invariant
                i <= list@.len(),
                tables::policy_entries(table) == overrides_of(list@.take(i as int)),
                text::texts(skipped@) == misnamed(list@.take(i as int)),
            decreases list@.len() - i,
        {
            proof {
                assert(list@.take(i + 1).drop_last() =~= list@.take(i as int));
                assert(list@.take(i + 1).last() == list@[i as int]);
            }
            match parse_u64(list[i].device_id.as_str()) {
                Some(id) => {
                    policies_insert(&mut table, id, list[i].policy);
                },
                None => {
                    let ghost s0 = skipped@;
                    let text = list[i].device_id.clone();
                    skipped.push(text);
                    assert(text::texts(skipped@) =~= text::texts(s0).push(list@[i as int].device_id@));
                },
            }
            i += 1;
        }
        assert(list@.take(i as int) =~= list@);
        self.path_policy = general;
        self.peer_policies = table;
        let mut relay_tcp = general == PathPolicy::RelayTcp;
        let keys = peers_keys(&self.peers);
        let ghost start = self@;
        assert(start == (MeshView { policy: general, overrides: overrides_of(list@), ..before }));
        assert(start.peers.dom() =~= tables::peer_entries(self.peers).dom());
        let mut n: usize = 0;
        while n < keys.len()
            invariant
                n <= keys@.len(),
                keys@.no_duplicates(),
                keys@.to_set() == before.peers.dom(),
                start == (MeshView { policy: general, overrides: overrides_of(list@), ..before }),
                before == old(self)@,
                before.wf(),
                self@ == (MeshView { peers: self@.peers, ..start }),
                self@.peers.dom() == before.peers.dom(),
                forall|j: int|
                    #![trigger keys@[j]]
                    0 <= j < n ==> self@.peers[keys@[j]] == (PeerView {
                        path: before.peers[keys@[j]].path_under(start.policy_for(keys@[j].1)),
                        ..before.peers[keys@[j]]
                    }),
                forall|j: int|
                    #![trigger keys@[j]]
                    n <= j < keys@.len() ==> self@.peers[keys@[j]] == before.peers[keys@[j]],
                relay_tcp == (general == PathPolicy::RelayTcp || exists|j: int|
                    0 <= j < n && start.policy_for((#[trigger] keys@[j]).1)
                        == PathPolicy::RelayTcp),
            decreases keys@.len() - n,
        {
            let key = keys[n];
            let ghost m = tables::peer_entries(self.peers);
            let ghost now = self@;
            let policy = self.policy_for(key.1);
            assert(keys@.to_set().contains(key));
            assert(peers_view(m).dom() =~= m.dom());
            if policy == PathPolicy::RelayTcp {
                relay_tcp = true;
                assert(start.policy_for(keys@[n as int].1) == PathPolicy::RelayTcp);
            }
            match peers_remove(&mut self.peers, key) {
                Some(mut peer) => {
                    peer.apply_policy(policy);
                    let ghost after = peer@;
                    proof {
                        lemma_peers_insert(m, key, peer);
                    }
                    peers_insert(&mut self.peers, key, peer);
                    assert(self@.peers == now.peers.insert(key, after));
                    assert(now.peers[key] == before.peers[keys@[n as int]]);
                    assert forall|j: int|
                        #![trigger keys@[j]]
                        0 <= j < keys@.len() && j != n implies keys@[j] != key by {}
                    assert(self@.peers.dom() =~= before.peers.dom());
                },
                None => {},
            }
            n += 1;
        }
        proof {
            assert forall|k: (u128, u64)| #[trigger] before.peers.dom().contains(k) implies self@.peers[k]
                == (PeerView {
                path: before.peers[k].path_under(self@.policy_for(k.1)),
                ..before.peers[k]
            }) by {
                let j = lemma_key_listed(keys@, k);
                assert(keys@[j] == k);
            }
            if exists|k: (u128, u64)| #[trigger]
                before.peers.dom().contains(k) && self@.policy_for(k.1) == PathPolicy::RelayTcp {
                let k = choose|k: (u128, u64)| #[trigger]
                    before.peers.dom().contains(k) && self@.policy_for(k.1) == PathPolicy::RelayTcp;
                let j = lemma_key_listed(keys@, k);
                assert(start.policy_for(keys@[j].1) == PathPolicy::RelayTcp);
            }
            if exists|j: int|
                0 <= j < keys@.len() && start.policy_for((#[trigger] keys@[j]).1)
                    == PathPolicy::RelayTcp {
                let j = choose|j: int|
                    0 <= j < keys@.len() && start.policy_for((#[trigger] keys@[j]).1)
                        == PathPolicy::RelayTcp;
                assert(keys@.to_set().contains(keys@[j]));
                assert(before.peers.dom().contains(keys@[j]));
            }
        }
        (skipped, relay_tcp)
    }

    /// Plans what to do about a peer when its turn to be probed comes. There is
    /// nothing to do about an unknown peer, or once the counter of the session is
    /// used up.
    pub fn probe(&mut self, network: &NetId, device: u64, link_open: bool, now_ms: i64) -> (plan: Option<
        ProbePlan,
    >)
        requires
            old(self)@.wf(),
        ensures
            final(self)@.wf(),
            match plan {
                None => final(self)@ == old(self)@ && !old(self)@.can_seal(*network, device),
                Some(plan) => {
                    let k = peer_key(*network, device);
                    let p = old(self)@.peers[k];
                    let policy = old(self)@.policy_for(device);
                    let pinged = pinged_peer(
                        p,
                        policy,
                        old(self)@.stopping,
                        link_open,
                        plan.ping@.len() as u64,
                        now_ms,
                    );
                    let probed = if pinged.wants_tcp_probe(policy, link_open) {
                        pinged.with_tcp_probe(now_ms)
                    } else {
                        pinged
                    };
                    &&& old(self)@.can_seal(*network, device)
                    &&& plan.policy == policy
                    &&& plan.route == (if old(self)@.stopping {
                        None
                    } else {
                        Some(p.route_for(policy, link_open))
                    })
                    &&& plan.logged == (if !old(self)@.stopping && p.route_for(
                        policy,
                        link_open,
                    ) is Drop && p.diag_due(now_ms) {
                        Some(session::counter_sum(p.tx_dropped, 1))
                    } else {
                        None
                    })
                    &&& wire::is_next_frame(
                        p.codec,
                        plan.ping@,
                        old(self)@.device_id,
                        FRAME_PING,
                        endec::le_bytes(now_ms as u64 as nat, 8),
                    )
                    &&& plan.udp_targets@ == (if pinged.wants_udp_probe(policy) {
                        session::probe_targets(p.endpoints)
                    } else {
                        Seq::empty()
                    })
                    &&& plan.tcp is Some == pinged.wants_tcp_probe(policy, link_open)
                    &&& plan.tcp is Some ==> session::is_tcp_probe(plan.tcp->0, pinged, now_ms)
                    &&& plan.lost == (if probed.times_out(policy, now_ms) {
                        Some(p.path)
                    } else {
                        None
                    })
                    &&& final(self)@ == old(self)@.with_peer(
                        k,
                        if probed.times_out(policy, now_ms) {
                            probed.fallen_back()
                        } else {
                            probed
                        },
                    )
                },
            },
    {
        let mut payload: Vec<u8> = Vec::new();
        write_u64_le(&mut payload, now_ms as u64);
        proof {
            endec::lemma_le_bytes_len(now_ms as u64 as nat, 8);
            assert(payload@ =~= endec::le_bytes(now_ms as u64 as nat, 8));
        }
        let key = (network.number(), device);
        let policy = self.policy_for(device);
        let ghost m = tables::peer_entries(self.peers);
        let ghost before = self@;
        assert(peers_view(m).dom() =~= m.dom());
        match peers_remove(&mut self.peers, key) {
            Some(mut peer) => {
                assert(before.peers[key] == peer@);
                if !peer.codec.can_seal() {
                    proof {
                        lemma_peers_insert(m, key, peer);
                    }
                    peers_insert(&mut self.peers, key, peer);
                    assert(self@.peers == before.peers);
                    return None;
                }
                let ping = peer.codec.seal(self.device_id, FRAME_PING, payload.as_slice());
                let mut route: Option<Route> = None;
                let mut logged: Option<u64> = None;
                if !self.stopping {
                    let chosen = peer.choose_route(policy, link_open);
                    logged = peer.account_route(chosen, ping.len(), now_ms);
                    route = Some(chosen);
                }
                let udp_targets = peer.udp_probes(policy);
                let tcp = if peer.wants_tcp(policy, link_open) {
                    Some(peer.tcp_probe(now_ms))
                } else {
                    None
                };
                let lost = peer.drop_dead_path(policy, now_ms);
                let ghost after = peer@;
                proof {
                    lemma_peers_insert(m, key, peer);
                }
                peers_insert(&mut self.peers, key, peer);
                assert(self@.peers == before.peers.insert(key, after));
                Some(ProbePlan { ping, route, policy, logged, udp_targets, tcp, lost })
            },
            None => {
                assert(m.remove(key) =~= m);
                None
            },
        }
    }
}

/// The bytes of a public key in hexadecimal.
fn read_key(text: &str) -> (key: Option<[u8; 32]>)
    ensures
        key is Some == (primitives::is_hex_text(text@) && text@.len() == 64),
        key matches Some(k) ==> k@ == primitives::hex_bytes(text@),
{
    match hex_decode(text) {
        Some(bytes) => {
            if bytes.len() != 32 {
                return None;
            }
            Some(to_array(bytes.as_slice()))
        },
        None => None,
    }
}

proof fn lemma_networks_insert(m: Map<u128, NetworkCtx>, k: u128, n: NetworkCtx)
    ensures
        networks_view(m.insert(k, n)) == networks_view(m).insert(k, n@),
        networks_view(m.remove(k).insert(k, n)) == networks_view(m).insert(k, n@),
        networks_view(m.remove(k)) == networks_view(m).remove(k),
        networks_view(m).dom() == m.dom(),
        m.dom().contains(k) ==> networks_view(m)[k] == m[k]@,
        m.dom().contains(k) && n@ == m[k]@ ==> networks_view(m).insert(k, n@) == networks_view(m),
{
    assert(networks_view(m.insert(k, n)) =~= networks_view(m).insert(k, n@));
    assert(networks_view(m.remove(k).insert(k, n)) =~= networks_view(m).insert(k, n@));
    assert(networks_view(m.remove(k)) =~= networks_view(m).remove(k));
    assert(networks_view(m).dom() =~= m.dom());
    if m.dom().contains(k) && n@ == m[k]@ {
        assert(networks_view(m).insert(k, n@) =~= networks_view(m));
    }
}

/// No device is named twice.
pub open spec fn one_each(left: Seq<(u64, Option<u64>)>) -> bool {
    forall|i: int, j: int|
        0 <= i < j < left.len() ==> (#[trigger] left[i]).0 != (#[trigger] left[j]).0
}

/// The sessions of a network whose devices a list does not name are gone; all
/// others stay.
pub open spec fn swept(
    net: u128,
    listed: Set<u64>,
    from: Map<(u128, u64), PeerView>,
    to: Map<(u128, u64), PeerView>,
) -> bool {
    &&& forall|k: (u128, u64)|
        #![trigger to.dom().contains(k)]
        #![trigger from.dom().contains(k)]
        to.dom().contains(k) == (from.dom().contains(k) && (k.0 != net || listed.contains(k.1)))
    &&& forall|k: (u128, u64)| #[trigger] to.dom().contains(k) ==> to[k] == from[k]
}

impl Mesh {
    /// Goes through what the server says of the peers of a network: known ones are
    /// updated, new ones begin a session. A peer whose public key gives no session
    /// is passed over. The devices that have a session come back, and those that
    /// are new.
    fn merge_list(&mut self, network: &NetId, list: &Vec<PeerInfo>) -> (outcome: (
        HashSet<u64>,
        Vec<u64>,
        HashMap<u32, u64>,
    ))
        requires
            old(self)@.wf(),
        ensures
            final(self)@.wf(),
            final(self)@ == (MeshView { peers: final(self)@.peers, ..old(self)@ }),
            merged(old(self)@, *network, list@, list@.len() as int, final(self)@.peers),
            outcome.1@ == newcomers(old(self)@, *network, list@),
            outcome.2@ == addresses_of(list@),
            forall|d: u64|
                #![trigger outcome.0@.contains(d)]
                outcome.0@.contains(d) <==> final(self)@.peers.dom().contains(
                    peer_key(*network, d),
                ) && exists|i: int|
                    0 <= i < list@.len() && usable(#[trigger] list@[i]) && list@[i].device_id == d,
            forall|d: u64|
                #![trigger outcome.1@.contains(d)]
                outcome.1@.contains(d) <==> final(self)@.peers.dom().contains(
                    peer_key(*network, d),
                ) && !old(self)@.peers.dom().contains(peer_key(*network, d)),
    {
        broadcast use vstd::std_specs::hash::group_hash_axioms;

        let ghost before = self@;
        let net = network.number();
        let mut seen: HashSet<u64> = HashSet::new();
        let mut joined: Vec<u64> = Vec::new();
        let mut ip_map: HashMap<u32, u64> = HashMap::new();
        let mut i: usize = 0;
        assert(list@.take(0) =~= Seq::empty());
        assert(ip_map@ =~= Map::empty());
        assert(joined@ =~= Seq::empty());
        while i < list.len()
            invariant
                i <= list@.len(),
                net == network.key(),
                before == old(self)@,
                before.wf(),
                self@.wf(),
                self@ == (MeshView { peers: self@.peers, ..before }),
                merged(before, *network, list@, i as int, self@.peers),
                joined@ == newcomers(before, *network, list@.take(i as int)),
                ip_map@ == addresses_of(list@.take(i as int)),
                forall|d: u64|
                    #![trigger seen@.contains(d)]
                    seen@.contains(d) <==> self@.peers.dom().contains((net, d)) && exists|j: int|
                        0 <= j < i && usable(#[trigger] list@[j]) && list@[j].device_id == d,
                forall|d: u64|
                    #![trigger joined@.contains(d)]
                    joined@.contains(d) <==> self@.peers.dom().contains((net, d))
                        && !before.peers.dom().contains((net, d)),
            decreases list@.len() - i,
        {
            broadcast use vstd::std_specs::hash::group_hash_axioms;

            let info = &list[i];
            let ghost now = self@;
            let ghost seen0 = seen@;
            let ghost joined0 = joined@;
            let ghost nfo = list@[i as int];
            proof {
                assert(list@.take(i + 1).drop_last() =~= list@.take(i as int));
                assert(list@.take(i + 1).last() == nfo);
            }
            let vip = parse_ipv4(info.ip.as_str());
            let dh = read_key(info.dh_pubkey.as_str());
            if let (Some(vip), Some(dh_pub)) = (vip, dh) {
                assert(usable(nfo));
                ip_map.insert(vip, info.device_id);
                let endpoints = read_endpoints(&info.udp_endpoints);
                let key = (net, info.device_id);
                let ghost m = tables::peer_entries(self.peers);
                assert(peers_view(m).dom() =~= m.dom());
                match peers_remove(&mut self.peers, key) {
                    Some(mut peer) => {
                        let ghost p0 = peer@;
                        peer.name = info.name.clone();
                        peer.virtual_ip = vip;
                        peer.online = info.online;
                        peer.tcp_listen_port = info.tcp_listen_port;
                        peer.endpoints = endpoints;
                        let ghost after = peer@;
                        proof {
                            lemma_peers_insert(m, key, peer);
                            assert(untold(after) == untold(p0));
                            assert(told(after, nfo));
                            assert(now.peers.dom().contains(key));
                            assert(before.peers.dom().contains(key) || joined0.contains(
                                nfo.device_id,
                            ));
                        }
                        peers_insert(&mut self.peers, key, peer);
                        seen.insert(info.device_id);
                        proof {
                            assert(self@.peers == now.peers.insert(key, after));
                            lemma_merge_step(before, *network, list@, i as int, now.peers, after);
                            lemma_seen_step(
                                net,
                                list@,
                                i as int,
                                now.peers,
                                self@.peers,
                                seen0,
                                seen@,
                            );
                        }
                    },
                    None => {
                        assert(m.remove(key) =~= m);
                        match SessionKeys::derive(
                            &self.dh_priv,
                            &self.dh_pub,
                            &dh_pub,
                            &network.0,
                        ) {
                            Ok(keys) => {
                                let mut peer = PeerSession::new(
                                    info.device_id,
                                    *network,
                                    info.name.clone(),
                                    vip,
                                    dh_pub,
                                    keys,
                                );
                                peer.online = info.online;
                                peer.tcp_listen_port = info.tcp_listen_port;
                                peer.endpoints = endpoints;
                                let ghost after = peer@;
                                proof {
                                    lemma_peers_insert(m, key, peer);
                                    assert(told(after, nfo));
                                    assert(begun(before, *network, after, nfo));
                                }
                                peers_insert(&mut self.peers, key, peer);
                                seen.insert(info.device_id);
                                joined.push(info.device_id);
                                proof {
                                    assert(self@.peers == now.peers.insert(key, after));
                                    lemma_merge_step(
                                        before,
                                        *network,
                                        list@,
                                        i as int,
                                        now.peers,
                                        after,
                                    );
                                    lemma_seen_step(
                                        net,
                                        list@,
                                        i as int,
                                        now.peers,
                                        self@.peers,
                                        seen0,
                                        seen@,
                                    );
                                    assert(!before.peers.dom().contains(key));
                                    assert(!joined0.contains(nfo.device_id));
                                    lemma_joined_step(
                                        net,
                                        before.peers,
                                        now.peers,
                                        self@.peers,
                                        joined0,
                                        nfo.device_id,
                                    );
                                }
                            },
                            Err(_) => {
                                proof {
                                    assert(keys_with(before, *network, nfo) is None);
                                    lemma_merge_skip(before, *network, list@, i as int, now.peers);
                                    lemma_seen_skip(net, list@, i as int, now.peers, seen0);
                                }
                            },
                        }
                    },
                }
            } else {
                proof {
                    assert(!usable(nfo));
                    lemma_merge_skip(before, *network, list@, i as int, now.peers);
                    lemma_seen_skip(net, list@, i as int, now.peers, seen0);
                }
            }
            i += 1;
        }
        assert(list@.take(i as int) =~= list@);
        (seen, joined, ip_map)
    }
}

proof fn lemma_merge_step(
    m: MeshView,
    network: NetId,
    list: Seq<PeerInfo>,
    i: int,
    peers: Map<(u128, u64), PeerView>,
    after: PeerView,
)
    requires
        0 <= i < list.len(),
        usable(list[i]),
        merged(m, network, list, i, peers),
        told(after, list[i]),
        ({
            let k = (network.key() as u128, list[i].device_id);
            if peers.dom().contains(k) {
                untold(after) == untold(peers[k])
            } else {
                begun(m, network, after, list[i])
            }
        }),
    ensures
        merged(
            m,
            network,
            list,
            i + 1,
            peers.insert((network.key() as u128, list[i].device_id), after),
        ),
{
    let net = network.key() as u128;
    let k0 = (net, list[i].device_id);
    let next = peers.insert(k0, after);
    assert forall|j: int|
        #![trigger list[j]]
        is_latest(list, j, i + 1) && next.dom().contains((net, list[j].device_id)) implies told(
        next[(net, list[j].device_id)],
        list[j],
    ) by {
        if j < i {
            assert(usable(list[i]));
            assert(list[j].device_id != list[i].device_id);
            assert(is_latest(list, j, i));
            assert(peers.dom().contains((net, list[j].device_id)));
        }
    }
    assert forall|k: (u128, u64)|
        #![trigger next.dom().contains(k)]
        next.dom().contains(k) && !m.peers.dom().contains(k) implies exists|j: int|
        0 <= j < i + 1 && opens_session(m, network, list, j) && (#[trigger] list[j]).device_id == k.1 && begun(
            m,
            network,
            next[k],
            list[j],
        ) by {
        if k == k0 {
            if peers.dom().contains(k0) {
                let j = choose|j: int|
                    0 <= j < i && opens_session(m, network, list, j) && (#[trigger] list[j]).device_id == k.1 && begun(
                        m,
                        network,
                        peers[k],
                        list[j],
                    );
                assert(after.codec == untold(after).codec && peers[k0].codec == untold(
                    peers[k0],
                ).codec);
                assert(begun(m, network, next[k], list[j]));
            } else {
                assert(begun(m, network, next[k], list[i]));
            }
        } else {
            assert(peers.dom().contains(k));
            let j = choose|j: int|
                0 <= j < i && opens_session(m, network, list, j) && (#[trigger] list[j]).device_id == k.1 && begun(
                    m,
                    network,
                    peers[k],
                    list[j],
                );
            assert(begun(m, network, next[k], list[j]));
        }
    }
    assert forall|j: int|
        0 <= j < i + 1 && usable(#[trigger] list[j]) && keys_with(m, network, list[j]) is Some implies next.dom().contains(
    (net, list[j].device_id)) by {
        if j < i {
            assert(peers.dom().contains((net, list[j].device_id)));
        }
    }
    assert forall|k: (u128, u64)|
        #![trigger m.peers.dom().contains(k)]
        #![trigger next.dom().contains(k)]
        m.peers.dom().contains(k) implies next.dom().contains(k) && untold(next[k]) == untold(
        m.peers[k],
    ) by {
        assert(peers.dom().contains(k));
    }
    assert forall|k: (u128, u64)|
        #![trigger next.dom().contains(k)]
        #![trigger m.peers.dom().contains(k)]
        k.0 != net implies next.dom().contains(k) == m.peers.dom().contains(k) && next[k]
        == m.peers[k] by {
        assert(peers.dom().contains(k) == m.peers.dom().contains(k));
    }
}

proof fn lemma_merge_skip(
    m: MeshView,
    network: NetId,
    list: Seq<PeerInfo>,
    i: int,
    peers: Map<(u128, u64), PeerView>,
)
    requires
        0 <= i < list.len(),
        merged(m, network, list, i, peers),
        !usable(list[i]) || (keys_with(m, network, list[i]) is None && !peers.dom().contains(
            (network.key() as u128, list[i].device_id),
        )),
    ensures
        merged(m, network, list, i + 1, peers),
{
    let net = network.key() as u128;
    assert forall|j: int|
        #![trigger list[j]]
        is_latest(list, j, i + 1) && peers.dom().contains((net, list[j].device_id)) implies told(
        peers[(net, list[j].device_id)],
        list[j],
    ) by {
        if j < i {
            assert(is_latest(list, j, i));
        }
    }
    assert forall|k: (u128, u64)|
        #![trigger peers.dom().contains(k)]
        peers.dom().contains(k) && !m.peers.dom().contains(k) implies exists|j: int|
        0 <= j < i + 1 && opens_session(m, network, list, j) && (#[trigger] list[j]).device_id == k.1 && begun(
            m,
            network,
            peers[k],
            list[j],
        ) by {
        let j = choose|j: int|
            0 <= j < i && opens_session(m, network, list, j) && (#[trigger] list[j]).device_id == k.1 && begun(
                m,
                network,
                peers[k],
                list[j],
            );
        assert(usable(list[j]));
    }
}

proof fn lemma_seen_step(
    net: u128,
    list: Seq<PeerInfo>,
    i: int,
    from: Map<(u128, u64), PeerView>,
    to: Map<(u128, u64), PeerView>,
    seen0: Set<u64>,
    seen1: Set<u64>,
)
    requires
        0 <= i < list.len(),
        usable(list[i]),
        seen1 == seen0.insert(list[i].device_id),
        to.dom() == from.dom().insert((net, list[i].device_id)),
        forall|d: u64|
            #![trigger seen0.contains(d)]
            seen0.contains(d) <==> from.dom().contains((net, d)) && exists|j: int|
                0 <= j < i && usable(#[trigger] list[j]) && list[j].device_id == d,
    ensures
        forall|d: u64|
            #![trigger seen1.contains(d)]
            seen1.contains(d) <==> to.dom().contains((net, d)) && exists|j: int|
                0 <= j < i + 1 && usable(#[trigger] list[j]) && list[j].device_id == d,
{
    assert forall|d: u64|
        #![trigger seen1.contains(d)]
        seen1.contains(d) <==> to.dom().contains((net, d)) && exists|j: int|
            0 <= j < i + 1 && usable(#[trigger] list[j]) && list[j].device_id == d by {
        if d == list[i].device_id {
            assert(usable(list[i]));
        } else {
            assert(seen0.contains(d) == seen1.contains(d));
            if exists|j: int|
                0 <= j < i + 1 && usable(#[trigger] list[j]) && list[j].device_id == d {
                let j = choose|j: int|
                    0 <= j < i + 1 && usable(#[trigger] list[j]) && list[j].device_id == d;
                assert(j < i);
            }
        }
    }
}

proof fn lemma_joined_step(
    net: u128,
    before: Map<(u128, u64), PeerView>,
    from: Map<(u128, u64), PeerView>,
    to: Map<(u128, u64), PeerView>,
    joined: Seq<u64>,
    new: u64,
)
    requires
        !before.dom().contains((net, new)),
        to.dom() == from.dom().insert((net, new)),
        forall|d: u64|
            #![trigger joined.contains(d)]
            joined.contains(d) <==> from.dom().contains((net, d)) && !before.dom().contains(
                (net, d),
            ),
    ensures
        forall|d: u64|
            #![trigger joined.push(new).contains(d)]
            joined.push(new).contains(d) <==> to.dom().contains((net, d)) && !before.dom().contains(
                (net, d),
            ),
{
    let longer = joined.push(new);
    assert forall|d: u64|
        #![trigger joined.push(new).contains(d)]
        joined.push(new).contains(d) <==> to.dom().contains((net, d)) && !before.dom().contains(
            (net, d),
        ) by {
        if d == new {
            assert(longer[longer.len() - 1] == d);
        } else {
            if longer.contains(d) {
                let x = choose|x: int| 0 <= x < longer.len() && longer[x] == d;
                assert(joined[x] == d);
                assert(joined.contains(d));
            }
            if joined.contains(d) {
                let x = choose|x: int| 0 <= x < joined.len() && joined[x] == d;
                assert(longer[x] == d);
            }
            assert(to.dom().contains((net, d)) == from.dom().contains((net, d)));
        }
    }
}

proof fn lemma_seen_skip(
    net: u128,
    list: Seq<PeerInfo>,
    i: int,
    peers: Map<(u128, u64), PeerView>,
    seen: Set<u64>,
)
    requires
        0 <= i < list.len(),
        !usable(list[i]) || !peers.dom().contains((net, list[i].device_id)),
        forall|d: u64|
            #![trigger seen.contains(d)]
            seen.contains(d) <==> peers.dom().contains((net, d)) && exists|j: int|
                0 <= j < i && usable(#[trigger] list[j]) && list[j].device_id == d,
    ensures
        forall|d: u64|
            #![trigger seen.contains(d)]
            seen.contains(d) <==> peers.dom().contains((net, d)) && exists|j: int|
                0 <= j < i + 1 && usable(#[trigger] list[j]) && list[j].device_id == d,
{
    assert forall|d: u64|
        #![trigger seen.contains(d)]
        seen.contains(d) <==> peers.dom().contains((net, d)) && exists|j: int|
            0 <= j < i + 1 && usable(#[trigger] list[j]) && list[j].device_id == d by {
        if peers.dom().contains((net, d)) && exists|j: int|
            0 <= j < i + 1 && usable(#[trigger] list[j]) && list[j].device_id == d {
            let j = choose|j: int|
                0 <= j < i + 1 && usable(#[trigger] list[j]) && list[j].device_id == d;
            assert(j < i);
        }
    }
}

/// What the server's list of peers makes of a network.
pub open spec fn refreshed(
    m: MeshView,
    network: NetId,
    list: Seq<PeerInfo>,
    peers: Map<(u128, u64), PeerView>,
) -> bool {
    let net = network.key() as u128;
    // Other networks are left alone.
    &&& forall|k: (u128, u64)|
        #![trigger peers.dom().contains(k)]
        #![trigger m.peers.dom().contains(k)]
        k.0 != net ==> peers.dom().contains(k) == m.peers.dom().contains(k) && (
        m.peers.dom().contains(k) ==> peers[k] == m.peers[k])
    // Only devices that the list names have a session.
    &&& forall|d: u64|
        #![trigger peers.dom().contains((net, d))]
        peers.dom().contains((net, d)) ==> exists|i: int|
            0 <= i < list.len() && usable(#[trigger] list[i]) && list[i].device_id == d
    // All devices that the list names have one, as far as there are keys for it.
    &&& forall|i: int|
        #![trigger list[i]]
        0 <= i < list.len() && usable(list[i]) && (m.peers.dom().contains((net, list[i].device_id))
            || keys_with(m, network, list[i]) is Some) ==> peers.dom().contains(
            (net, list[i].device_id),
        )
    // They are as the list says.
    &&& forall|i: int|
        #![trigger list[i]]
        is_latest(list, i, list.len() as int) && peers.dom().contains((net, list[i].device_id))
            ==> told(peers[(net, list[i].device_id)], list[i])
    // A session goes on as it was; a new one begins.
    &&& forall|k: (u128, u64)|
        #![trigger peers.dom().contains(k)]
        peers.dom().contains(k) ==> if m.peers.dom().contains(k) {
            untold(peers[k]) == untold(m.peers[k])
        } else {
            exists|i: int|
                0 <= i < list.len() && opens_session(m, network, list, i) && (
                #[trigger] list[i]).device_id == k.1 && begun(m, network, peers[k], list[i])
        }
}

impl Mesh {
    /// Takes the sessions of a network out whose devices are not listed.
    fn sweep(&mut self, net: u128, listed: &HashSet<u64>) -> (left: Vec<(u64, Option<u64>)>)
        requires
            old(self)@.wf(),
        ensures
            final(self)@.wf(),
            final(self)@ == (MeshView { peers: final(self)@.peers, ..old(self)@ }),
            swept(net, listed@, old(self)@.peers, final(self)@.peers),
            one_each(left@),
            forall|d: u64, link: Option<u64>|
                #![trigger left@.contains((d, link))]
                left@.contains((d, link)) <==> old(self)@.peers.dom().contains((net, d))
                    && !listed@.contains(d) && old(self)@.peers[(net, d)].link == link,
    {
        broadcast use vstd::std_specs::hash::group_hash_axioms;

        let ghost before = self@;
        let mut left: Vec<(u64, Option<u64>)> = Vec::new();
        let keys = peers_keys(&self.peers);
        assert(before.peers.dom() =~= tables::peer_entries(self.peers).dom());
        let mut n: usize = 0;
        while n < keys.len()
            invariant
                n <= keys@.len(),
                keys@.no_duplicates(),
                keys@.to_set() == before.peers.dom(),
                before.wf(),
                self@ == (MeshView { peers: self@.peers, ..before }),
                forall|k: (u128, u64)|
                    #![trigger self@.peers.dom().contains(k)]
                    self@.peers.dom().contains(k) ==> before.peers.dom().contains(k)
                        && self@.peers[k] == before.peers[k],
                forall|j: int|
                    #![trigger keys@[j]]
                    0 <= j < n ==> self@.peers.dom().contains(keys@[j]) == (keys@[j].0 != net
                        || listed@.contains(keys@[j].1)),
                forall|j: int|
                    #![trigger keys@[j]]
                    n <= j < keys@.len() ==> self@.peers.dom().contains(keys@[j]),
                one_each(left@),
                forall|d: u64, link: Option<u64>|
                    #![trigger left@.contains((d, link))]
                    left@.contains((d, link)) <==> exists|j: int|
                        0 <= j < n && #[trigger] keys@[j] == (net, d) && !listed@.contains(d)
                            && before.peers[(net, d)].link == link,
            decreases keys@.len() - n,
        {
            broadcast use vstd::std_specs::hash::group_hash_axioms;

            let key = keys[n];
            let ghost left0 = left@;
            let ghost now = self@;
            if key.0 == net && !listed.contains(&key.1) {
                let ghost m = tables::peer_entries(self.peers);
                assert(peers_view(m).dom() =~= m.dom());
                assert(now.peers.dom().contains(keys@[n as int]));
                match peers_remove(&mut self.peers, key) {
                    Some(peer) => {
                        proof {
                            lemma_peers_insert(m, key, peer);
                        }
                        assert(self@.peers == now.peers.remove(key));
                        left.push((key.1, peer.link));
                        assert forall|x: int| 0 <= x < left0.len() implies (
                        #[trigger] left0[x]).0 != key.1 by {
                            assert(left0.contains((left0[x].0, left0[x].1)));
                            let j = choose|j: int|
                                0 <= j < n && #[trigger] keys@[j] == (net, left0[x].0)
                                    && !listed@.contains(left0[x].0) && before.peers[(
                                    net,
                                    left0[x].0,
                                )].link == left0[x].1;
                            assert(keys@[j] != keys@[n as int]);
                        }
                        assert(peer@.link == before.peers[key].link);
                    },
                    None => {},
                }
                assert forall|d: u64, link: Option<u64>|
                    #![trigger left@.contains((d, link))]
                    left@.contains((d, link)) <==> exists|j: int|
                        0 <= j < n + 1 && #[trigger] keys@[j] == (net, d) && !listed@.contains(d)
                            && before.peers[(net, d)].link == link by {
                    lemma_push_contains(left0, (key.1, before.peers[key].link), (d, link));
                    assert(left0.contains((d, link)) == left0.contains((d, link)));
                    if d == key.1 && link == before.peers[key].link {
                        assert(keys@[n as int] == (net, d));
                    }
                    if exists|j: int|
                        0 <= j < n + 1 && #[trigger] keys@[j] == (net, d) && !listed@.contains(d)
                            && before.peers[(net, d)].link == link {
                        let j = choose|j: int|
                            0 <= j < n + 1 && #[trigger] keys@[j] == (net, d) && !listed@.contains(d)
                                && before.peers[(net, d)].link == link;
                        if j < n {
                            assert(keys@[j] == (net, d));
                        }
                    }
                }
            } else {
                assert forall|d: u64, link: Option<u64>|
                    #![trigger left@.contains((d, link))]
                    left@.contains((d, link)) <==> exists|j: int|
                        0 <= j < n + 1 && #[trigger] keys@[j] == (net, d) && !listed@.contains(d)
                            && before.peers[(net, d)].link == link by {
                    if exists|j: int|
                        0 <= j < n + 1 && #[trigger] keys@[j] == (net, d) && !listed@.contains(d)
                            && before.peers[(net, d)].link == link {
                        let j = choose|j: int|
                            0 <= j < n + 1 && #[trigger] keys@[j] == (net, d) && !listed@.contains(d)
                                && before.peers[(net, d)].link == link;
                        assert(j < n);
                        assert(keys@[j] == (net, d));
                    }
                }
            }
            n += 1;
        }
        proof {
            assert forall|k: (u128, u64)|
                #![trigger self@.peers.dom().contains(k)]
                #![trigger before.peers.dom().contains(k)]
                self@.peers.dom().contains(k) == (before.peers.dom().contains(k) && (k.0 != net
                    || listed@.contains(k.1))) by {
                if before.peers.dom().contains(k) {
                    let j = lemma_key_listed(keys@, k);
                    assert(keys@[j] == k);
                }
            }
            assert forall|d: u64, link: Option<u64>|
                #![trigger left@.contains((d, link))]
                left@.contains((d, link)) <==> before.peers.dom().contains((net, d))
                    && !listed@.contains(d) && before.peers[(net, d)].link == link by {
                if before.peers.dom().contains((net, d)) {
                    let j = lemma_key_listed(keys@, (net, d));
                    assert(keys@[j] == (net, d));
                }
                if left@.contains((d, link)) {
                    let j = choose|j: int|
                        0 <= j < n && #[trigger] keys@[j] == (net, d) && !listed@.contains(d)
                            && before.peers[(net, d)].link == link;
                    assert(keys@.to_set().contains(keys@[j]));
                }
            }
        }
        left
    }

    /// Brings the peers of a network in line with the server's list, and no other
    /// network. Sessions with peers that the list lacks end.
    pub fn refresh_network(&mut self, network: &NetId, list: &Vec<PeerInfo>) -> (report: Refreshed)
        requires
            old(self)@.wf(),
        ensures
            final(self)@.wf(),
            refreshed(old(self)@, *network, list@, final(self)@.peers),
            final(self)@.networks == (if old(self)@.networks.dom().contains(network.key() as u128) {
                old(self)@.networks.insert(
                    network.key() as u128,
                    NetworkView {
                        ip_map: addresses_of(list@),
                        ..old(self)@.networks[network.key() as u128]
                    },
                )
            } else {
                old(self)@.networks
            }),
            final(self)@ == (MeshView {
                peers: final(self)@.peers,
                networks: final(self)@.networks,
                ..old(self)@
            }),
            report.joined@ == newcomers(old(self)@, *network, list@),
            forall|d: u64|
                #![trigger report.joined@.contains(d)]
                report.joined@.contains(d) <==> final(self)@.peers.dom().contains(
                    peer_key(*network, d),
                ) && !old(self)@.peers.dom().contains(peer_key(*network, d)),
            one_each(report.left@),
            forall|d: u64, link: Option<u64>|
                #![trigger report.left@.contains((d, link))]
                report.left@.contains((d, link)) <==> old(self)@.peers.dom().contains(
                    peer_key(*network, d),
                ) && !final(self)@.peers.dom().contains(peer_key(*network, d)) && old(
                    self,
                )@.peers[peer_key(*network, d)].link == link,
    {
        let ghost before = self@;
        let net = network.number();
        let (listed, joined, ip_map) = self.merge_list(network, list);
        let ghost mid = self@;
        let left = self.sweep(net, &listed);
        let ghost after = self@;
        proof {
            lemma_refreshed(before, *network, list@, mid.peers, listed@, after.peers);
            assert forall|d: u64|
                #![trigger joined@.contains(d)]
                joined@.contains(d) <==> after.peers.dom().contains((net, d))
                    && !before.peers.dom().contains((net, d)) by {
                assert(peer_key(*network, d) == (net, d));
                assert(listed@.contains(d) == listed@.contains(d));
                if mid.peers.dom().contains((net, d)) && !before.peers.dom().contains((net, d)) {
                    let i = choose|i: int|
                        0 <= i < list@.len() && opens_session(before, *network, list@, i) && (
                        #[trigger] list@[i]).device_id == d && begun(before, *network, mid.peers[(net, d)], list@[i]);
                    assert(usable(list@[i]));
                    assert(listed@.contains(d));
                }
                assert(after.peers.dom().contains((net, d)) == (mid.peers.dom().contains((net, d))
                    && listed@.contains(d)));
            }
            assert forall|d: u64, link: Option<u64>|
                #![trigger left@.contains((d, link))]
                left@.contains((d, link)) <==> before.peers.dom().contains((net, d))
                    && !after.peers.dom().contains((net, d)) && before.peers[(net, d)].link
                    == link by {
                assert(after.peers.dom().contains((net, d)) == (mid.peers.dom().contains((net, d))
                    && listed@.contains(d)));
                if before.peers.dom().contains((net, d)) {
                    assert(mid.peers.dom().contains((net, d)));
                    assert(untold(mid.peers[(net, d)]).link == untold(before.peers[(net, d)]).link);
                } else if mid.peers.dom().contains((net, d)) {
                    let i = choose|i: int|
                        0 <= i < list@.len() && opens_session(before, *network, list@, i) && (
                        #[trigger] list@[i]).device_id == d && begun(before, *network, mid.peers[(net, d)], list@[i]);
                    assert(peer_key(*network, d) == (net, d));
                    assert(listed@.contains(d));
                }
            }
        }
        let ghost nets = tables::network_entries(self.networks);
        assert(networks_view(nets).dom() =~= nets.dom());
        match networks_remove(&mut self.networks, net) {
            Some(mut ctx) => {
                ctx.ip_map = ip_map;
                proof {
                    lemma_networks_insert(nets, net, ctx);
                }
                networks_insert(&mut self.networks, net, ctx);
                assert(self@.networks == before.networks.insert(
                    net,
                    NetworkView { ip_map: addresses_of(list@), ..before.networks[net] },
                ));
            },
            None => {
                assert(nets.remove(net) =~= nets);
            },
        }
        Refreshed { joined, left }
    }
}

proof fn lemma_push_contains(s: Seq<(u64, Option<u64>)>, x: (u64, Option<u64>), y: (u64, Option<u64>))
    ensures
        s.push(x).contains(y) == (s.contains(y) || x == y),
{
    let t = s.push(x);
    if x == y {
        assert(t[s.len() as int] == y);
    }
    if s.contains(y) {
        let i = choose|i: int| 0 <= i < s.len() && s[i] == y;
        assert(t[i] == y);
    }
    if t.contains(y) && x != y {
        let i = choose|i: int| 0 <= i < t.len() && t[i] == y;
        assert(s[i] == y);
    }
}

proof fn lemma_refreshed(
    m: MeshView,
    network: NetId,
    list: Seq<PeerInfo>,
    mid: Map<(u128, u64), PeerView>,
    listed: Set<u64>,
    peers: Map<(u128, u64), PeerView>,
)
    requires
        merged(m, network, list, list.len() as int, mid),
        swept(network.key() as u128, listed, mid, peers),
        forall|d: u64|
            #![trigger listed.contains(d)]
            listed.contains(d) <==> mid.dom().contains(peer_key(network, d)) && exists|i: int|
                0 <= i < list.len() && usable(#[trigger] list[i]) && list[i].device_id == d,
    ensures
        refreshed(m, network, list, peers),
{
    let net = network.key() as u128;
    assert forall|k: (u128, u64)|
        #![trigger peers.dom().contains(k)]
        #![trigger m.peers.dom().contains(k)]
        k.0 != net implies peers.dom().contains(k) == m.peers.dom().contains(k) && (
    m.peers.dom().contains(k) ==> peers[k] == m.peers[k]) by {
        assert(mid.dom().contains(k) == m.peers.dom().contains(k));
        lemma_outside(m.peers, mid, peers, net, listed, k);
    }
    assert forall|d: u64|
        #![trigger peers.dom().contains((net, d))]
        peers.dom().contains((net, d)) implies exists|i: int|
        0 <= i < list.len() && usable(#[trigger] list[i]) && list[i].device_id == d by {
        assert(listed.contains(d));
    }
    assert forall|i: int|
        #![trigger list[i]]
        0 <= i < list.len() && usable(list[i]) && (m.peers.dom().contains((net, list[i].device_id))
            || keys_with(m, network, list[i]) is Some) implies peers.dom().contains(
    (net, list[i].device_id)) by {
        let d = list[i].device_id;
        assert(mid.dom().contains((net, d)));
        assert(peer_key(network, d) == (net, d));
        assert(listed.contains(d));
    }
    assert forall|i: int|
        #![trigger list[i]]
        is_latest(list, i, list.len() as int) && peers.dom().contains(
            (net, list[i].device_id),
        ) implies told(peers[(net, list[i].device_id)], list[i]) by {
        assert(mid.dom().contains((net, list[i].device_id)));
    }
    assert forall|k: (u128, u64)|
        #![trigger peers.dom().contains(k)]
        peers.dom().contains(k) implies if m.peers.dom().contains(k) {
        untold(peers[k]) == untold(m.peers[k])
    } else {
        exists|i: int|
            0 <= i < list.len() && opens_session(m, network, list, i) && (#[trigger] list[i]).device_id == k.1 && begun(
                m,
                network,
                peers[k],
                list[i],
            )
    } by {
        assert(mid.dom().contains(k));
    }
}

proof fn lemma_outside(
    before: Map<(u128, u64), PeerView>,
    mid: Map<(u128, u64), PeerView>,
    after: Map<(u128, u64), PeerView>,
    net: u128,
    listed: Set<u64>,
    k: (u128, u64),
)
    requires
        k.0 != net,
        swept(net, listed, mid, after),
        mid.dom().contains(k) == before.dom().contains(k),
        mid[k] == before[k],
    ensures
        after.dom().contains(k) == before.dom().contains(k),
        before.dom().contains(k) ==> after[k] == before[k],
{
}

/// The subnet that a text names, if it names one.
pub open spec fn cidr_in(text: Seq<char>) -> Option<(u32, u32)> {
    match ipam::parsed_cidr(text) {
        Ok(parts) => Some(parts),
        Err(_) => None,
    }
}

fn read_cidr(text: &str) -> (cidr: Option<Cidr>)
    ensures
        match cidr {
            Some(c) => c.wf() && cidr_in(text@) == Some((c.network, c.prefix)),
            None => cidr_in(text@) is None,
        },
{
    match Cidr::parse(text) {
        Ok(c) => Some(c),
        Err(_) => None,
    }
}

/// The network is as the server's configuration says.
pub open spec fn configured(n: NetworkView, cidr: Seq<char>, ip: Seq<char>) -> bool {
    &&& match n.cidr {
        Some(c) => cidr_in(cidr) == Some((c.network, c.prefix)),
        None => cidr_in(cidr) is None,
    }
    &&& n.self_ip == addr::ipv4_value(ip)
}

/// The name of a network; its identifier if the node does not take part in it.
pub open spec fn name_in(m: MeshView, network: NetId) -> Seq<char> {
    if m.networks.dom().contains(network.key() as u128) {
        m.networks[network.key() as u128].name
    } else {
        primitives::hex_text(network.0@)
    }
}

/// Some network counts `ip` among its addresses.
pub open spec fn is_mapped(m: MeshView, net: u128, ip: u32) -> bool {
    m.networks.dom().contains(net) && m.networks[net].ip_map.dom().contains(ip)
}

/// What a report says of a peer.
pub open spec fn reports(
    r: PeerPathReport,
    device: u64,
    p: PeerView,
    prev: Option<HbCounters>,
    elapsed_ms: Option<u128>,
) -> bool {
    let seen = if p.codec.total_seen() <= u64::MAX && p.codec.total_lost() <= u64::MAX {
        (p.codec.total_seen() as u64, p.codec.total_lost() as u64)
    } else {
        (0u64, 0u64)
    };
    let before = match prev {
        Some(c) => Some((c.tx_bytes, c.rx_bytes)),
        None => None,
    };
    let seen_before = match prev {
        Some(c) => Some((c.rx_seen, c.rx_lost)),
        None => None,
    };
    &&& r.device_id == device
    &&& r.path@ == p.path.text()
    &&& r.rtt_ms == Some(p.rtt_ms)
    &&& (r.tx_bps, r.rx_bps) == (match elapsed_ms {
        Some(dt) => heartbeat::rates(before, (p.tx_bytes, p.rx_bytes), dt as nat),
        None => (None, None),
    })
    &&& r.rx_loss == heartbeat::loss_out_of_ten_thousand(seen_before, seen)
}

/// What is remembered of a peer until the next report.
pub open spec fn counters_of(p: PeerView) -> HbCounters {
    if p.codec.total_seen() <= u64::MAX && p.codec.total_lost() <= u64::MAX {
        HbCounters {
            tx_bytes: p.tx_bytes,
            rx_bytes: p.rx_bytes,
            rx_seen: p.codec.total_seen() as u64,
            rx_lost: p.codec.total_lost() as u64,
        }
    } else {
        HbCounters { tx_bytes: p.tx_bytes, rx_bytes: p.rx_bytes, rx_seen: 0, rx_lost: 0 }
    }
}

/// Reports on a peer that has answered, and what to remember of it.
pub fn report_on(
    peer: &PeerSession,
    device: u64,
    prev: Option<HbCounters>,
    elapsed_ms: Option<u128>,
) -> (report: (PeerPathReport, HbCounters))
    ensures
        reports(report.0, device, peer@, prev, elapsed_ms),
        report.1 == counters_of(peer@),
{
    let (rx_seen, rx_lost) = match peer.codec.checked_stats() {
        Some(totals) => totals,
        None => (0, 0),
    };
    let cur = HbCounters { tx_bytes: peer.tx_bytes, rx_bytes: peer.rx_bytes, rx_seen, rx_lost };
    let bytes_before = match prev {
        Some(c) => Some((c.tx_bytes, c.rx_bytes)),
        None => None,
    };
    let seen_before = match prev {
        Some(c) => Some((c.rx_seen, c.rx_lost)),
        None => None,
    };
    let (tx_bps, rx_bps) = match elapsed_ms {
        Some(dt) => rate_bps(bytes_before, (cur.tx_bytes, cur.rx_bytes), dt),
        None => (None, None),
    };
    let rx_loss = loss_permille(seen_before, (rx_seen, rx_lost));
    let report = PeerPathReport {
        device_id: device,
        path: owned(peer.path().as_str()),
        rtt_ms: Some(peer.rtt_ms),
        tx_bps,
        rx_bps,
        rx_loss,
    };
    (report, cur)
}

/// What the status file says of a peer.
pub open spec fn status_matches(s: PeerStatus, p: PeerView, network: Seq<char>, endpoint: Seq<char>) -> bool {
    &&& s.network@ == network
    &&& s.name@ == p.name
    &&& s.ip@ == addr::ipv4_text(p.virtual_ip)
    &&& s.online == p.online
    &&& s.path@ == p.path.text()
    &&& s.endpoint@ == endpoint
    &&& s.rtt_ms == p.rtt_ms
    &&& s.tx_bytes == p.tx_bytes
    &&& s.rx_bytes == p.rx_bytes
    &&& s.tx_packets == p.tx_packets
    &&& s.rx_packets == p.rx_packets
}

impl Mesh {
    /// Takes note that the node stops: nothing is sent any more.
    pub fn stop(&mut self)
        ensures
            final(self)@ == (MeshView { stopping: true, ..old(self)@ }),
    {
        self.stopping = true;
    }

    /// Takes part in a network, or takes note of its new configuration.
    pub fn set_network(&mut self, id: &NetId, name: &str, cidr: &str, ip: &str)
        requires
            old(self)@.wf(),
        ensures
            final(self)@.wf(),
            final(self)@ == (MeshView {
                networks: old(self)@.networks.insert(
                    id.key() as u128,
                    final(self)@.networks[id.key() as u128],
                ),
                ..old(self)@
            }),
            configured(final(self)@.networks[id.key() as u128], cidr@, ip@),
            final(self)@.networks[id.key() as u128] == (NetworkView {
                cidr: final(self)@.networks[id.key() as u128].cidr,
                self_ip: final(self)@.networks[id.key() as u128].self_ip,
                ..if old(self)@.networks.dom().contains(id.key() as u128) {
                    old(self)@.networks[id.key() as u128]
                } else {
                    NetworkView {
                        id: *id,
                        name: name@,
                        cidr: None,
                        self_ip: None,
                        ip_map: Map::empty(),
                    }
                }
            }),
    {
        broadcast use vstd::std_specs::hash::group_hash_axioms;

        let net = id.number();
        let ghost nets = tables::network_entries(self.networks);
        let ghost before = self@;
        assert(networks_view(nets).dom() =~= nets.dom());
        let mut ctx = match networks_remove(&mut self.networks, net) {
            Some(ctx) => ctx,
            None => {
                let ip_map: HashMap<u32, u64> = HashMap::new();
                assert(ip_map@ =~= Map::empty());
                NetworkCtx { id: *id, name: owned(name), cidr: None, self_ip: None, ip_map }
            },
        };
        ctx.cidr = read_cidr(cidr);
        ctx.self_ip = parse_ipv4(ip);
        let ghost after = ctx@;
        proof {
            lemma_networks_insert(nets, net, ctx);
        }
        networks_insert(&mut self.networks, net, ctx);
        assert(self@.networks == before.networks.insert(net, after));
    }

    /// The name of a network; its identifier if the node does not take part in it.
    pub fn network_name(&mut self, id: &NetId) -> (name: String)
        ensures
            final(self)@ == old(self)@,
            name@ == name_in(old(self)@, *id),
    {
        let net = id.number();
        let ghost nets = tables::network_entries(self.networks);
        let ghost before = self@;
        assert(networks_view(nets).dom() =~= nets.dom());
        match networks_remove(&mut self.networks, net) {
            Some(ctx) => {
                let name = ctx.name.clone();
                proof {
                    lemma_networks_insert(nets, net, ctx);
                }
                networks_insert(&mut self.networks, net, ctx);
                assert(self@.networks == before.networks);
                name
            },
            None => {
                assert(nets.remove(net) =~= nets);
                id.to_hex()
            },
        }
    }

    /// Whether the node takes part in a network.
    pub fn has_network(&self, id: &NetId) -> (there: bool)
        ensures
            there == self@.networks.dom().contains(id.key() as u128),
    {
        let net = id.number();
        let keys = networks_keys(&self.networks);
        assert(self@.networks.dom() =~= tables::network_entries(self.networks).dom());
        let mut i: usize = 0;
        while i < keys.len()
            invariant
                i <= keys@.len(),
                keys@.to_set() == self@.networks.dom(),
                net == id.key(),
                forall|j: int| 0 <= j < i ==> keys@[j] != net,
            decreases keys@.len() - i,
        {
            if keys[i] == net {
                assert(keys@.to_set().contains(keys@[i as int]));
                return true;
            }
            i += 1;
        }
        assert(!keys@.to_set().contains(net));
        false
    }

    /// The node's own address in a network.
    pub fn self_ip_of(&mut self, id: &NetId) -> (ip: Option<u32>)
        ensures
            final(self)@ == old(self)@,
            ip == (if old(self)@.networks.dom().contains(id.key() as u128) {
                old(self)@.networks[id.key() as u128].self_ip
            } else {
                None
            }),
    {
        let net = id.number();
        let ghost nets = tables::network_entries(self.networks);
        let ghost before = self@;
        assert(networks_view(nets).dom() =~= nets.dom());
        match networks_remove(&mut self.networks, net) {
            Some(ctx) => {
                let ip = ctx.self_ip;
                proof {
                    lemma_networks_insert(nets, net, ctx);
                }
                networks_insert(&mut self.networks, net, ctx);
                assert(self@.networks == before.networks);
                ip
            },
            None => {
                assert(nets.remove(net) =~= nets);
                None
            },
        }
    }

    /// The networks that the node takes part in, each with its subnet if that is
    /// known, in an order that is left open.
    pub fn network_list(&mut self) -> (list: Vec<(NetId, String, Option<Cidr>)>)
        requires
            old(self)@.wf(),
        ensures
            final(self)@ == old(self)@,
            list@.len() == old(self)@.networks.dom().len(),
            forall|i: int|
                0 <= i < list@.len() ==> {
                    let n = (#[trigger] list@[i]).0.key() as u128;
                    &&& old(self)@.networks.dom().contains(n)
                    &&& list@[i].0 == old(self)@.networks[n].id
                    &&& list@[i].1@ == old(self)@.networks[n].name
                    &&& list@[i].2 == old(self)@.networks[n].cidr
                },
            forall|n: u128| #[trigger]
                old(self)@.networks.dom().contains(n) ==> exists|i: int|
                    0 <= i < list@.len() && (#[trigger] list@[i]).0.key() == n,
    {
        let ghost before = self@;
        let keys = networks_keys(&self.networks);
        assert(before.networks.dom() =~= tables::network_entries(self.networks).dom());
        proof {
            keys@.unique_seq_to_set();
        }
        let mut list: Vec<(NetId, String, Option<Cidr>)> = Vec::new();
        let mut i: usize = 0;
        while i < keys.len()
            invariant
                i <= keys@.len(),
                keys@.to_set() == before.networks.dom(),
                before.wf(),
                self@ == before,
                list@.len() == i,
                forall|j: int|
                    0 <= j < i ==> {
                        &&& (#[trigger] list@[j]).0.key() == keys@[j]
                        &&& list@[j].0 == before.networks[keys@[j]].id
                        &&& list@[j].1@ == before.networks[keys@[j]].name
                        &&& list@[j].2 == before.networks[keys@[j]].cidr
                    },
            decreases keys@.len() - i,
        {
            let net = keys[i];
            let ghost nets = tables::network_entries(self.networks);
            assert(networks_view(nets).dom() =~= nets.dom());
            assert(keys@.to_set().contains(net));
            match networks_remove(&mut self.networks, net) {
                Some(ctx) => {
                    list.push((ctx.id, ctx.name.clone(), ctx.cidr));
                    proof {
                        lemma_networks_insert(nets, net, ctx);
                    }
                    networks_insert(&mut self.networks, net, ctx);
                    assert(self@.networks == before.networks);
                },
                None => {},
            }
            i += 1;
        }
        proof {
            assert forall|j: int| 0 <= j < list@.len() implies {
                let n = (#[trigger] list@[j]).0.key() as u128;
                &&& before.networks.dom().contains(n)
                &&& list@[j].0 == before.networks[n].id
                &&& list@[j].1@ == before.networks[n].name
                &&& list@[j].2 == before.networks[n].cidr
            } by {
                assert(keys@.to_set().contains(keys@[j]));
            }
            assert forall|n: u128| #[trigger] before.networks.dom().contains(n) implies exists|j: int|
                0 <= j < list@.len() && (#[trigger] list@[j]).0.key() == n by {
                assert(keys@.to_set().contains(n));
                let j = choose|j: int| 0 <= j < keys@.len() && keys@[j] == n;
                assert(list@[j].0.key() == n);
            }
        }
        list
    }

    /// The peer that has a virtual address. Where several networks use the address,
    /// the first that comes up decides, in an order that is left open.
    pub fn peer_by_ip(&mut self, ip: u32) -> (peer: Option<(NetId, u64)>)
        requires
            old(self)@.wf(),
        ensures
            final(self)@ == old(self)@,
            match peer {
                Some((network, device)) => {
                    let net = network.key() as u128;
                    &&& is_mapped(old(self)@, net, ip)
                    &&& old(self)@.networks[net].ip_map[ip] == device
                    &&& old(self)@.peers.dom().contains((net, device))
                },
                None => (forall|net: u128| !#[trigger] is_mapped(old(self)@, net, ip)) || exists|
                    net: u128,
                |
                    #[trigger] is_mapped(old(self)@, net, ip) && !old(self)@.peers.dom().contains(
                        (net, old(self)@.networks[net].ip_map[ip]),
                    ),
            },
    {
        broadcast use vstd::std_specs::hash::group_hash_axioms;

        let ghost before = self@;
        let keys = networks_keys(&self.networks);
        assert(before.networks.dom() =~= tables::network_entries(self.networks).dom());
        let mut i: usize = 0;
        while i < keys.len()
            invariant
                i <= keys@.len(),
                keys@.to_set() == before.networks.dom(),
                before.wf(),
                self@ == before,
                before == old(self)@,
                forall|j: int| 0 <= j < i ==> !is_mapped(before, #[trigger] keys@[j], ip),
            decreases keys@.len() - i,
        {
            broadcast use vstd::std_specs::hash::group_hash_axioms;

            let net = keys[i];
            let ghost nets = tables::network_entries(self.networks);
            assert(networks_view(nets).dom() =~= nets.dom());
            assert(keys@.to_set().contains(net));
            match networks_remove(&mut self.networks, net) {
                Some(ctx) => {
                    let id = ctx.id;
                    let hit: Option<u64> = match ctx.ip_map.get(&ip) {
                        Some(device) => Some(*device),
                        None => None,
                    };
                    proof {
                        lemma_networks_insert(nets, net, ctx);
                    }
                    networks_insert(&mut self.networks, net, ctx);
                    assert(self@.networks == before.networks);
                    if let Some(device) = hit {
                        assert(is_mapped(before, net, ip));
                        let ghost m = tables::peer_entries(self.peers);
                        assert(peers_view(m).dom() =~= m.dom());
                        match peers_remove(&mut self.peers, (net, device)) {
                            Some(peer) => {
                                proof {
                                    lemma_peers_insert(m, (net, device), peer);
                                }
                                peers_insert(&mut self.peers, (net, device), peer);
                                assert(self@.peers == before.peers);
                                return Some((id, device));
                            },
                            None => {
                                assert(m.remove((net, device)) =~= m);
                                return None;
                            },
                        }
                    }
                },
                None => {},
            }
            i += 1;
        }
        proof {
            assert forall|net: u128| !#[trigger] is_mapped(before, net, ip) by {
                if is_mapped(before, net, ip) {
                    assert(keys@.to_set().contains(net));
                    let j = choose|j: int| 0 <= j < keys@.len() && keys@[j] == net;
                    assert(!is_mapped(before, keys@[j], ip));
                }
            }
        }
        None
    }

    /// The peers, in an order that is left open.
    pub fn peer_list(&mut self) -> (list: Vec<(NetId, u64, bool)>)
        requires
            old(self)@.wf(),
        ensures
            final(self)@ == old(self)@,
            list@.len() == old(self)@.peers.dom().len(),
            forall|i: int|
                0 <= i < list@.len() ==> {
                    let k = peer_key((#[trigger] list@[i]).0, list@[i].1);
                    old(self)@.peers.dom().contains(k) && list@[i].2 == old(self)@.peers[k].online
                },
            forall|k: (u128, u64)| #[trigger]
                old(self)@.peers.dom().contains(k) ==> exists|i: int|
                    0 <= i < list@.len() && peer_key((#[trigger] list@[i]).0, list@[i].1) == k,
    {
        let ghost before = self@;
        let keys = peers_keys(&self.peers);
        assert(before.peers.dom() =~= tables::peer_entries(self.peers).dom());
        proof {
            keys@.unique_seq_to_set();
        }
        let mut list: Vec<(NetId, u64, bool)> = Vec::new();
        let mut i: usize = 0;
        while i < keys.len()
            invariant
                i <= keys@.len(),
                keys@.to_set() == before.peers.dom(),
                before.wf(),
                self@ == before,
                list@.len() == i,
                forall|j: int|
                    0 <= j < i ==> peer_key((#[trigger] list@[j]).0, list@[j].1) == keys@[j]
                        && list@[j].2 == before.peers[keys@[j]].online,
            decreases keys@.len() - i,
        {
            let key = keys[i];
            let ghost m = tables::peer_entries(self.peers);
            assert(peers_view(m).dom() =~= m.dom());
            assert(keys@.to_set().contains(key));
            match peers_remove(&mut self.peers, key) {
                Some(peer) => {
                    list.push((peer.network, peer.id, peer.online));
                    proof {
                        lemma_peers_insert(m, key, peer);
                    }
                    peers_insert(&mut self.peers, key, peer);
                    assert(self@.peers == before.peers);
                },
                None => {},
            }
            i += 1;
        }
        proof {
            assert forall|j: int| 0 <= j < list@.len() implies {
                let k = peer_key((#[trigger] list@[j]).0, list@[j].1);
                before.peers.dom().contains(k) && list@[j].2 == before.peers[k].online
            } by {
                assert(keys@.to_set().contains(keys@[j]));
            }
            assert forall|k: (u128, u64)| #[trigger] before.peers.dom().contains(k) implies exists|
                j: int,
            |
                0 <= j < list@.len() && peer_key((#[trigger] list@[j]).0, list@[j].1) == k by {
                let j = lemma_key_listed(keys@, k);
                assert(peer_key(list@[j].0, list@[j].1) == k);
            }
        }
        list
    }

    /// What the status file says of a peer. `endpoint` is the peer's address in
    /// words, where a direct one was learned.
    pub fn peer_status(&mut self, network: &NetId, device: u64, endpoint: Option<String>) -> (status: Option<
        PeerStatus,
    >)
        requires
            old(self)@.wf(),
        ensures
            final(self)@ == old(self)@,
            status is Some == old(self)@.peers.dom().contains(peer_key(*network, device)),
            status matches Some(s) ==> status_matches(
                s,
                old(self)@.peers[peer_key(*network, device)],
                name_in(old(self)@, *network),
                match endpoint {
                    Some(e) => e@,
                    None => "relay"@,
                },
            ),
    {
        let name = self.network_name(network);
        let key = (network.number(), device);
        let ghost m = tables::peer_entries(self.peers);
        let ghost before = self@;
        assert(peers_view(m).dom() =~= m.dom());
        match peers_remove(&mut self.peers, key) {
            Some(peer) => {
                let status = PeerStatus {
                    network: name,
                    name: peer.name.clone(),
                    ip: ipv4_to_text(peer.virtual_ip),
                    online: peer.online,
                    path: owned(peer.path().as_str()),
                    endpoint: match endpoint {
                        Some(e) => e,
                        None => owned("relay"),
                    },
                    rtt_ms: peer.rtt_ms,
                    tx_bytes: peer.tx_bytes,
                    rx_bytes: peer.rx_bytes,
                    tx_packets: peer.tx_packets,
                    rx_packets: peer.rx_packets,
                };
                proof {
                    lemma_peers_insert(m, key, peer);
                }
                peers_insert(&mut self.peers, key, peer);
                assert(self@.peers == before.peers);
                Some(status)
            },
            None => {
                assert(m.remove(key) =~= m);
                None
            },
        }
    }

    /// The address that was learned of a peer, and its name.
    pub fn learned_endpoint(&mut self, network: &NetId, device: u64) -> (endpoint: Option<SocketAddr>)
        requires
            old(self)@.wf(),
        ensures
            final(self)@ == old(self)@,
            endpoint == (if old(self)@.peers.dom().contains(peer_key(*network, device)) && old(
                self,
            )@.peers[peer_key(*network, device)].direct is Some {
                Some((old(self)@.peers[peer_key(*network, device)].direct->0).0)
            } else {
                None
            }),
    {
        let key = (network.number(), device);
        let ghost m = tables::peer_entries(self.peers);
        let ghost before = self@;
        assert(peers_view(m).dom() =~= m.dom());
        match peers_remove(&mut self.peers, key) {
            Some(peer) => {
                let endpoint = match peer.direct_endpoint {
                    Some((to, _)) => Some(to),
                    None => None,
                };
                proof {
                    lemma_peers_insert(m, key, peer);
                }
                peers_insert(&mut self.peers, key, peer);
                assert(self@.peers == before.peers);
                endpoint
            },
            None => {
                assert(m.remove(key) =~= m);
                None
            },
        }
    }

    /// The number of the direct connection with a peer.
    pub fn link_of(&mut self, network: &NetId, device: u64) -> (link: Option<u64>)
        requires
            old(self)@.wf(),
        ensures
            final(self)@ == old(self)@,
            link == (if old(self)@.peers.dom().contains(peer_key(*network, device)) {
                old(self)@.peers[peer_key(*network, device)].link
            } else {
                None
            }),
    {
        let key = (network.number(), device);
        let ghost m = tables::peer_entries(self.peers);
        let ghost before = self@;
        assert(peers_view(m).dom() =~= m.dom());
        match peers_remove(&mut self.peers, key) {
            Some(peer) => {
                let link = peer.link;
                proof {
                    lemma_peers_insert(m, key, peer);
                }
                peers_insert(&mut self.peers, key, peer);
                assert(self@.peers == before.peers);
                link
            },
            None => {
                assert(m.remove(key) =~= m);
                None
            },
        }
    }

    /// Reports on the peers that have answered at least once: `prev` is what was
    /// remembered of each device at the last report, `elapsed_ms` how long that is
    /// ago. What to remember now comes back with the reports.
    pub fn path_reports(&mut self, prev: &HashMap<u64, HbCounters>, elapsed_ms: Option<u128>) -> (outcome: (
        Vec<PeerPathReport>,
        HashMap<u64, HbCounters>,
    ))
        requires
            old(self)@.wf(),
        ensures
            final(self)@ == old(self)@,
            reported_all(old(self)@, prev@, elapsed_ms, outcome.0@, outcome.1@),
    {
        broadcast use vstd::std_specs::hash::group_hash_axioms;

        let ghost before = self@;
        let keys = peers_keys(&self.peers);
        assert(before.peers.dom() =~= tables::peer_entries(self.peers).dom());
        let mut list: Vec<PeerPathReport> = Vec::new();
        let mut next: HashMap<u64, HbCounters> = HashMap::new();
        let ghost mut told: Seq<(u128, u64)> = Seq::empty();
        let mut i: usize = 0;
        while i < keys.len()
            invariant
                i <= keys@.len(),
                keys@.no_duplicates(),
                keys@.to_set() == before.peers.dom(),
                before.wf(),
                self@ == before,
                reported(before, prev@, elapsed_ms, told, list@, next@),
                forall|x: int|
                    0 <= x < told.len() ==> exists|j: int| 0 <= j < i && keys@[j] == #[trigger] told[x],
                forall|j: int|
                    #![trigger keys@[j]]
                    0 <= j < i && before.peers[keys@[j]].rtt_ms >= 0 ==> told.contains(keys@[j]),
            decreases keys@.len() - i,
        {
            broadcast use vstd::std_specs::hash::group_hash_axioms;

            let key = keys[i];
            let ghost told0 = told;
            let ghost m = tables::peer_entries(self.peers);
            assert(peers_view(m).dom() =~= m.dom());
            assert(keys@.to_set().contains(key));
            match peers_remove(&mut self.peers, key) {
                Some(peer) => {
                    if peer.rtt_ms >= 0 {
                        let last: Option<HbCounters> = match prev.get(&key.1) {
                            Some(c) => Some(*c),
                            None => None,
                        };
                        let (report, counters) = report_on(&peer, key.1, last, elapsed_ms);
                        let ghost list0 = list@;
                        let ghost next0 = next@;
                        list.push(report);
                        next.insert(key.1, counters);
                        proof {
                            told = told.push(key);
                            assert forall|x: int| 0 <= x < told.len() implies exists|j: int|
                                0 <= j < i + 1 && keys@[j] == #[trigger] told[x] by {
                                if x < told0.len() {
                                    let j = choose|j: int| 0 <= j < i && keys@[j] == told0[x];
                                    assert(keys@[j] == told[x]);
                                } else {
                                    assert(keys@[i as int] == told[x]);
                                }
                            }
                            assert(!told0.contains(key)) by {
                                if told0.contains(key) {
                                    let x = choose|x: int| 0 <= x < told0.len() && told0[x] == key;
                                    let j = choose|j: int| 0 <= j < i && keys@[j] == told0[x];
                                    assert(keys@[j] == keys@[i as int]);
                                }
                            }
                            lemma_reported_step(
                                before,
                                prev@,
                                elapsed_ms,
                                told0,
                                list0,
                                next0,
                                key,
                                report,
                            );
                            assert(told[told0.len() as int] == key);
                            assert forall|j: int|
                                #![trigger keys@[j]]
                                0 <= j < i + 1 && before.peers[keys@[j]].rtt_ms >= 0 implies told.contains(
                            keys@[j]) by {
                                if j < i {
                                    assert(told0.contains(keys@[j]));
                                    let x = choose|x: int|
                                        0 <= x < told0.len() && told0[x] == keys@[j];
                                    assert(told[x] == keys@[j]);
                                }
                            }
                        }
                    } else {
                        proof {
                            assert(before.peers[keys@[i as int]].rtt_ms < 0);
                            assert forall|x: int| 0 <= x < told.len() implies exists|j: int|
                                0 <= j < i + 1 && keys@[j] == #[trigger] told[x] by {
                                let j = choose|j: int| 0 <= j < i && keys@[j] == told[x];
                                assert(keys@[j] == told[x]);
                            }
                        }
                    }
                    proof {
                        lemma_peers_insert(m, key, peer);
                    }
                    peers_insert(&mut self.peers, key, peer);
                    assert(self@.peers == before.peers);
                },
                None => {},
            }
            i += 1;
        }
        proof {
            assert forall|k: (u128, u64)| #[trigger]
                before.peers.dom().contains(k) && before.peers[k].rtt_ms >= 0 implies told.contains(
            k) by {
                let j = lemma_key_listed(keys@, k);
                assert(told.contains(keys@[j]));
            }
            assert(reported_all(before, prev@, elapsed_ms, list@, next@));
        }
        (list, next)
    }
}

/// The reports are those of the sessions `told`, in that order, and what is to be
/// remembered is what they show.
pub open spec fn reported(
    m: MeshView,
    prev: Map<u64, HbCounters>,
    elapsed_ms: Option<u128>,
    told: Seq<(u128, u64)>,
    list: Seq<PeerPathReport>,
    next: Map<u64, HbCounters>,
) -> bool {
    &&& told.no_duplicates()
    &&& told.len() == list.len()
    &&& forall|i: int|
        #![trigger told[i]]
        #![trigger list[i]]
        0 <= i < told.len() ==> {
            &&& m.peers.dom().contains(told[i])
            &&& m.peers[told[i]].rtt_ms >= 0
            &&& next.dom().contains(told[i].1)
            &&& reports(
                list[i],
                told[i].1,
                m.peers[told[i]],
                if prev.dom().contains(told[i].1) {
                    Some(prev[told[i].1])
                } else {
                    None
                },
                elapsed_ms,
            )
        }
    &&& forall|d: u64| #[trigger]
        next.dom().contains(d) ==> exists|i: int|
            0 <= i < told.len() && (#[trigger] told[i]).1 == d && next[d] == counters_of(
                m.peers[told[i]],
            )
}

/// Every session that has answered is reported on, once, and no other.
pub open spec fn reported_all(
    m: MeshView,
    prev: Map<u64, HbCounters>,
    elapsed_ms: Option<u128>,
    list: Seq<PeerPathReport>,
    next: Map<u64, HbCounters>,
) -> bool {
    exists|told: Seq<(u128, u64)>|
        {
            &&& #[trigger] reported(m, prev, elapsed_ms, told, list, next)
            &&& forall|k: (u128, u64)| #[trigger]
                m.peers.dom().contains(k) && m.peers[k].rtt_ms >= 0 ==> told.contains(k)
        }
}

proof fn lemma_reported_step(
    m: MeshView,
    prev: Map<u64, HbCounters>,
    elapsed_ms: Option<u128>,
    told: Seq<(u128, u64)>,
    list: Seq<PeerPathReport>,
    next: Map<u64, HbCounters>,
    key: (u128, u64),
    report: PeerPathReport,
)
    requires
        reported(m, prev, elapsed_ms, told, list, next),
        !told.contains(key),
        m.peers.dom().contains(key),
        m.peers[key].rtt_ms >= 0,
        reports(
            report,
            key.1,
            m.peers[key],
            if prev.dom().contains(key.1) {
                Some(prev[key.1])
            } else {
                None
            },
            elapsed_ms,
        ),
    ensures
        reported(
            m,
            prev,
            elapsed_ms,
            told.push(key),
            list.push(report),
            next.insert(key.1, counters_of(m.peers[key])),
        ),
{
    let told1 = told.push(key);
    let list1 = list.push(report);
    let next1 = next.insert(key.1, counters_of(m.peers[key]));
    assert forall|i: int, j: int| 0 <= i < told1.len() && 0 <= j < told1.len() && i != j implies told1[i]
        != told1[j] by {
        if i < told.len() && j < told.len() {
            assert(told[i] != told[j]);
        } else if i < told.len() {
            assert(told[i] != key);
        } else {
            assert(told[j] != key);
        }
    }
    assert forall|i: int|
        #![trigger told1[i]]
        #![trigger list1[i]]
        0 <= i < told1.len() implies {
        &&& m.peers.dom().contains(told1[i])
        &&& m.peers[told1[i]].rtt_ms >= 0
        &&& next1.dom().contains(told1[i].1)
        &&& reports(
            list1[i],
            told1[i].1,
            m.peers[told1[i]],
            if prev.dom().contains(told1[i].1) {
                Some(prev[told1[i].1])
            } else {
                None
            },
            elapsed_ms,
        )
    } by {
        if i < told.len() {
            assert(told1[i] == told[i]);
            assert(list1[i] == list[i]);
        }
    }
    assert forall|d: u64| #[trigger] next1.dom().contains(d) implies exists|i: int|
        0 <= i < told1.len() && (#[trigger] told1[i]).1 == d && next1[d] == counters_of(
            m.peers[told1[i]],
        ) by {
        if d == key.1 {
            assert(told1[told.len() as int] == key);
        } else {
            assert(next.dom().contains(d));
            let i = choose|i: int|
                0 <= i < told.len() && (#[trigger] told[i]).1 == d && next[d] == counters_of(
                    m.peers[told[i]],
                );
            assert(told1[i] == told[i]);
        }
    }
}

/// The node takes part in the network, and the server does not list it any more.
pub open spec fn is_stale(m: MeshView, roster: Set<u128>, net: u128) -> bool {
    m.networks.dom().contains(net) && !roster.contains(net)
}

/// What the end of a network comes to.
pub open spec fn ends(m: MeshView, ended: Pruned) -> bool {
    let net = ended.network.key() as u128;
    &&& m.networks.dom().contains(net)
    &&& ended.network == m.networks[net].id
    &&& ended.name@ == m.networks[net].name
    &&& one_each(ended.peers@)
    &&& forall|d: u64, link: Option<u64>|
        #![trigger ended.peers@.contains((d, link))]
        ended.peers@.contains((d, link)) <==> m.peers.dom().contains((net, d)) && m.peers[(
            net,
            d,
        )].link == link
}

impl Mesh {
    /// Ends the networks that the server does not list any more, and the sessions
    /// in them. Other networks and their sessions stay as they are.
    pub fn prune(&mut self, roster: &HashSet<u128>) -> (ended: Vec<Pruned>)
        requires
            old(self)@.wf(),
        ensures
            final(self)@.wf(),
            final(self)@ == (MeshView {
                peers: final(self)@.peers,
                networks: final(self)@.networks,
                ..old(self)@
            }),
            final(self)@.networks == old(self)@.networks.restrict(roster@),
            forall|k: (u128, u64)| #[trigger]
                final(self)@.peers.dom().contains(k) <==> old(self)@.peers.dom().contains(k)
                    && !is_stale(old(self)@, roster@, k.0),
            forall|k: (u128, u64)| #[trigger]
                final(self)@.peers.dom().contains(k) ==> final(self)@.peers[k] == old(
                    self,
                )@.peers[k],
            forall|i: int|
                0 <= i < ended@.len() ==> ends(old(self)@, #[trigger] ended@[i]) && !roster@.contains(
                    ended@[i].network.key() as u128,
                ),
            forall|i: int, j: int|
                0 <= i < j < ended@.len() ==> (#[trigger] ended@[i]).network.key() != (
                #[trigger] ended@[j]).network.key(),
            forall|n: u128| #[trigger]
                is_stale(old(self)@, roster@, n) ==> exists|i: int|
                    0 <= i < ended@.len() && (#[trigger] ended@[i]).network.key() == n,
    {
        broadcast use vstd::std_specs::hash::group_hash_axioms;

        let ghost before = self@;
        let none: HashSet<u64> = HashSet::new();
        let keys = networks_keys(&self.networks);
        assert(before.networks.dom() =~= tables::network_entries(self.networks).dom());
        let mut ended: Vec<Pruned> = Vec::new();
        let mut i: usize = 0;
        while i < keys.len()
            invariant
                i <= keys@.len(),
                keys@.no_duplicates(),
                keys@.to_set() == before.networks.dom(),
                none@ == Set::<u64>::empty(),
                before.wf(),
                self@.wf(),
                self@ == (MeshView { peers: self@.peers, networks: self@.networks, ..before }),
                forall|n: u128|
                    #![trigger self@.networks.dom().contains(n)]
                    self@.networks.dom().contains(n) ==> before.networks.dom().contains(n)
                        && self@.networks[n] == before.networks[n],
                forall|j: int|
                    #![trigger keys@[j]]
                    0 <= j < keys@.len() ==> self@.networks.dom().contains(keys@[j]) == (j >= i
                        || roster@.contains(keys@[j])),
                forall|k: (u128, u64)|
                    #![trigger self@.peers.dom().contains(k)]
                    self@.peers.dom().contains(k) <==> before.peers.dom().contains(k) && (
                    self@.networks.dom().contains(k.0) || !before.networks.dom().contains(k.0)),
                forall|k: (u128, u64)|
                    #![trigger self@.peers.dom().contains(k)]
                    self@.peers.dom().contains(k) ==> self@.peers[k] == before.peers[k],
                forall|x: int|
                    0 <= x < ended@.len() ==> ends(before, #[trigger] ended@[x])
                        && !roster@.contains(ended@[x].network.key() as u128),
                forall|x: int|
                    0 <= x < ended@.len() ==> !self@.networks.dom().contains(
                        (#[trigger] ended@[x]).network.key() as u128,
                    ),
                forall|x: int, y: int|
                    0 <= x < y < ended@.len() ==> (#[trigger] ended@[x]).network.key() != (
                    #[trigger] ended@[y]).network.key(),
                forall|j: int|
                    #![trigger keys@[j]]
                    0 <= j < i && !roster@.contains(keys@[j]) ==> exists|x: int|
                        0 <= x < ended@.len() && (#[trigger] ended@[x]).network.key() == keys@[j],
            decreases keys@.len() - i,
        {
            broadcast use vstd::std_specs::hash::group_hash_axioms;

            let net = keys[i];
            let ghost now = self@;
            let ghost ended0 = ended@;
            assert(keys@.to_set().contains(net));
            assert(now.networks.dom().contains(keys@[i as int]));
            if !roster.contains(&net) {
                let ghost nets = tables::network_entries(self.networks);
                assert(networks_view(nets).dom() =~= nets.dom());
                match networks_remove(&mut self.networks, net) {
                    Some(ctx) => {
                        assert(self@.networks =~= now.networks.remove(net));
                        assert(ctx@ == now.networks[net]);
                        let ghost mid = self@;
                        let peers = self.sweep(net, &none);
                        assert(self@.networks == mid.networks);
                        let gone = Pruned { network: ctx.id, name: ctx.name, peers };
                        proof {
                            assert forall|d: u64, link: Option<u64>|
                                #![trigger gone.peers@.contains((d, link))]
                                gone.peers@.contains((d, link)) <==> before.peers.dom().contains(
                                    (net, d),
                                ) && before.peers[(net, d)].link == link by {
                                assert(mid.peers.dom().contains((net, d)) == now.peers.dom().contains(
                                    (net, d),
                                ));
                            }
                            assert(ends(before, gone));
                        }
                        ended.push(gone);
                        proof {
                            assert(ended@[ended0.len() as int] == gone);
                            assert forall|j: int|
                                #![trigger keys@[j]]
                                0 <= j < i + 1 && !roster@.contains(keys@[j]) implies exists|x: int|
                                0 <= x < ended@.len() && (#[trigger] ended@[x]).network.key()
                                    == keys@[j] by {
                                if j < i {
                                    let x = choose|x: int|
                                        0 <= x < ended0.len() && (
                                        #[trigger] ended0[x]).network.key() == keys@[j];
                                    assert(ended@[x] == ended0[x]);
                                }
                            }
                            assert forall|x: int, y: int|
                                0 <= x < y < ended@.len() implies (
                            #[trigger] ended@[x]).network.key() != (
                            #[trigger] ended@[y]).network.key() by {
                                assert(ended@[x] == ended0[x]);
                                if y < ended0.len() {
                                    assert(ended@[y] == ended0[y]);
                                }
                            }
                            assert forall|x: int| 0 <= x < ended@.len() implies !self@.networks.dom().contains(
                                (#[trigger] ended@[x]).network.key() as u128,
                            ) by {
                                if x < ended0.len() {
                                    assert(ended@[x] == ended0[x]);
                                }
                            }
                            assert forall|x: int| 0 <= x < ended@.len() implies ends(
                                before,
                                #[trigger] ended@[x],
                            ) && !roster@.contains(ended@[x].network.key() as u128) by {
                                if x < ended0.len() {
                                    assert(ended@[x] == ended0[x]);
                                }
                            }
                        }
                    },
                    None => {},
                }
            }
            i += 1;
        }
        proof {
            assert forall|n: u128| self@.networks.dom().contains(n) == (#[trigger] before.networks.dom().contains(n)
                && roster@.contains(n)) by {
                if before.networks.dom().contains(n) {
                    assert(keys@.to_set().contains(n));
                    let j = choose|j: int| 0 <= j < keys@.len() && keys@[j] == n;
                    assert(self@.networks.dom().contains(keys@[j]) == roster@.contains(keys@[j]));
                }
            }
            assert(self@.networks =~= before.networks.restrict(roster@));
            assert forall|n: u128| #[trigger] is_stale(before, roster@, n) implies exists|x: int|
                0 <= x < ended@.len() && (#[trigger] ended@[x]).network.key() == n by {
                assert(keys@.to_set().contains(n));
                let j = choose|j: int| 0 <= j < keys@.len() && keys@[j] == n;
                assert(!roster@.contains(keys@[j]));
            }
        }
        ended
    }
}

/// What a node sends to a peer reaches it: where the two sides agree on the key and
/// the frame is new to the peer, the peer's session with the sender, in that
/// network, hands out the content as it was sent. No session in another network
/// does, unless the frame is authentic there too.
pub proof fn lemma_frame_reaches_peer(
    before: MeshView,
    after: MeshView,
    network: NetId,
    device: u64,
    frame_type: u8,
    payload: Seq<u8>,
    link_open: bool,
    now_ms: i64,
    sent: Outbound,
    there: MeshView,
)
    requires
        is_sent(
            before,
            after,
            network,
            device,
            frame_type,
            payload,
            link_open,
            now_ms,
            Some(sent),
        ),
        wire::is_frame_type(frame_type),
        there.wf(),
        there.peers.dom().contains(peer_key(network, before.device_id)),
        there.peers[peer_key(network, before.device_id)].codec.has_room(),
        there.peers[peer_key(network, before.device_id)].codec.recv_key == before.peers[peer_key(
            network,
            device,
        )].codec.send_key,
        wire::is_new_to(
            there.peers[peer_key(network, before.device_id)].codec,
            before.peers[peer_key(network, device)].codec.boot,
            (before.peers[peer_key(network, device)].codec.counter + 1) as u64,
        ),
    ensures
        wire::parsed_frame(sent.frame@) is Some,
        wire::parsed_frame(sent.frame@)->0.sender == before.device_id,
        there.opens(peer_key(network, before.device_id), sent.frame@),
        there.peers[peer_key(network, before.device_id)].codec.open_step(sent.frame@).1 == Some(
            (before.device_id, frame_type, payload),
        ),
        forall|k: (u128, u64)|
            k != peer_key(network, before.device_id) && wire::authentic(
                there.peers[k].codec.recv_key,
                sent.frame@,
            ) is None ==> !#[trigger] there.opens(k, sent.frame@),
{
    let k = peer_key(network, before.device_id);
    wire::lemma_fresh_frame_opens(
        there.peers[k].codec,
        sent.frame@,
        (before.device_id, frame_type, payload),
    );
}

/// A frame is taken in once: the session that has taken it in does not open it
/// again.
pub proof fn lemma_frame_is_taken_in_once(
    m: MeshView,
    k: (u128, u64),
    arrival: Arrival,
    packet: Seq<u8>,
    policy: PathPolicy,
    now_ms: i64,
)
    requires
        m.wf(),
        m.opens(k, packet),
    ensures
        ({
            let (codec, content) = m.peers[k].codec.open_step(packet);
            let opened = PeerView { codec, ..m.peers[k] };
            !m.with_peer(
                k,
                received(
                    opened,
                    arrival,
                    (content->0).1,
                    (content->0).2,
                    packet.len() as u64,
                    policy,
                    now_ms,
                ),
            ).opens(k, packet)
        }),
{
    let c = m.peers[k].codec;
    let (codec, content) = c.open_step(packet);
    let opened = PeerView { codec, ..m.peers[k] };
    let after = received(
        opened,
        arrival,
        (content->0).1,
        (content->0).2,
        packet.len() as u64,
        policy,
        now_ms,
    );
    wire::lemma_handed_out_is_refused(c, packet);
    assert(after.codec.recv_key == codec.recv_key);
    assert(after.codec.generations == codec.generations);
}

/// A list of peers that comes again changes nobody's session: nobody joins, nobody
/// leaves, and the sessions go on.
pub proof fn lemma_same_list_again(
    m: MeshView,
    network: NetId,
    list: Seq<PeerInfo>,
    once: MeshView,
    twice: Map<(u128, u64), PeerView>,
)
    requires
        once.dh_priv == m.dh_priv,
        once.dh_pub == m.dh_pub,
        refreshed(m, network, list, once.peers),
        refreshed(once, network, list, twice),
    ensures
        twice.dom() == once.peers.dom(),
        newcomers(once, network, list) == Seq::<u64>::empty(),
        forall|k: (u128, u64)| #[trigger]
            twice.dom().contains(k) ==> untold(twice[k]) == untold(once.peers[k]),
{
    let net = network.key() as u128;
    assert forall|k: (u128, u64)| twice.dom().contains(k) <==> once.peers.dom().contains(k) by {
        if k.0 == net {
            assert(k == (net, k.1));
            if once.peers.dom().contains(k) {
                let i = choose|i: int|
                    0 <= i < list.len() && usable(#[trigger] list[i]) && list[i].device_id == k.1;
                assert(usable(list[i]));
            } else if twice.dom().contains(k) {
                let i = choose|i: int|
                    0 <= i < list.len() && opens_session(once, network, list, i) && (
                    #[trigger] list[i]).device_id == k.1 && begun(
                        once,
                        network,
                        twice[k],
                        list[i],
                    );
                assert(keys_with(m, network, list[i]) is Some);
            }
        }
    }
    assert(twice.dom() =~= once.peers.dom());
    lemma_nobody_new(m, network, list, once, list.len() as int);
    assert(list.take(list.len() as int) =~= list);
}

proof fn lemma_nobody_new(
    m: MeshView,
    network: NetId,
    list: Seq<PeerInfo>,
    once: MeshView,
    n: int,
)
    requires
        0 <= n <= list.len(),
        once.dh_priv == m.dh_priv,
        once.dh_pub == m.dh_pub,
        refreshed(m, network, list, once.peers),
    ensures
        newcomers(once, network, list.take(n)) == Seq::<u64>::empty(),
    decreases n,
{
    if n > 0 {
        lemma_nobody_new(m, network, list, once, n - 1);
        assert(list.take(n).drop_last() =~= list.take(n - 1));
        let info = list[n - 1];
        assert(list.take(n).last() == info);
        if usable(info) && keys_with(once, network, info) is Some {
            assert(keys_with(m, network, info) is Some);
            assert(once.peers.dom().contains((network.key() as u128, info.device_id)));
        }
    } else {
        assert(list.take(0) =~= Seq::<PeerInfo>::empty());
    }
}

/// No two peers share a key: not two devices of one network, and not one device in two
/// networks.
pub proof fn lemma_peers_are_apart(a: NetId, d: u64, b: NetId, e: u64)
    ensures
        peer_key(a, d) == peer_key(b, e) <==> a == b && d == e,
{
    models::lemma_networks_are_apart(a, b);
}

/// A frame goes out if and only if the node runs, knows the peer, and has a counter left
/// for it. It goes out under the policy for that peer, which is the peer's own where
/// there is one, and takes the route that the policy gives. It opens at the other end as
/// what was sent, and it uses up one counter. Nothing else changes: no other peer, and
/// of this one only what is counted.
pub proof fn lemma_frame_is_sent(
    before: MeshView,
    after: MeshView,
    network: NetId,
    device: u64,
    frame_type: u8,
    payload: Seq<u8>,
    link_open: bool,
    now_ms: i64,
    outbound: Option<Outbound>,
)
    requires
        is_sent(before, after, network, device, frame_type, payload, link_open, now_ms, outbound),
    ensures
        ({
            let k = peer_key(network, device);
            let known = before.peers.dom().contains(k) && before.peers[k].codec.counter < u64::MAX;
            &&& outbound is Some <==> !before.stopping && known
            &&& known ==> after.peers.dom().contains(k) && after.peers[k].codec == (CodecView {
                counter: (before.peers[k].codec.counter + 1) as u64,
                ..before.peers[k].codec
            })
            &&& forall|other: (u128, u64)|
                #![trigger after.peers.dom().contains(other)]
                other != k ==> after.peers.dom().contains(other) == before.peers.dom().contains(other)
                    && after.peers[other] == before.peers[other]
            &&& outbound matches Some(o) ==> {
                let p = before.peers[k];
                &&& before.overrides.dom().contains(device) ==> o.policy == before.overrides[device]
                &&& !before.overrides.dom().contains(device) ==> o.policy == before.policy
                &&& o.route == p.route_for(o.policy, link_open)
                &&& 1 <= frame_type <= 4 ==> wire::authentic(p.codec.send_key, o.frame@) == Some(
                    (before.device_id, frame_type, payload),
                )
                &&& after.peers[k].path == p.path && after.peers[k].link == p.link && after.peers[k].direct
                    == p.direct && after.peers[k].last_pong_ms == p.last_pong_ms
            }
            &&& after.networks == before.networks && after.policy == before.policy && after.overrides
                == before.overrides && after.stopping == before.stopping
        }),
{
}

/// What a frame holds is handed on: a packet to the virtual interface, a message to the
/// streams. A ping asks for an answer and an answer tells of a path; no other frame does
/// anything.
pub proof fn lemma_content_is_handed_on(
    event: InboundEvent,
    p: PeerView,
    arrival: Arrival,
    frame_type: u8,
    payload: Seq<u8>,
    bytes: u64,
    policy: PathPolicy,
    device_id: u64,
)
    requires
        event_matches(event, p, arrival, frame_type, payload, bytes, policy, device_id),
    ensures
        frame_type == 3 <==> event is Data,
        frame_type == 4 <==> event is Flow,
        frame_type == 2 <==> event is Pong,
        event matches InboundEvent::Data { payload: content } ==> content@ == payload,
        event matches InboundEvent::Flow { payload: content } ==> content@ == payload,
        frame_type == 1 && p.codec.counter < u64::MAX ==> event is Reply,
        frame_type != 1 ==> !(event is Reply),
{
}

/// A ping is answered with what it holds, and the answer tells whoever sent it how long
/// that took and that the peer is alive.
pub proof fn lemma_ping_is_answered(
    event: InboundEvent,
    p: PeerView,
    arrival: Arrival,
    sent_ms: i64,
    bytes: u64,
    policy: PathPolicy,
    device_id: u64,
    home: PeerView,
    back: Arrival,
    home_bytes: u64,
    home_policy: PathPolicy,
    now_ms: i64,
)
    requires
        p.codec.counter < u64::MAX,
        0 <= sent_ms <= now_ms < sent_ms + 600_000,
        event_matches(
            event,
            p,
            arrival,
            1,
            endec::le_bytes(sent_ms as nat, 8),
            bytes,
            policy,
            device_id,
        ),
    ensures
        event matches InboundEvent::Reply { frame } && wire::authentic(p.codec.send_key, frame@) == Some(
            (device_id, 2u8, endec::le_bytes(sent_ms as nat, 8)),
        ),
        received(
            home,
            back,
            2,
            endec::le_bytes(sent_ms as nat, 8),
            home_bytes,
            home_policy,
            now_ms,
        ).rtt_ms == now_ms - sent_ms,
        received(
            home,
            back,
            2,
            endec::le_bytes(sent_ms as nat, 8),
            home_bytes,
            home_policy,
            now_ms,
        ).last_pong_ms == now_ms,
{
    session::lemma_answer_tells_round_trip(
        noticed(home, back, home_bytes, home_policy),
        back,
        sent_ms,
        home_policy,
        now_ms,
    );
}

/// A frame that is taken in counts as received. It tells of a connection if it came over
/// one, and else of none. A packet or a message changes nothing more of the peer; a ping
/// takes one counter for its answer, which counts as sent.
pub proof fn lemma_arrival_is_noted(
    p: PeerView,
    arrival: Arrival,
    frame_type: u8,
    payload: Seq<u8>,
    bytes: u64,
    policy: PathPolicy,
    now_ms: i64,
)
    requires
        p.rx_bytes + bytes <= u64::MAX,
        p.rx_packets < u64::MAX,
        p.tx_bytes + bytes <= u64::MAX,
        p.tx_packets < u64::MAX,
    ensures
        ({
            let q = received(p, arrival, frame_type, payload, bytes, policy, now_ms);
            let answers = frame_type == 1 && p.codec.counter < u64::MAX;
            &&& q.rx_bytes == p.rx_bytes + bytes
            &&& q.rx_packets == p.rx_packets + 1
            &&& q.tx_bytes == p.tx_bytes + (if answers {
                bytes as int
            } else {
                0int
            })
            &&& q.tx_packets == p.tx_packets + (if answers {
                1int
            } else {
                0int
            })
            &&& q.codec == (if answers {
                CodecView { counter: (p.codec.counter + 1) as u64, ..p.codec }
            } else {
                p.codec
            })
            &&& q.link == (match arrival {
                Arrival::DirectTcp { conn } => Some(conn),
                _ => p.link,
            })
            &&& frame_type != 2 ==> q.last_pong_ms == p.last_pong_ms && q.rtt_ms == p.rtt_ms && q.direct
                == p.direct
            &&& frame_type != 2 && !(arrival is DirectTcp) ==> q.path == p.path
            &&& q.id == p.id && q.network == p.network && q.virtual_ip == p.virtual_ip && q.endpoints
                == p.endpoints && q.online == p.online && q.tx_dropped == p.tx_dropped
        }),
{
}

/// A direct path that is probed and silent for more than half a minute is lost to the
/// probe: a ping changes neither the path nor when the peer answered last.
pub proof fn lemma_ping_leaves_the_path(
    p: PeerView,
    policy: PathPolicy,
    stopping: bool,
    link_open: bool,
    bytes: u64,
    now_ms: i64,
)
    ensures
        ({
            let q = pinged_peer(p, policy, stopping, link_open, bytes, now_ms);
            &&& q.path == p.path && q.link == p.link && q.direct == p.direct && q.last_pong_ms
                == p.last_pong_ms && q.endpoints == p.endpoints && q.tcp_listen_port == p.tcp_listen_port
                && q.tcp_cooldown_until_ms == p.tcp_cooldown_until_ms
            &&& q.codec == (CodecView { counter: (p.codec.counter + 1) as u64, ..p.codec })
            &&& q.with_tcp_probe(now_ms).path == p.path && q.with_tcp_probe(now_ms).last_pong_ms
                == p.last_pong_ms && q.with_tcp_probe(now_ms).link == p.link
            &&& policy == PathPolicy::Auto && (p.path == PathKind::DirectUdp || p.path == PathKind::DirectTcp)
                && p.last_pong_ms > 0 && now_ms - p.last_pong_ms > 30_000 ==> q.times_out(policy, now_ms)
                && q.with_tcp_probe(now_ms).times_out(policy, now_ms)
        }),
{
}

/// The entry of a list of policies is for a device.
pub open spec fn names_device(list: Seq<PeerPolicy>, i: int, device: u64) -> bool {
    0 <= i < list.len() && addr::signed_number(list[i].device_id@, u64::MAX as nat) == Some(device as nat)
}

/// A device has a policy of its own if and only if the list has an entry for it, and the
/// last such entry counts.
pub proof fn lemma_last_override_counts(list: Seq<PeerPolicy>, device: u64)
    ensures
        overrides_of(list).dom().contains(device) <==> exists|i: int| #[trigger]
            names_device(list, i, device),
        forall|i: int| #[trigger]
            names_device(list, i, device) && (forall|j: int| i < j ==> !names_device(list, j, device))
                ==> overrides_of(list)[device] == list[i].policy,
    decreases list.len(),
{
    if list.len() > 0 {
        let rest = list.drop_last();
        let last = list.len() - 1;
        lemma_last_override_counts(rest, device);
        assert forall|i: int| i < last implies #[trigger] names_device(rest, i, device) == names_device(
            list,
            i,
            device,
        ) by {}
        if overrides_of(list).dom().contains(device) {
            if !names_device(list, last, device) {
                let i = choose|i: int| #[trigger] names_device(rest, i, device);
                assert(names_device(list, i, device));
            }
        }
        if exists|i: int| #[trigger] names_device(list, i, device) {
            let i = choose|i: int| #[trigger] names_device(list, i, device);
            if i < last {
                assert(names_device(rest, i, device));
            }
        }
        assert forall|i: int| #[trigger]
            names_device(list, i, device) && (forall|j: int| i < j ==> !names_device(list, j, device)) implies overrides_of(
            list,
        )[device] == list[i].policy by {
            if i < last {
                assert(!names_device(list, last, device));
                assert(names_device(rest, i, device));
                assert forall|j: int| i < j implies !names_device(rest, j, device) by {
                    if j < last {
                        assert(!names_device(list, j, device));
                    }
                }
            }
        }
    }
}

/// The entries that name no device are told of, in order, and no others.
pub proof fn lemma_misnamed_entries_are_told(a: Seq<PeerPolicy>, b: Seq<PeerPolicy>)
    ensures
        misnamed(a + b) == misnamed(a) + misnamed(b),
        b.len() == 1 ==> misnamed(b) == (if addr::signed_number(b[0].device_id@, u64::MAX as nat) is None {
            seq![b[0].device_id@]
        } else {
            Seq::<Seq<char>>::empty()
        }),
    decreases b.len(),
{
    if b.len() == 0 {
        assert(a + b =~= a);
        assert(misnamed(a) + misnamed(b) =~= misnamed(a));
    } else {
        lemma_misnamed_entries_are_told(a, b.drop_last());
        assert((a + b).drop_last() =~= a + b.drop_last());
        assert((a + b).last() == b.last());
        assert(misnamed(a + b) =~= misnamed(a) + misnamed(b));
        if b.len() == 1 {
            assert(misnamed(b.drop_last()) =~= Seq::<Seq<char>>::empty());
            assert(Seq::<Seq<char>>::empty().push(b[0].device_id@) =~= seq![b[0].device_id@]);
        }
    }
}

/// The addresses that a peer announces are kept in order. One that cannot be read is
/// passed over, and so are 0.0.0.0 and 255.255.255.255, where nobody is.
pub proof fn lemma_announced_in_order(a: Seq<String>, b: Seq<String>)
    ensures
        announced(a + b) == announced(a) + announced(b),
        b.len() == 1 ==> announced(b) == (match addr::socket_value(b[0]@) {
            Some(SocketView::V4 { ip, port }) => if ip == 0 || ip == 0xffff_ffff {
                Seq::<SocketView>::empty()
            } else {
                seq![SocketView::V4 { ip, port }]
            },
            Some(at) => seq![at],
            None => Seq::<SocketView>::empty(),
        }),
    decreases b.len(),
{
    if b.len() == 0 {
        assert(a + b =~= a);
        assert(announced(a) + announced(b) =~= announced(a));
    } else {
        lemma_announced_in_order(a, b.drop_last());
        assert((a + b).drop_last() =~= a + b.drop_last());
        assert((a + b).last() == b.last());
        assert(announced(a + b) =~= announced(a) + announced(b));
        if b.len() == 1 {
            assert(announced(b.drop_last()) =~= Seq::<SocketView>::empty());
            match addr::socket_value(b[0]@) {
                Some(at) => {
                    assert(Seq::<SocketView>::empty().push(at) =~= seq![at]);
                },
                None => {},
            }
        }
    }
}

/// The entry of a list of peers puts a device at an address.
pub open spec fn puts_at(list: Seq<PeerInfo>, i: int, ip: u32) -> bool {
    0 <= i < list.len() && list[i].ip@ == addr::ipv4_text(ip) && primitives::is_hex_text(list[i].dh_pubkey@)
        && list[i].dh_pubkey@.len() == 64
}

/// A packet for an address goes to the device that the list puts there: the last one
/// that it puts there, and nobody where it puts none.
pub proof fn lemma_address_finds_its_device(list: Seq<PeerInfo>, ip: u32)
    ensures
        addresses_of(list).dom().contains(ip) <==> exists|i: int| #[trigger] puts_at(list, i, ip),
        forall|i: int| #[trigger]
            puts_at(list, i, ip) && (forall|j: int| i < j ==> !puts_at(list, j, ip)) ==> addresses_of(list)[ip]
                == list[i].device_id,
    decreases list.len(),
{
    if list.len() > 0 {
        let rest = list.drop_last();
        let last = list.len() - 1;
        let info = list[last];
        lemma_address_finds_its_device(rest, ip);
        addr::lemma_ipv4_round_trip(ip);
        assert(puts_at(list, last, ip) <==> usable(info) && addr::ipv4_value(info.ip@)->0 == ip);
        assert forall|i: int| i < last implies #[trigger] puts_at(rest, i, ip) == puts_at(list, i, ip) by {}
        if addresses_of(list).dom().contains(ip) {
            if !puts_at(list, last, ip) {
                let i = choose|i: int| #[trigger] puts_at(rest, i, ip);
                assert(puts_at(list, i, ip));
            }
        }
        if exists|i: int| #[trigger] puts_at(list, i, ip) {
            let i = choose|i: int| #[trigger] puts_at(list, i, ip);
            if i < last {
                assert(puts_at(rest, i, ip));
            }
        }
        assert forall|i: int| #[trigger]
            puts_at(list, i, ip) && (forall|j: int| i < j ==> !puts_at(list, j, ip)) implies addresses_of(
            list,
        )[ip] == list[i].device_id by {
            if i < last {
                assert(!puts_at(list, last, ip));
                assert(puts_at(rest, i, ip));
                assert forall|j: int| i < j implies !puts_at(rest, j, ip) by {
                    if j < last {
                        assert(!puts_at(list, j, ip));
                    }
                }
            }
        }
    }
}

/// The list of peers is the truth about a network. A device that it names, with a dotted
/// address and a key of 64 hexadecimal digits, keeps its session, with its keys, its
/// counters and its paths, and is from then on what the list says of it last; a device
/// that it does not name has no session any more. Other networks are left alone.
pub proof fn lemma_list_rules_the_network(
    m: MeshView,
    network: NetId,
    list: Seq<PeerInfo>,
    peers: Map<(u128, u64), PeerView>,
    i: int,
    device: u64,
    other: NetId,
)
    requires
        refreshed(m, network, list, peers),
        0 <= i < list.len(),
    ensures
        ({
            let k = peer_key(network, list[i].device_id);
            let info = list[i];
            let fit = addr::ipv4_value(info.ip@) is Some && primitives::is_hex_text(info.dh_pubkey@)
                && info.dh_pubkey@.len() == 64;
            &&& fit && m.peers.dom().contains(k) ==> {
                &&& peers.dom().contains(k)
                &&& peers[k].codec == m.peers[k].codec && peers[k].link == m.peers[k].link && peers[k].path
                    == m.peers[k].path && peers[k].direct == m.peers[k].direct && peers[k].last_pong_ms
                    == m.peers[k].last_pong_ms && peers[k].rtt_ms == m.peers[k].rtt_ms
                    && peers[k].tx_bytes == m.peers[k].tx_bytes && peers[k].rx_bytes
                    == m.peers[k].rx_bytes && peers[k].dh_pubkey == m.peers[k].dh_pubkey
            }
            &&& fit && peers.dom().contains(k) && (forall|j: int|
                i < j < list.len() ==> (#[trigger] list[j]).device_id != info.device_id) ==> {
                &&& peers[k].name == info.name@
                &&& addr::ipv4_text(peers[k].virtual_ip) == info.ip@
                &&& peers[k].online == info.online
                &&& peers[k].tcp_listen_port == info.tcp_listen_port
                &&& address_views(peers[k].endpoints) == announced(info.udp_endpoints@)
            }
            &&& (forall|j: int| 0 <= j < list.len() ==> (#[trigger] list[j]).device_id != device)
                ==> !peers.dom().contains(peer_key(network, device))
            &&& other != network ==> peers.dom().contains(peer_key(other, device)) == m.peers.dom().contains(
                peer_key(other, device),
            ) && (m.peers.dom().contains(peer_key(other, device)) ==> peers[peer_key(other, device)]
                == m.peers[peer_key(other, device)])
        }),
{
    let k = peer_key(network, list[i].device_id);
    models::lemma_networks_are_apart(network, other);
    assert(usable(list[i]) <==> addr::ipv4_value(list[i].ip@) is Some && primitives::is_hex_text(
        list[i].dh_pubkey@,
    ) && list[i].dh_pubkey@.len() == 64);
    if m.peers.dom().contains(k) && peers.dom().contains(k) {
        assert(untold(peers[k]) == untold(m.peers[k]));
        assert(untold(peers[k]).codec == peers[k].codec);
        assert(untold(m.peers[k]).codec == m.peers[k].codec);
    }
    if peers.dom().contains(peer_key(network, device)) {
        let j = choose|j: int| 0 <= j < list.len() && usable(#[trigger] list[j]) && list[j].device_id == device;
        assert(list[j].device_id == device);
    }
    if usable(list[i]) && peers.dom().contains(k) && (forall|j: int|
        i < j < list.len() ==> (#[trigger] list[j]).device_id != list[i].device_id) {
        assert(is_latest(list, i, list.len() as int));
        assert(told(peers[k], list[i]));
    }
}

/// A new session begins with nothing known but what the list says: on the UDP relay, with
/// nothing sent or received, and with the keys that the two public keys and the network
/// lead to.
pub proof fn lemma_session_begins_anew(m: MeshView, network: NetId, p: PeerView, info: PeerInfo)
    requires
        begun(m, network, p, info),
    ensures
        p.id == info.device_id,
        p.network == network,
        p.dh_pubkey == primitives::hex_bytes(info.dh_pubkey@),
        p.path == PathKind::RelayUdp,
        p.link is None,
        p.direct is None,
        p.rtt_ms == -1,
        p.last_pong_ms == 0,
        p.tx_bytes == 0 && p.rx_bytes == 0 && p.tx_packets == 0 && p.rx_packets == 0 && p.tx_dropped == 0,
        p.codec.counter == 0,
        p.codec.generations.len() == 0,
        session_keys::session_keys_of(
            m.dh_priv,
            m.dh_pub,
            primitives::hex_bytes(info.dh_pubkey@),
            network.0@,
        ) == Some((p.codec.send_key, p.codec.recv_key)),
{
    let fresh = session::fresh_peer(
        info.device_id,
        network,
        info.name@,
        0,
        primitives::hex_bytes(info.dh_pubkey@),
        p.codec,
    );
    assert(untold(p).id == p.id && untold(fresh).id == fresh.id);
}

/// What is reported of a peer is what happened since the last report: the bytes per
/// second that were sent and received meanwhile, the path, and the last round trip.
pub proof fn lemma_report_tells_the_difference(
    r: PeerPathReport,
    device: u64,
    then: PeerView,
    now: PeerView,
    elapsed_ms: u128,
)
    requires
        reports(r, device, now, Some(counters_of(then)), Some(elapsed_ms)),
        elapsed_ms >= 1000,
        then.tx_bytes <= now.tx_bytes,
        then.rx_bytes <= now.rx_bytes,
    ensures
        r.device_id == device,
        r.path@ == now.path.text(),
        r.rtt_ms == Some(now.rtt_ms),
        r.tx_bps == Some(((now.tx_bytes - then.tx_bytes) * 1000 / elapsed_ms as int) as u64),
        r.rx_bps == Some(((now.rx_bytes - then.rx_bytes) * 1000 / elapsed_ms as int) as u64),
{
}

/// The status of a peer is what is known of it.
pub proof fn lemma_status_tells_what_is_known(
    s: PeerStatus,
    p: PeerView,
    network: Seq<char>,
    endpoint: Seq<char>,
)
    requires
        status_matches(s, p, network, endpoint),
    ensures
        addr::ipv4_value(s.ip@) == Some(p.virtual_ip),
        s.name@ == p.name && s.network@ == network && s.endpoint@ == endpoint,
        s.online == p.online && s.rtt_ms == p.rtt_ms,
        s.tx_bytes == p.tx_bytes && s.rx_bytes == p.rx_bytes,
        s.tx_packets == p.tx_packets && s.rx_packets == p.rx_packets,
        s.path@ == (match p.path {
            PathKind::RelayUdp => "RelayUdp"@,
            PathKind::DirectUdp => "DirectUdp"@,
            PathKind::RelayTcp => "RelayTcp"@,
            PathKind::DirectTcp => "DirectTcp"@,
        }),
{
    addr::lemma_ipv4_round_trip(p.virtual_ip);
}

/// A network that is taken part in has the subnet and the address that its configuration
/// names.
pub proof fn lemma_network_is_configured(n: NetworkView, c: Cidr, ip: u32)
    requires
        c.wf(),
        configured(n, c.text(), addr::ipv4_text(ip)),
    ensures
        n.self_ip == Some(ip),
        n.cidr matches Some(d) && d.network == c.network && d.prefix == c.prefix,
{
    addr::lemma_ipv4_round_trip(ip);
    ipam::lemma_cidr_round_trip(c);
}

/// The node leaves exactly the networks that it takes part in and the roster lacks, and
/// with a network go exactly the sessions in it.
pub proof fn lemma_stale_networks(m: MeshView, roster: Set<u128>, net: u128, ended: Pruned, device: u64)
    ensures
        is_stale(m, roster, net) <==> m.networks.dom().contains(net) && !roster.contains(net),
        ends(m, ended) ==> {
            let n = ended.network.key() as u128;
            &&& m.networks.dom().contains(n) && m.networks[n].id == ended.network
            &&& m.peers.dom().contains((n, device)) <==> ended.peers@.contains(
                (device, m.peers[(n, device)].link),
            )
        },
{
}

/// A report is about a peer.
pub open spec fn is_about(r: PeerPathReport, device: u64, p: PeerView) -> bool {
    r.device_id == device && r.path@ == p.path.text() && r.rtt_ms == Some(p.rtt_ms)
}

/// The counts are those of a session of the device.
pub open spec fn counts_of(m: MeshView, net: u128, device: u64, c: HbCounters) -> bool {
    m.peers.dom().contains((net, device)) && c.tx_bytes == m.peers[(net, device)].tx_bytes && c.rx_bytes
        == m.peers[(net, device)].rx_bytes
}

/// The device has answered in a network.
pub open spec fn has_answered(m: MeshView, net: u128, device: u64) -> bool {
    m.peers.dom().contains((net, device)) && m.peers[(net, device)].rtt_ms >= 0
}

/// Every peer that has answered is reported on, and its counts are kept for the next
/// report. Nobody else is reported on.
pub proof fn lemma_who_answered_is_reported(
    m: MeshView,
    prev: Map<u64, HbCounters>,
    elapsed_ms: Option<u128>,
    list: Seq<PeerPathReport>,
    next: Map<u64, HbCounters>,
    net: u128,
    device: u64,
    i: int,
)
    requires
        reported_all(m, prev, elapsed_ms, list, next),
    ensures
        has_answered(m, net, device) ==> next.dom().contains(device) && exists|j: int|
            0 <= j < list.len() && is_about(#[trigger] list[j], device, m.peers[(net, device)]),
        0 <= i < list.len() ==> exists|n: u128| #[trigger] has_answered(m, n, list[i].device_id),
        next.dom().contains(device) ==> exists|n: u128| #[trigger] counts_of(m, n, device, next[device]),
{
    let told = choose|told: Seq<(u128, u64)>|
        {
            &&& #[trigger] reported(m, prev, elapsed_ms, told, list, next)
            &&& forall|q: (u128, u64)| #[trigger]
                m.peers.dom().contains(q) && m.peers[q].rtt_ms >= 0 ==> told.contains(q)
        };
    if has_answered(m, net, device) {
        assert(told.contains((net, device)));
        let j = choose|j: int| 0 <= j < told.len() && told[j] == (net, device);
        lemma_report_in_order(m, prev, elapsed_ms, told, list, next, j);
        assert(is_about(list[j], device, m.peers[(net, device)]));
    }
    if 0 <= i < list.len() {
        lemma_report_in_order(m, prev, elapsed_ms, told, list, next, i);
        assert(has_answered(m, told[i].0, list[i].device_id));
    }
    if next.dom().contains(device) {
        lemma_counts_are_kept(m, prev, elapsed_ms, told, list, next, device);
    }
}

proof fn lemma_report_in_order(
    m: MeshView,
    prev: Map<u64, HbCounters>,
    elapsed_ms: Option<u128>,
    told: Seq<(u128, u64)>,
    list: Seq<PeerPathReport>,
    next: Map<u64, HbCounters>,
    i: int,
)
    requires
        reported(m, prev, elapsed_ms, told, list, next),
        0 <= i < told.len(),
    ensures
        told.len() == list.len(),
        is_about(list[i], told[i].1, m.peers[told[i]]),
        told[i] == (told[i].0, told[i].1),
        has_answered(m, told[i].0, told[i].1),
        next.dom().contains(told[i].1),
{
    let key = told[i];
    assert(m.peers.dom().contains(key));
}

proof fn lemma_counts_are_kept(
    m: MeshView,
    prev: Map<u64, HbCounters>,
    elapsed_ms: Option<u128>,
    told: Seq<(u128, u64)>,
    list: Seq<PeerPathReport>,
    next: Map<u64, HbCounters>,
    device: u64,
)
    requires
        reported(m, prev, elapsed_ms, told, list, next),
        next.dom().contains(device),
    ensures
        exists|n: u128| #[trigger] counts_of(m, n, device, next[device]),
{
    let j = choose|j: int|
        0 <= j < told.len() && (#[trigger] told[j]).1 == device && next[device] == counters_of(m.peers[told[j]]);
    let key = told[j];
    assert(m.peers.dom().contains(key));
    assert(key == (key.0, device));
    assert(counts_of(m, key.0, device, next[device]));
}

/// The entry of a list names a device, with a dotted address and a key of 64 hexadecimal
/// digits that leads to a session.
pub open spec fn leads_to_session(m: MeshView, network: NetId, info: PeerInfo, device: u64) -> bool {
    &&& info.device_id == device
    &&& addr::ipv4_value(info.ip@) is Some
    &&& primitives::is_hex_text(info.dh_pubkey@)
    &&& info.dh_pubkey@.len() == 64
    &&& session_keys::session_keys_of(
        m.dh_priv,
        m.dh_pub,
        primitives::hex_bytes(info.dh_pubkey@),
        network.0@,
    ) is Some
}

/// Whoever has no session, and whom the list names so that there can be one, is new, and
/// is told of once.
pub proof fn lemma_who_is_new(m: MeshView, network: NetId, list: Seq<PeerInfo>, device: u64)
    ensures
        newcomers(m, network, list).contains(device) <==> !m.peers.dom().contains(peer_key(network, device))
            && exists|i: int| 0 <= i < list.len() && leads_to_session(m, network, #[trigger] list[i], device),
        newcomers(m, network, list).no_duplicates(),
    decreases list.len(),
{
    if list.len() > 0 {
        let rest = list.drop_last();
        let last = list.len() - 1;
        let d = list[last].device_id;
        let before = newcomers(m, network, rest);
        let now = newcomers(m, network, list);
        lemma_who_is_new(m, network, rest, device);
        assert(usable(list[last]) && keys_with(m, network, list[last]) is Some <==> leads_to_session(
            m,
            network,
            list[last],
            d,
        ));
        if exists|i: int| 0 <= i < rest.len() && leads_to_session(m, network, #[trigger] rest[i], device) {
            let i = choose|i: int| 0 <= i < rest.len() && leads_to_session(m, network, #[trigger] rest[i], device);
            assert(list[i] == rest[i]);
        }
        if exists|i: int| 0 <= i < list.len() && leads_to_session(m, network, #[trigger] list[i], device) {
            let i = choose|i: int| 0 <= i < list.len() && leads_to_session(m, network, #[trigger] list[i], device);
            if i < last {
                assert(rest[i] == list[i]);
            }
        }
        if leads_to_session(m, network, list[last], d) && !m.peers.dom().contains(peer_key(network, d))
            && !before.contains(d) {
            assert(now == before.push(d));
            assert(now[before.len() as int] == d);
            if before.contains(device) {
                let j = choose|j: int| 0 <= j < before.len() && before[j] == device;
                assert(now[j] == device);
            }
            if now.contains(device) && device != d {
                let j = choose|j: int| 0 <= j < now.len() && now[j] == device;
                assert(before[j] == device);
            }
        } else {
            assert(now == before);
        }
    }
}

/// A network goes by its name, and by its number in hexadecimal where the node knows no
/// name for it.
pub proof fn lemma_network_has_a_name(m: MeshView, network: NetId)
    ensures
        m.networks.dom().contains(network.key() as u128) ==> name_in(m, network) == m.networks[network.key() as u128].name,
        !m.networks.dom().contains(network.key() as u128) ==> primitives::hex_bytes(name_in(m, network))
            == network.0@,
{
    models::lemma_hex_round_trip(network.0@);
}

/// An address belongs to a network if and only if the list of the network puts a device
/// there.
pub proof fn lemma_whose_address_it_is(m: MeshView, net: u128, list: Seq<PeerInfo>, ip: u32)
    requires
        m.networks.dom().contains(net),
        m.networks[net].ip_map == addresses_of(list),
    ensures
        is_mapped(m, net, ip) <==> exists|i: int| #[trigger] puts_at(list, i, ip),
{
    lemma_address_finds_its_device(list, ip);
}

/// A device that is new begins its session with the key that the list gives first for it,
/// of those that lead to a session.
pub proof fn lemma_first_key_begins_the_session(
    m: MeshView,
    network: NetId,
    list: Seq<PeerInfo>,
    peers: Map<(u128, u64), PeerView>,
    i: int,
    device: u64,
)
    requires
        refreshed(m, network, list, peers),
        !m.peers.dom().contains(peer_key(network, device)),
        0 <= i < list.len(),
        leads_to_session(m, network, list[i], device),
        forall|j: int| 0 <= j < i ==> !leads_to_session(m, network, #[trigger] list[j], device),
    ensures
        peers.dom().contains(peer_key(network, device)),
        peers[peer_key(network, device)].dh_pubkey == primitives::hex_bytes(list[i].dh_pubkey@),
        session_keys::session_keys_of(
            m.dh_priv,
            m.dh_pub,
            primitives::hex_bytes(list[i].dh_pubkey@),
            network.0@,
        ) == Some(
            (
                peers[peer_key(network, device)].codec.send_key,
                peers[peer_key(network, device)].codec.recv_key,
            ),
        ),
{
    let k = peer_key(network, device);
    assert(usable(list[i]) && keys_with(m, network, list[i]) is Some);
    assert(peers.dom().contains(k));
    let n = choose|n: int|
        0 <= n < list.len() && opens_session(m, network, list, n) && (#[trigger] list[n]).device_id == k.1 && begun(
            m,
            network,
            peers[k],
            list[n],
        );
    assert(leads_to_session(m, network, list[n], device));
    if i < n {
        assert(usable(list[i]) && list[i].device_id == list[n].device_id);
    }
    assert(n == i);
    lemma_session_begins_anew(m, network, peers[k], list[i]);
}

} // verus!
