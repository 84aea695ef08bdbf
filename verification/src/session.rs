//! One peer: its keys, the paths to it, and what is counted of it.

use vstd::prelude::*;

use crate::addr::SocketAddr;
use crate::consts::{PEER_PING_INTERVAL, PEER_PING_MISS_LIMIT};
use crate::crypto::session_keys::SessionKeys;
use crate::endec::read_u64_le;
use crate::models::{NetId, PathPolicy};
use crate::protocol::wire::{CodecView, PacketCodec};
use crate::endec;

verus! {

/// A way to a peer.
#[derive(Debug, Clone, Copy, PartialEq, Eq, Structural)]
pub enum PathKind {
    RelayUdp,
    DirectUdp,
    RelayTcp,
    DirectTcp,
}

impl PathKind {
    /// The name of the path.
    pub open spec fn text(self) -> Seq<char> {
        match self {
            PathKind::RelayUdp => "RelayUdp"@,
            PathKind::DirectUdp => "DirectUdp"@,
            PathKind::RelayTcp => "RelayTcp"@,
            PathKind::DirectTcp => "DirectTcp"@,
        }
    }

    /// Whether the path avoids the relay.
    pub open spec fn is_direct(self) -> bool {
        self == PathKind::DirectUdp || self == PathKind::DirectTcp
    }

    /// The name of the path.
    pub fn as_str(&self) -> (text: &'static str)
        ensures
            text@ == self.text(),
    {
        match self {
            PathKind::RelayUdp => "RelayUdp",
            PathKind::DirectUdp => "DirectUdp",
            PathKind::RelayTcp => "RelayTcp",
            PathKind::DirectTcp => "DirectTcp",
        }
    }
}

/// Whether a policy lets frames take a path.
pub open spec fn allows(policy: PathPolicy, kind: PathKind) -> bool {
    match policy {
        PathPolicy::Auto => true,
        PathPolicy::RelayUdp => kind == PathKind::RelayUdp,
        PathPolicy::RelayTcp => kind == PathKind::RelayTcp,
        PathPolicy::DirectAny => kind.is_direct(),
        PathPolicy::DirectUdp => kind == PathKind::DirectUdp,
        PathPolicy::DirectTcp => kind == PathKind::DirectTcp,
    }
}

/// Whether a policy lets frames take a path.
pub fn policy_allows(policy: PathPolicy, kind: PathKind) -> (allowed: bool)
    ensures
        allowed == allows(policy, kind),
{
    match policy {
        PathPolicy::Auto => true,
        PathPolicy::RelayUdp => kind == PathKind::RelayUdp,
        PathPolicy::RelayTcp => kind == PathKind::RelayTcp,
        PathPolicy::DirectAny => kind == PathKind::DirectUdp || kind == PathKind::DirectTcp,
        PathPolicy::DirectUdp => kind == PathKind::DirectUdp,
        PathPolicy::DirectTcp => kind == PathKind::DirectTcp,
    }
}

/// How a frame came in. A direct connection has a number.
#[derive(Debug, Clone, Copy)]
pub enum Arrival {
    /// The peer's address, and the local one at which the frame arrived.
    DirectUdp { from: SocketAddr, local: SocketAddr },
    DirectTcp { conn: u64 },
    RelayUdp,
    RelayTcp,
}

impl Arrival {
    /// From a peer's address, at a local one.
    pub fn direct_udp(from: SocketAddr, local: SocketAddr) -> (arrival: Arrival)
        ensures
            arrival == (Arrival::DirectUdp { from, local }),
    {
        Arrival::DirectUdp { from, local }
    }

    /// Over a direct connection.
    pub fn direct_tcp(conn: u64) -> (arrival: Arrival)
        ensures
            arrival == (Arrival::DirectTcp { conn }),
    {
        Arrival::DirectTcp { conn }
    }

    /// Over the UDP relay.
    pub fn relay_udp() -> (arrival: Arrival)
        ensures
            arrival == Arrival::RelayUdp,
    {
        Arrival::RelayUdp
    }

    /// Over the TCP relay.
    pub fn relay_tcp() -> (arrival: Arrival)
        ensures
            arrival == Arrival::RelayTcp,
    {
        Arrival::RelayTcp
    }
}

/// Why a frame is not sent.
#[derive(Debug, Clone, Copy, PartialEq, Eq, Structural)]
pub enum DropReason {
    DirectAnyNoResource,
    DirectUdpNoEndpoint,
    DirectTcpSendFailed,
    DirectTcpNoConn,
    RelayTcpSendFailed,
}

impl DropReason {
    /// The reason in a word.
    pub open spec fn text(self) -> Seq<char> {
        match self {
            DropReason::DirectAnyNoResource => "directAny-no-resource"@,
            DropReason::DirectUdpNoEndpoint => "directUdp-no-endpoint"@,
            DropReason::DirectTcpSendFailed => "directTcp-send-failed"@,
            DropReason::DirectTcpNoConn => "directTcp-no-conn"@,
            DropReason::RelayTcpSendFailed => "relayTcp-send-failed"@,
        }
    }

    /// The reason in a word.
    pub fn as_str(&self) -> (text: &'static str)
        ensures
            text@ == self.text(),
    {
        match self {
            DropReason::DirectAnyNoResource => "directAny-no-resource",
            DropReason::DirectUdpNoEndpoint => "directUdp-no-endpoint",
            DropReason::DirectTcpSendFailed => "directTcp-send-failed",
            DropReason::DirectTcpNoConn => "directTcp-no-conn",
            DropReason::RelayTcpSendFailed => "relayTcp-send-failed",
        }
    }
}

/// Where a sealed frame goes.
#[derive(Debug, Clone, Copy, PartialEq, Eq)]
pub enum Route {
    /// Straight to an address, from the local one at which it was learned.
    DirectFrom { local: SocketAddr, to: SocketAddr },
    /// Straight to an address that the peer announced.
    Direct { to: SocketAddr },
    /// Over a direct connection.
    Link { conn: u64 },
    RelayUdp,
    /// Over the TCP relay; `fallback` says that the UDP relay may take over.
    RelayTcp { fallback: bool },
    Drop { reason: DropReason },
}

impl Route {
    /// Whether the frame goes through the relay.
    pub open spec fn is_relayed(self) -> bool {
        self is RelayUdp || self is RelayTcp
    }
}

/// A sum of counters, which start over when they are full.
pub open spec fn counter_sum(a: u64, b: u64) -> u64 {
    if a + b > u64::MAX {
        (a + b - 0x1_0000_0000_0000_0000) as u64
    } else {
        (a + b) as u64
    }
}

/// What is known of a peer.
pub ghost struct PeerView {
    pub id: u64,
    pub network: NetId,
    pub name: Seq<char>,
    pub virtual_ip: u32,
    pub dh_pubkey: Seq<u8>,
    pub online: bool,
    pub tcp_listen_port: Option<u16>,
    pub endpoints: Seq<SocketAddr>,
    pub codec: CodecView,
    pub link: Option<u64>,
    pub path: PathKind,
    pub direct: Option<(SocketAddr, SocketAddr)>,
    pub last_pong_ms: i64,
    pub tcp_cooldown_until_ms: i64,
    pub rtt_ms: i64,
    pub tx_bytes: u64,
    pub rx_bytes: u64,
    pub tx_packets: u64,
    pub rx_packets: u64,
    pub tx_dropped: u64,
    pub last_diag_ms: i64,
}

/// The milliseconds between two log lines about a peer.
pub const DIAG_INTERVAL_MS: i64 = 60_000;

/// The milliseconds between two attempts at a direct connection.
pub const TCP_COOLDOWN_MS: i64 = 60_000;

/// How many announced addresses are probed.
pub const PROBE_LIMIT: usize = 4;

/// A direct path is dead once the peer has answered a ping and then not
/// answered for the stated number of intervals.
pub open spec fn is_dead(now_ms: int, last_pong_ms: int) -> bool {
    last_pong_ms > 0 && now_ms - last_pong_ms > PEER_PING_INTERVAL * PEER_PING_MISS_LIMIT * 1000
}

/// Whether a direct path is dead.
pub fn direct_path_dead(now_ms: i64, last_pong_ms: i64) -> (dead: bool)
    ensures
        dead == is_dead(now_ms as int, last_pong_ms as int),
{
    let dead_after: i128 = (PEER_PING_INTERVAL * PEER_PING_MISS_LIMIT as u64 * 1000) as i128;
    last_pong_ms > 0 && now_ms as i128 - last_pong_ms as i128 > dead_after
}

/// The same address with another port.
pub open spec fn with_port(addr: SocketAddr, port: u16) -> SocketAddr {
    match addr {
        SocketAddr::V4 { ip, .. } => SocketAddr::V4 { ip, port },
        SocketAddr::V6 { groups, .. } => SocketAddr::V6 { groups, scope: 0, port },
    }
}

/// The port of an address.
pub open spec fn port_of(addr: SocketAddr) -> u16 {
    match addr {
        SocketAddr::V4 { port, .. } => port,
        SocketAddr::V6 { port, .. } => port,
    }
}

fn replace_port(addr: SocketAddr, port: u16) -> (changed: SocketAddr)
    ensures
        changed == with_port(addr, port),
{
    match addr {
        SocketAddr::V4 { ip, .. } => SocketAddr::V4 { ip, port },
        SocketAddr::V6 { groups, .. } => SocketAddr::V6 { groups, scope: 0, port },
    }
}

/// The ports next to an observed one, from distance `d` to distance 4: above
/// it, and below it unless that would reach the reserved ports.
pub open spec fn neighbours(observed: SocketAddr, d: int) -> Seq<SocketAddr>
    decreases 5 - d,
{
    if d > 4 {
        Seq::empty()
    } else {
        let port = port_of(observed);
        (if port + d <= 65535 {
            seq![with_port(observed, (port + d) as u16)]
        } else {
            Seq::empty()
        }) + (if port > d + 1024 {
            seq![with_port(observed, (port - d) as u16)]
        } else {
            Seq::empty()
        }) + neighbours(observed, d + 1)
    }
}

/// The first of a list, at most `PROBE_LIMIT`.
pub open spec fn first_few(list: Seq<SocketAddr>) -> Seq<SocketAddr> {
    if list.len() <= PROBE_LIMIT {
        list
    } else {
        list.take(PROBE_LIMIT as int)
    }
}

/// The addresses that a UDP probe goes to: the announced ones, and the ports
/// next to the first of them, since many translators hand out ports in turn.
pub open spec fn probe_targets(endpoints: Seq<SocketAddr>) -> Seq<SocketAddr> {
    first_few(endpoints) + (if endpoints.len() > 0 {
        neighbours(endpoints[0], 1)
    } else {
        Seq::empty()
    })
}

/// Every predicted port lies within four of the observed one, and none below it
/// is a reserved port.
pub proof fn lemma_neighbours_are_close(observed: SocketAddr, d: int, i: int)
    requires
        1 <= d,
        0 <= i < neighbours(observed, d).len(),
    ensures
        port_of(neighbours(observed, d)[i]) != port_of(observed),
        port_of(observed) - 4 <= port_of(neighbours(observed, d)[i]) <= port_of(observed) + 4,
        port_of(neighbours(observed, d)[i]) < port_of(observed) ==> port_of(
            neighbours(observed, d)[i],
        ) > 1024,
    decreases 5 - d,
{
    let port = port_of(observed);
    let up: Seq<SocketAddr> = if port + d <= 65535 {
        seq![with_port(observed, (port + d) as u16)]
    } else {
        Seq::empty()
    };
    let down: Seq<SocketAddr> = if port > d + 1024 {
        seq![with_port(observed, (port - d) as u16)]
    } else {
        Seq::empty()
    };
    let rest = neighbours(observed, d + 1);
    assert(neighbours(observed, d) == up + down + rest);
    if i >= up.len() + down.len() {
        lemma_neighbours_are_close(observed, d + 1, i - up.len() - down.len());
    }
}

impl PeerView {
    /// The path that a policy picks; none where it wants a direct path and there
    /// is nothing to build one on.
    pub open spec fn chosen_path(self, policy: PathPolicy, link_open: bool) -> Option<PathKind> {
        match policy {
            PathPolicy::Auto => Some(self.path),
            PathPolicy::RelayUdp => Some(PathKind::RelayUdp),
            PathPolicy::RelayTcp => Some(PathKind::RelayTcp),
            PathPolicy::DirectAny => if self.path.is_direct() {
                Some(self.path)
            } else if self.link is Some && link_open {
                Some(PathKind::DirectTcp)
            } else if self.direct is Some {
                Some(PathKind::DirectUdp)
            } else {
                None
            },
            PathPolicy::DirectUdp => Some(PathKind::DirectUdp),
            PathPolicy::DirectTcp => Some(PathKind::DirectTcp),
        }
    }

    /// Where a frame goes. Only `Auto` lets the relay stand in for a direct path
    /// that cannot be had.
    pub open spec fn route_for(self, policy: PathPolicy, link_open: bool) -> Route {
        match self.chosen_path(policy, link_open) {
            None => Route::Drop { reason: DropReason::DirectAnyNoResource },
            Some(PathKind::DirectUdp) => match self.direct {
                Some((to, local)) => Route::DirectFrom { local, to },
                None => if self.endpoints.len() > 0 {
                    Route::Direct { to: self.endpoints[0] }
                } else if policy == PathPolicy::Auto {
                    Route::RelayUdp
                } else {
                    Route::Drop { reason: DropReason::DirectUdpNoEndpoint }
                },
            },
            Some(PathKind::DirectTcp) => if self.link is Some && link_open {
                Route::Link { conn: self.link->0 }
            } else if policy == PathPolicy::Auto {
                Route::RelayUdp
            } else {
                Route::Drop { reason: DropReason::DirectTcpNoConn }
            },
            Some(PathKind::RelayTcp) => Route::RelayTcp { fallback: policy == PathPolicy::Auto },
            Some(PathKind::RelayUdp) => Route::RelayUdp,
        }
    }

    /// The peer after a frame of `bytes` bytes was counted as sent.
    pub open spec fn with_tx(self, bytes: u64) -> PeerView {
        PeerView {
            tx_bytes: counter_sum(self.tx_bytes, bytes),
            tx_packets: counter_sum(self.tx_packets, 1),
            ..self
        }
    }

    /// The peer after a frame of `bytes` bytes was counted as received.
    pub open spec fn with_rx(self, bytes: u64) -> PeerView {
        PeerView {
            rx_bytes: counter_sum(self.rx_bytes, bytes),
            rx_packets: counter_sum(self.rx_packets, 1),
            ..self
        }
    }

    /// Whether a log line about the peer is due.
    pub open spec fn diag_due(self, now_ms: i64) -> bool {
        now_ms - self.last_diag_ms > DIAG_INTERVAL_MS
    }

    /// The peer after a log line about it was considered.
    pub open spec fn with_diag(self, now_ms: i64) -> PeerView {
        if self.diag_due(now_ms) {
            PeerView { last_diag_ms: now_ms, ..self }
        } else {
            self
        }
    }

    /// The peer after a frame to it was dropped.
    pub open spec fn with_drop(self, now_ms: i64) -> PeerView {
        PeerView { tx_dropped: counter_sum(self.tx_dropped, 1), ..self }.with_diag(now_ms)
    }

    /// The peer after a frame took a route. A frame over a direct connection is
    /// counted once it is known that it left. A frame that found no address for
    /// the direct UDP path that the policy names counts as sent and as dropped;
    /// other dropped frames do not count as sent.
    pub open spec fn with_route(self, route: Route, bytes: u64, now_ms: i64) -> PeerView {
        match route {
            Route::Link { .. } => self,
            Route::Drop { reason: DropReason::DirectUdpNoEndpoint } => self.with_drop(
                now_ms,
            ).with_tx(bytes),
            Route::Drop { .. } => self.with_drop(now_ms),
            _ => self.with_tx(bytes),
        }
    }

    /// The peer after a connection was found to be with it.
    pub open spec fn with_link(self, conn: u64, policy: PathPolicy) -> PeerView {
        PeerView {
            link: Some(conn),
            path: if self.rises_to_link(policy) {
                PathKind::DirectTcp
            } else {
                self.path
            },
            ..self
        }
    }

    /// Whether a new connection moves the peer off the relay.
    pub open spec fn rises_to_link(self, policy: PathPolicy) -> bool {
        allows(policy, PathKind::DirectTcp) && !self.path.is_direct()
    }

    /// The peer after an answer to a ping, which carries the moment of the ping.
    pub open spec fn with_pong(
        self,
        arrival: Arrival,
        payload: Seq<u8>,
        policy: PathPolicy,
        now_ms: i64,
    ) -> PeerView {
        let sent = (endec::le_value(payload.take(8)) as u64) as i64;
        let timed = PeerView {
            rtt_ms: if payload.len() >= 8 && 0 <= now_ms - sent < 600_000 {
                (now_ms - sent) as i64
            } else {
                self.rtt_ms
            },
            last_pong_ms: now_ms,
            ..self
        };
        match arrival {
            Arrival::DirectUdp { from, local } => if allows(policy, PathKind::DirectUdp) {
                PeerView { direct: Some((from, local)), path: PathKind::DirectUdp, ..timed }
            } else {
                timed
            },
            _ => timed,
        }
    }

    /// The path of the peer after a policy came into force. A policy that names
    /// one path sets it; `Auto` leaves the TCP relay, which only a policy picks.
    pub open spec fn path_under(self, policy: PathPolicy) -> PathKind {
        match policy {
            PathPolicy::Auto => if self.path == PathKind::RelayTcp {
                PathKind::RelayUdp
            } else {
                self.path
            },
            PathPolicy::RelayUdp => PathKind::RelayUdp,
            PathPolicy::RelayTcp => PathKind::RelayTcp,
            PathPolicy::DirectAny => self.path,
            PathPolicy::DirectUdp => PathKind::DirectUdp,
            PathPolicy::DirectTcp => PathKind::DirectTcp,
        }
    }

    /// Whether to look for a direct UDP path. Whether one stands is told by what
    /// was learned, not by the path, which a policy sets ahead of it.
    pub open spec fn wants_udp_probe(self, policy: PathPolicy) -> bool {
        match policy {
            PathPolicy::Auto | PathPolicy::DirectAny => self.path != PathKind::DirectUdp,
            PathPolicy::DirectUdp => self.direct is None,
            _ => false,
        }
    }

    /// Whether to look for a direct connection.
    pub open spec fn wants_tcp_probe(self, policy: PathPolicy, link_open: bool) -> bool {
        match policy {
            PathPolicy::Auto | PathPolicy::DirectAny => self.path != PathKind::DirectUdp,
            PathPolicy::DirectTcp => self.link is None || !link_open,
            _ => false,
        }
    }

    /// Whether the direct path is given up. Only `Auto` gives one up.
    pub open spec fn times_out(self, policy: PathPolicy, now_ms: i64) -> bool {
        policy == PathPolicy::Auto && self.path.is_direct() && is_dead(
            now_ms as int,
            self.last_pong_ms as int,
        )
    }

    /// The peer after its direct path was given up: back to the relay, without
    /// what the path was built on.
    pub open spec fn fallen_back(self) -> PeerView {
        PeerView {
            direct: if self.path == PathKind::DirectUdp {
                None
            } else {
                self.direct
            },
            link: if self.path == PathKind::DirectTcp {
                None
            } else {
                self.link
            },
            path: PathKind::RelayUdp,
            ..self
        }
    }

    /// The addresses at which a direct connection is tried.
    pub open spec fn tcp_targets(self) -> Seq<SocketAddr> {
        first_few(self.endpoints).map_values(|e: SocketAddr| with_port(e, self.tcp_listen_port->0))
    }

    /// What a TCP probe does.
    pub open spec fn tcp_probe_kind(self, now_ms: i64) -> TcpProbeKind {
        if self.tcp_listen_port is None {
            TcpProbeKind::NoPort
        } else if self.link is Some {
            TcpProbeKind::Nothing
        } else if self.endpoints.len() == 0 {
            TcpProbeKind::NoEndpoints
        } else if now_ms < self.tcp_cooldown_until_ms {
            TcpProbeKind::Nothing
        } else {
            TcpProbeKind::Connect
        }
    }

    /// The peer after a TCP probe.
    pub open spec fn with_tcp_probe(self, now_ms: i64) -> PeerView {
        match self.tcp_probe_kind(now_ms) {
            TcpProbeKind::NoPort | TcpProbeKind::NoEndpoints => self.with_diag(now_ms),
            TcpProbeKind::Nothing => self,
            TcpProbeKind::Connect => PeerView {
                tcp_cooldown_until_ms: cooldown_end(now_ms),
                ..self
            },
        }
    }
}

/// When the next attempt at a direct connection may start.
pub open spec fn cooldown_end(now_ms: i64) -> i64 {
    if now_ms > i64::MAX - TCP_COOLDOWN_MS {
        i64::MAX
    } else {
        (now_ms + TCP_COOLDOWN_MS) as i64
    }
}

/// The kinds of a TCP probe.
pub ghost enum TcpProbeKind {
    NoPort,
    Nothing,
    NoEndpoints,
    Connect,
}

/// The probe is the one that the peer calls for.
pub open spec fn is_tcp_probe(probe: TcpProbe, p: PeerView, now_ms: i64) -> bool {
    match probe {
        TcpProbe::NoPort { log } => p.tcp_probe_kind(now_ms) is NoPort && log == p.diag_due(now_ms),
        TcpProbe::Nothing => p.tcp_probe_kind(now_ms) is Nothing,
        TcpProbe::NoEndpoints { log } => p.tcp_probe_kind(now_ms) is NoEndpoints && log
            == p.diag_due(now_ms),
        TcpProbe::Connect { targets } => p.tcp_probe_kind(now_ms) is Connect && targets@
            == p.tcp_targets(),
    }
}

/// A peer that nothing is known of but who it is.
pub open spec fn fresh_peer(
    id: u64,
    network: NetId,
    name: Seq<char>,
    virtual_ip: u32,
    dh_pubkey: Seq<u8>,
    codec: CodecView,
) -> PeerView {
    PeerView {
        id,
        network,
        name,
        virtual_ip,
        dh_pubkey,
        online: false,
        tcp_listen_port: None,
        endpoints: Seq::empty(),
        codec,
        link: None,
        path: PathKind::RelayUdp,
        direct: None,
        last_pong_ms: 0,
        tcp_cooldown_until_ms: 0,
        rtt_ms: -1i64 as i64,
        tx_bytes: 0,
        rx_bytes: 0,
        tx_packets: 0,
        rx_packets: 0,
        tx_dropped: 0,
        last_diag_ms: 0,
    }
}

/// What a TCP probe does.
#[derive(Debug, Clone)]
pub enum TcpProbe {
    /// The peer announces no port; `log` says that this should be logged.
    NoPort { log: bool },
    Nothing,
    /// The peer announces no address; `log` says that this should be logged.
    NoEndpoints { log: bool },
    /// Try these addresses in turn.
    Connect { targets: Vec<SocketAddr> },
}

/// What an answer to a ping changed.
#[derive(Debug, Clone, Copy, PartialEq, Eq, Structural)]
pub enum PongEffect {
    Nothing,
    /// A direct UDP path came up.
    Up,
    /// The direct UDP path that the policy names got its address.
    UpPinned,
}

/// One peer.
pub struct PeerSession {
    pub id: u64,
    pub network: NetId,
    pub name: String,
    pub virtual_ip: u32,
    pub dh_pubkey: [u8; 32],
    pub online: bool,
    pub tcp_listen_port: Option<u16>,
    pub endpoints: Vec<SocketAddr>,
    pub codec: PacketCodec,
    /// The number of the direct connection, if there is one.
    pub link: Option<u64>,
    pub current_path: PathKind,
    /// The peer's address, and the local one at which it was learned.
    pub direct_endpoint: Option<(SocketAddr, SocketAddr)>,
    pub last_pong_ms: i64,
    pub tcp_cooldown_until_ms: i64,
    /// -1 until the peer has answered.
    pub rtt_ms: i64,
    pub tx_bytes: u64,
    pub rx_bytes: u64,
    pub tx_packets: u64,
    pub rx_packets: u64,
    pub tx_dropped: u64,
    pub last_diag_ms: i64,
}

impl View for PeerSession {
    type V = PeerView;

    open spec fn view(&self) -> PeerView {
        PeerView {
            id: self.id,
            network: self.network,
            name: self.name@,
            virtual_ip: self.virtual_ip,
            dh_pubkey: self.dh_pubkey@,
            online: self.online,
            tcp_listen_port: self.tcp_listen_port,
            endpoints: self.endpoints@,
            codec: self.codec@,
            link: self.link,
            path: self.current_path,
            direct: self.direct_endpoint,
            last_pong_ms: self.last_pong_ms,
            tcp_cooldown_until_ms: self.tcp_cooldown_until_ms,
            rtt_ms: self.rtt_ms,
            tx_bytes: self.tx_bytes,
            rx_bytes: self.rx_bytes,
            tx_packets: self.tx_packets,
            rx_packets: self.rx_packets,
            tx_dropped: self.tx_dropped,
            last_diag_ms: self.last_diag_ms,
        }
    }
}

fn counter_add(a: u64, b: u64) -> (sum: u64)
    ensures
        sum == counter_sum(a, b),
{
    a.wrapping_add(b)
}

fn copy_first(list: &Vec<SocketAddr>) -> (few: Vec<SocketAddr>)
    ensures
        few@ == first_few(list@),
{
    let mut few: Vec<SocketAddr> = Vec::new();
    let mut i: usize = 0;
    while i < list.len() && i < PROBE_LIMIT
        invariant
            i <= list@.len(),
            i <= PROBE_LIMIT,
            few@ == list@.take(i as int),
        decreases list@.len() - i,
    {
        few.push(list[i]);
        i += 1;
        assert(few@ =~= list@.take(i as int));
    }
    assert(few@ =~= first_few(list@));
    few
}

/// The addresses that a UDP probe goes to.
pub fn udp_probe_targets(endpoints: &Vec<SocketAddr>) -> (targets: Vec<SocketAddr>)
    ensures
        targets@ == probe_targets(endpoints@),
{
    let mut targets = copy_first(endpoints);
    if endpoints.len() == 0 {
        assert(targets@ =~= probe_targets(endpoints@));
        return targets;
    }
    let observed = endpoints[0];
    let port: u16 = match observed {
        SocketAddr::V4 { port, .. } => port,
        SocketAddr::V6 { port, .. } => port,
    };
    let mut d: u16 = 1;
    assert(targets@ + neighbours(observed, 1) =~= probe_targets(endpoints@));
    while d <= 4
        invariant
            1 <= d <= 5,
            port == port_of(observed),
            targets@ + neighbours(observed, d as int) == probe_targets(endpoints@),
        decreases 5 - d,
    {
        let ghost before = targets@;
        if port <= 65535 - d {
            targets.push(replace_port(observed, port + d));
        }
        if port > d + 1024 {
            targets.push(replace_port(observed, port - d));
        }
        d += 1;
        assert(targets@ + neighbours(observed, d as int) =~= before + neighbours(
            observed,
            d - 1,
        ));
    }
    assert(targets@ + neighbours(observed, 5) =~= targets@);
    targets
}

impl PeerSession {
    /// A peer that nothing is known of but who it is.
    pub fn new(
        id: u64,
        network: NetId,
        name: String,
        virtual_ip: u32,
        dh_pubkey: [u8; 32],
        keys: SessionKeys,
    ) -> (peer: PeerSession)
        ensures
            peer@ == fresh_peer(id, network, name@, virtual_ip, dh_pubkey@, peer.codec@),
            peer.codec@.valid(),
            peer.codec@.boot.len() == 16,
            peer.codec@.counter == 0,
            peer.codec@.send_key == keys.send_key@,
            peer.codec@.recv_key == keys.recv_key@,
            peer.codec@.generations.len() == 0,
    {
        let peer = PeerSession {
            id,
            network,
            name,
            virtual_ip,
            dh_pubkey,
            online: false,
            tcp_listen_port: None,
            endpoints: Vec::new(),
            codec: PacketCodec::new(keys),
            link: None,
            current_path: PathKind::RelayUdp,
            direct_endpoint: None,
            last_pong_ms: 0,
            tcp_cooldown_until_ms: 0,
            rtt_ms: -1,
            tx_bytes: 0,
            rx_bytes: 0,
            tx_packets: 0,
            rx_packets: 0,
            tx_dropped: 0,
            last_diag_ms: 0,
        };
        assert(peer.endpoints@ =~= Seq::empty());
        peer
    }

    /// The path that frames take.
    pub fn path(&self) -> (path: PathKind)
        ensures
            path == self@.path,
    {
        self.current_path
    }

    /// The name of the peer.
    pub fn name(&self) -> (name: &str)
        ensures
            name@ == self@.name,
    {
        self.name.as_str()
    }

    /// The peer's address in the network.
    pub fn virtual_ip(&self) -> (ip: u32)
        ensures
            ip == self@.virtual_ip,
    {
        self.virtual_ip
    }

    /// Whether the server sees the peer.
    pub fn online(&self) -> (online: bool)
        ensures
            online == self@.online,
    {
        self.online
    }

    /// Counts a frame as sent.
    pub fn add_tx(&mut self, bytes: usize)
        ensures
            final(self)@ == old(self)@.with_tx(bytes as u64),
    {
        self.tx_bytes = counter_add(self.tx_bytes, bytes as u64);
        self.tx_packets = counter_add(self.tx_packets, 1);
    }

    /// Counts a frame as received.
    pub fn add_rx(&mut self, bytes: usize)
        ensures
            final(self)@ == old(self)@.with_rx(bytes as u64),
    {
        self.rx_bytes = counter_add(self.rx_bytes, bytes as u64);
        self.rx_packets = counter_add(self.rx_packets, 1);
    }

    /// Picks the route of a frame. `link_open` says whether the direct
    /// connection, if there is one, still stands.
    pub fn choose_route(&self, policy: PathPolicy, link_open: bool) -> (route: Route)
        ensures
            route == self@.route_for(policy, link_open),
    {
        let linked = self.link.is_some() && link_open;
        let direct_now = self.current_path == PathKind::DirectUdp || self.current_path
            == PathKind::DirectTcp;
        let path = match policy {
            PathPolicy::Auto => self.current_path,
            PathPolicy::RelayUdp => PathKind::RelayUdp,
            PathPolicy::RelayTcp => PathKind::RelayTcp,
            PathPolicy::DirectAny => {
                if direct_now {
                    self.current_path
                } else if linked {
                    PathKind::DirectTcp
                } else if self.direct_endpoint.is_some() {
                    PathKind::DirectUdp
                } else {
                    return Route::Drop { reason: DropReason::DirectAnyNoResource };
                }
            },
            PathPolicy::DirectUdp => PathKind::DirectUdp,
            PathPolicy::DirectTcp => PathKind::DirectTcp,
        };
        let auto = policy == PathPolicy::Auto;
        match path {
            PathKind::DirectUdp => match self.direct_endpoint {
                Some((to, local)) => Route::DirectFrom { local, to },
                None => {
                    if self.endpoints.len() > 0 {
                        Route::Direct { to: self.endpoints[0] }
                    } else if auto {
                        Route::RelayUdp
                    } else {
                        Route::Drop { reason: DropReason::DirectUdpNoEndpoint }
                    }
                },
            },
            PathKind::DirectTcp => match self.link {
                Some(conn) => {
                    if link_open {
                        Route::Link { conn }
                    } else if auto {
                        Route::RelayUdp
                    } else {
                        Route::Drop { reason: DropReason::DirectTcpNoConn }
                    }
                },
                None => {
                    if auto {
                        Route::RelayUdp
                    } else {
                        Route::Drop { reason: DropReason::DirectTcpNoConn }
                    }
                },
            },
            PathKind::RelayTcp => Route::RelayTcp { fallback: auto },
            PathKind::RelayUdp => Route::RelayUdp,
        }
    }

    /// Considers a log line about the peer: true if it is due.
    pub fn throttled_diag(&mut self, now_ms: i64) -> (due: bool)
        ensures
            due == old(self)@.diag_due(now_ms),
            final(self)@ == old(self)@.with_diag(now_ms),
    {
        if now_ms as i128 - self.last_diag_ms as i128 > DIAG_INTERVAL_MS as i128 {
            self.last_diag_ms = now_ms;
            true
        } else {
            false
        }
    }

    /// Counts a dropped frame. Where a log line is due, the number of dropped
    /// frames comes back.
    pub fn note_drop(&mut self, now_ms: i64) -> (logged: Option<u64>)
        ensures
            final(self)@ == old(self)@.with_drop(now_ms),
            logged == (if old(self)@.diag_due(now_ms) {
                Some(counter_sum(old(self)@.tx_dropped, 1))
            } else {
                None
            }),
    {
        self.tx_dropped = counter_add(self.tx_dropped, 1);
        if self.throttled_diag(now_ms) {
            Some(self.tx_dropped)
        } else {
            None
        }
    }

    /// Counts what a route does with a frame. Where a dropped frame is to be
    /// logged, the number of dropped frames comes back.
    pub fn account_route(&mut self, route: Route, bytes: usize, now_ms: i64) -> (logged: Option<
        u64,
    >)
        ensures
            final(self)@ == old(self)@.with_route(route, bytes as u64, now_ms),
            logged == (if route is Drop && old(self)@.diag_due(now_ms) {
                Some(counter_sum(old(self)@.tx_dropped, 1))
            } else {
                None
            }),
    {
        match route {
            Route::Link { .. } => None,
            Route::Drop { reason } => {
                let logged = self.note_drop(now_ms);
                if reason == DropReason::DirectUdpNoEndpoint {
                    self.add_tx(bytes);
                }
                logged
            },
            _ => {
                self.add_tx(bytes);
                None
            },
        }
    }

    /// Takes note of how sending over the direct connection went.
    pub fn link_sent(&mut self, sent: bool, bytes: usize, now_ms: i64) -> (logged: Option<u64>)
        ensures
            sent ==> final(self)@ == old(self)@.with_tx(bytes as u64) && logged is None,
            !sent ==> final(self)@ == old(self)@.with_drop(now_ms) && logged == (if old(
                self,
            )@.diag_due(now_ms) {
                Some(counter_sum(old(self)@.tx_dropped, 1))
            } else {
                None
            }),
    {
        if sent {
            self.add_tx(bytes);
            None
        } else {
            self.note_drop(now_ms)
        }
    }

    /// Takes note of a connection with the peer; true if frames now take it.
    pub fn attach_link(&mut self, conn: u64, policy: PathPolicy) -> (risen: bool)
        ensures
            risen == old(self)@.rises_to_link(policy),
            final(self)@ == old(self)@.with_link(conn, policy),
    {
        self.link = Some(conn);
        let relayed = self.current_path == PathKind::RelayUdp || self.current_path
            == PathKind::RelayTcp;
        if policy_allows(policy, PathKind::DirectTcp) && relayed {
            self.current_path = PathKind::DirectTcp;
            true
        } else {
            false
        }
    }

    /// Takes note of an answer to a ping.
    pub fn on_pong(&mut self, arrival: Arrival, payload: &[u8], policy: PathPolicy, now_ms: i64) -> (effect:
        PongEffect)
        ensures
            final(self)@ == old(self)@.with_pong(arrival, payload@, policy, now_ms),
            effect == (if arrival is DirectUdp && allows(policy, PathKind::DirectUdp) {
                if old(self)@.path != PathKind::DirectUdp {
                    PongEffect::Up
                } else if old(self)@.direct is None {
                    PongEffect::UpPinned
                } else {
                    PongEffect::Nothing
                }
            } else {
                PongEffect::Nothing
            }),
    {
        if payload.len() >= 8 {
            let sent: i64 = read_u64_le(payload) as i64;
            let rtt: i128 = now_ms as i128 - sent as i128;
            if 0 <= rtt && rtt < 600_000 {
                self.rtt_ms = rtt as i64;
            }
        }
        self.last_pong_ms = now_ms;
        match arrival {
            Arrival::DirectUdp { from, local } => {
                if policy_allows(policy, PathKind::DirectUdp) {
                    let missing = self.direct_endpoint.is_none();
                    self.direct_endpoint = Some((from, local));
                    if self.current_path != PathKind::DirectUdp {
                        self.current_path = PathKind::DirectUdp;
                        PongEffect::Up
                    } else if missing {
                        PongEffect::UpPinned
                    } else {
                        PongEffect::Nothing
                    }
                } else {
                    PongEffect::Nothing
                }
            },
            _ => PongEffect::Nothing,
        }
    }

    /// Brings the path in line with a policy.
    pub fn apply_policy(&mut self, policy: PathPolicy)
        ensures
            final(self)@ == (PeerView { path: old(self)@.path_under(policy), ..old(self)@ }),
    {
        match policy {
            PathPolicy::Auto => {
                if self.current_path == PathKind::RelayTcp {
                    self.current_path = PathKind::RelayUdp;
                }
            },
            PathPolicy::RelayUdp => {
                self.current_path = PathKind::RelayUdp;
            },
            PathPolicy::RelayTcp => {
                self.current_path = PathKind::RelayTcp;
            },
            PathPolicy::DirectAny => {},
            PathPolicy::DirectUdp => {
                self.current_path = PathKind::DirectUdp;
            },
            PathPolicy::DirectTcp => {
                self.current_path = PathKind::DirectTcp;
            },
        }
    }

    /// Where UDP probes go; nowhere if none are wanted.
    pub fn udp_probes(&self, policy: PathPolicy) -> (targets: Vec<SocketAddr>)
        ensures
            targets@ == (if self@.wants_udp_probe(policy) {
                probe_targets(self@.endpoints)
            } else {
                Seq::empty()
            }),
    {
        let wanted = match policy {
            PathPolicy::Auto => self.current_path != PathKind::DirectUdp,
            PathPolicy::DirectAny => self.current_path != PathKind::DirectUdp,
            PathPolicy::DirectUdp => self.direct_endpoint.is_none(),
            _ => false,
        };
        if wanted {
            udp_probe_targets(&self.endpoints)
        } else {
            let none: Vec<SocketAddr> = Vec::new();
            assert(none@ =~= Seq::empty());
            none
        }
    }

    /// Whether to look for a direct connection.
    pub fn wants_tcp(&self, policy: PathPolicy, link_open: bool) -> (wanted: bool)
        ensures
            wanted == self@.wants_tcp_probe(policy, link_open),
    {
        match policy {
            PathPolicy::Auto => self.current_path != PathKind::DirectUdp,
            PathPolicy::DirectAny => self.current_path != PathKind::DirectUdp,
            PathPolicy::DirectTcp => self.link.is_none() || !link_open,
            _ => false,
        }
    }

    /// Gives up a direct path that is dead; the path that was given up comes back.
    pub fn drop_dead_path(&mut self, policy: PathPolicy, now_ms: i64) -> (lost: Option<PathKind>)
        ensures
            old(self)@.times_out(policy, now_ms) ==> final(self)@ == old(self)@.fallen_back()
                && lost == Some(old(self)@.path),
            !old(self)@.times_out(policy, now_ms) ==> final(self)@ == old(self)@ && lost is None,
    {
        let path = self.current_path;
        let direct = path == PathKind::DirectUdp || path == PathKind::DirectTcp;
        if policy == PathPolicy::Auto && direct && direct_path_dead(now_ms, self.last_pong_ms) {
            if path == PathKind::DirectUdp {
                self.direct_endpoint = None;
            } else {
                self.link = None;
            }
            self.current_path = PathKind::RelayUdp;
            Some(path)
        } else {
            None
        }
    }

    /// Decides what a TCP probe does.
    pub fn tcp_probe(&mut self, now_ms: i64) -> (probe: TcpProbe)
        ensures
            final(self)@ == old(self)@.with_tcp_probe(now_ms),
            is_tcp_probe(probe, old(self)@, now_ms),
    {
        let port: u16 = match self.tcp_listen_port {
            Some(port) => port,
            None => {
                return TcpProbe::NoPort { log: self.throttled_diag(now_ms) };
            },
        };
        if self.link.is_some() {
            return TcpProbe::Nothing;
        }
        if self.endpoints.len() == 0 {
            return TcpProbe::NoEndpoints { log: self.throttled_diag(now_ms) };
        }
        if now_ms < self.tcp_cooldown_until_ms {
            return TcpProbe::Nothing;
        }
        let few = copy_first(&self.endpoints);
        let mut targets: Vec<SocketAddr> = Vec::new();
        let mut i: usize = 0;
        while i < few.len()
            invariant
                i <= few@.len(),
                targets@.len() == i,
                forall|j: int| 0 <= j < i ==> #[trigger] targets@[j] == with_port(few@[j], port),
            decreases few@.len() - i,
        {
            targets.push(replace_port(few[i], port));
            i += 1;
        }
        assert(targets@ =~= old(self)@.tcp_targets());
        self.tcp_cooldown_until_ms = if now_ms > i64::MAX - TCP_COOLDOWN_MS {
            i64::MAX
        } else {
            now_ms + TCP_COOLDOWN_MS
        };
        TcpProbe::Connect { targets }
    }
}

/// A policy that names direct paths never lets a frame reach the relay.
pub proof fn lemma_direct_policies_never_leak(p: PeerView, policy: PathPolicy, link_open: bool)
    requires
        policy == PathPolicy::DirectAny || policy == PathPolicy::DirectUdp || policy
            == PathPolicy::DirectTcp,
    ensures
        !p.route_for(policy, link_open).is_relayed(),
{
}

/// `Auto` always finds a way.
pub proof fn lemma_auto_never_drops(p: PeerView, link_open: bool)
    ensures
        !(p.route_for(PathPolicy::Auto, link_open) is Drop),
{
}

/// A policy that names a relay is kept to the letter.
pub proof fn lemma_relay_policies_are_kept(p: PeerView, link_open: bool)
    ensures
        p.route_for(PathPolicy::RelayUdp, link_open) is RelayUdp,
        p.route_for(PathPolicy::RelayTcp, link_open) == (Route::RelayTcp { fallback: false }),
{
}

/// Whatever a policy brings about, the path stays one that the policy allows,
/// or stays what it was.
pub proof fn lemma_policy_rules_the_path(
    p: PeerView,
    policy: PathPolicy,
    arrival: Arrival,
    payload: Seq<u8>,
    conn: u64,
    now_ms: i64,
)
    ensures
        policy != PathPolicy::DirectAny ==> allows(policy, p.path_under(policy)),
        allows(policy, p.path) ==> allows(policy, p.with_link(conn, policy).path),
        allows(policy, p.path) ==> allows(
            policy,
            p.with_pong(arrival, payload, policy, now_ms).path,
        ),
        p.times_out(policy, now_ms) ==> allows(policy, p.fallen_back().path),
{
}

/// A ping over a direct UDP path that is answered brings that path up, as far as
/// the policy allows it, and the path is then used as it was learned.
pub proof fn lemma_answered_probe_brings_path_up(
    p: PeerView,
    from: SocketAddr,
    local: SocketAddr,
    payload: Seq<u8>,
    policy: PathPolicy,
    now_ms: i64,
    link_open: bool,
)
    requires
        allows(policy, PathKind::DirectUdp),
    ensures
        p.with_pong(Arrival::DirectUdp { from, local }, payload, policy, now_ms).route_for(
            policy,
            link_open,
        ) == (Route::DirectFrom { local, to: from }),
{
}

/// What a frame that takes a route goes over.
pub open spec fn carrier(route: Route) -> Option<PathKind> {
    match route {
        Route::DirectFrom { .. } | Route::Direct { .. } => Some(PathKind::DirectUdp),
        Route::Link { .. } => Some(PathKind::DirectTcp),
        Route::RelayUdp => Some(PathKind::RelayUdp),
        Route::RelayTcp { .. } => Some(PathKind::RelayTcp),
        Route::Drop { .. } => None,
    }
}

/// A direct connection that stands is used: always where the policy names it, and
/// where the policy leaves the choice once frames take it or nothing else is direct.
pub proof fn lemma_standing_link_is_used(p: PeerView, conn: u64)
    requires
        p.link == Some(conn),
    ensures
        p.route_for(PathPolicy::DirectTcp, true) == (Route::Link { conn }),
        p.path == PathKind::DirectTcp ==> p.route_for(PathPolicy::Auto, true) == (Route::Link { conn }),
        p.path != PathKind::DirectUdp ==> p.route_for(PathPolicy::DirectAny, true) == (Route::Link {
            conn,
        }),
{
}

/// An address that a peer has answered from is used, from the local address that it
/// answered to: always where the policy names direct UDP, and where the policy leaves
/// the choice once frames take that path.
pub proof fn lemma_learned_address_is_used(
    p: PeerView,
    to: SocketAddr,
    local: SocketAddr,
    link_open: bool,
)
    requires
        p.direct == Some((to, local)),
    ensures
        p.route_for(PathPolicy::DirectUdp, link_open) == (Route::DirectFrom { local, to }),
        p.path == PathKind::DirectUdp ==> p.route_for(PathPolicy::Auto, link_open) == (Route::DirectFrom {
            local,
            to,
        }),
        p.path == PathKind::DirectUdp ==> p.route_for(PathPolicy::DirectAny, link_open) == (
        Route::DirectFrom { local, to }),
        !(p.path == PathKind::DirectTcp) && (p.link is None || !link_open) ==> p.route_for(
            PathPolicy::DirectAny,
            link_open,
        ) == (Route::DirectFrom { local, to }),
{
}

/// Before a peer has answered, the first address that it announced stands in for the
/// one that is not known yet.
pub proof fn lemma_announced_address_stands_in(p: PeerView, link_open: bool)
    requires
        p.direct is None,
        p.endpoints.len() > 0,
    ensures
        p.route_for(PathPolicy::DirectUdp, link_open) == (Route::Direct { to: p.endpoints[0] }),
        p.path == PathKind::DirectUdp ==> p.route_for(PathPolicy::Auto, link_open) == (Route::Direct {
            to: p.endpoints[0],
        }),
        p.path == PathKind::DirectUdp ==> p.route_for(PathPolicy::DirectAny, link_open) == (
        Route::Direct { to: p.endpoints[0] }),
{
}

/// A frame is dropped only where the policy keeps it off the relay and the path that
/// the policy names has nothing to go over, and there it is always dropped.
pub proof fn lemma_dropped_only_for_want(p: PeerView, policy: PathPolicy, link_open: bool)
    ensures
        ({
            let no_link = p.link is None || !link_open;
            let no_address = p.direct is None && p.endpoints.len() == 0;
            &&& p.route_for(policy, link_open) is Drop <==> match policy {
                PathPolicy::Auto | PathPolicy::RelayUdp | PathPolicy::RelayTcp => false,
                PathPolicy::DirectUdp => no_address,
                PathPolicy::DirectTcp => no_link,
                PathPolicy::DirectAny => match p.path {
                    PathKind::DirectUdp => no_address,
                    PathKind::DirectTcp => no_link,
                    _ => no_link && p.direct is None,
                },
            }
            &&& p.route_for(policy, link_open) matches Route::Drop { reason } ==> reason == (if policy
                == PathPolicy::DirectAny && p.path != PathKind::DirectUdp && p.path
                != PathKind::DirectTcp {
                DropReason::DirectAnyNoResource
            } else if policy == PathPolicy::DirectTcp || (policy == PathPolicy::DirectAny && p.path
                == PathKind::DirectTcp) {
                DropReason::DirectTcpNoConn
            } else {
                DropReason::DirectUdpNoEndpoint
            })
        }),
{
}

/// A route is made of what is known of the peer: a connection that stands, the
/// address pair that was learned, or the first address that was announced.
pub proof fn lemma_route_is_grounded(p: PeerView, policy: PathPolicy, link_open: bool)
    ensures
        p.route_for(policy, link_open) matches Route::Link { conn } ==> p.link == Some(conn) && link_open,
        p.route_for(policy, link_open) matches Route::DirectFrom { local, to } ==> p.direct == Some(
            (to, local),
        ),
        p.route_for(policy, link_open) matches Route::Direct { to } ==> p.direct is None
            && p.endpoints.len() > 0 && to == p.endpoints[0],
        p.route_for(policy, link_open) matches Route::RelayTcp { fallback } ==> fallback == (policy
            == PathPolicy::Auto),
{
}

/// Left to itself, a peer on a relay is reached over that relay, and a peer whose
/// direct path has nothing to go over is reached over the UDP relay meanwhile.
pub proof fn lemma_auto_follows_the_path(p: PeerView, link_open: bool)
    ensures
        p.path == PathKind::RelayUdp ==> p.route_for(PathPolicy::Auto, link_open) == Route::RelayUdp,
        p.path == PathKind::RelayTcp ==> p.route_for(PathPolicy::Auto, link_open) == (Route::RelayTcp {
            fallback: true,
        }),
        p.path == PathKind::DirectTcp && (p.link is None || !link_open) ==> p.route_for(
            PathPolicy::Auto,
            link_open,
        ) == Route::RelayUdp,
        p.path == PathKind::DirectUdp && p.direct is None && p.endpoints.len() == 0 ==> p.route_for(
            PathPolicy::Auto,
            link_open,
        ) == Route::RelayUdp,
{
}

/// What a policy allows is what frames take under it: no frame goes over a path that
/// its policy does not allow, and every path that is allowed is taken by the frames of
/// some peer.
pub proof fn lemma_allowed_is_what_is_taken(p: PeerView, policy: PathPolicy, kind: PathKind, at: SocketAddr)
    ensures
        forall|q: PeerView, open: bool|
            (#[trigger] carrier(q.route_for(policy, open))) == Some(kind) ==> allows(policy, kind),
        allows(policy, kind) ==> carrier(
            (PeerView { path: kind, link: Some(1), direct: Some((at, at)), ..p }).route_for(policy, true),
        ) == Some(kind),
        allows(policy, kind) <==> policy == PathPolicy::Auto || match kind {
            PathKind::RelayUdp => policy == PathPolicy::RelayUdp,
            PathKind::RelayTcp => policy == PathPolicy::RelayTcp,
            PathKind::DirectUdp => policy == PathPolicy::DirectUdp || policy == PathPolicy::DirectAny,
            PathKind::DirectTcp => policy == PathPolicy::DirectTcp || policy == PathPolicy::DirectAny,
        },
{
}

/// A direct path, over UDP or over TCP, whose peer has answered once and is then silent
/// for more than half a minute is given up where the policy leaves the choice: frames
/// go to the UDP relay from then on, whatever is said of the old connection, and what
/// the path was built on is forgotten.
pub proof fn lemma_silent_path_is_given_up(p: PeerView, now_ms: i64, link_open: bool)
    requires
        p.path == PathKind::DirectUdp || p.path == PathKind::DirectTcp,
        p.last_pong_ms > 0,
        now_ms - p.last_pong_ms > 30_000,
    ensures
        p.times_out(PathPolicy::Auto, now_ms),
        p.fallen_back().path == PathKind::RelayUdp,
        p.fallen_back().route_for(PathPolicy::Auto, link_open) == Route::RelayUdp,
        p.path == PathKind::DirectUdp ==> p.fallen_back().direct is None && p.fallen_back().link
            == p.link,
        p.path == PathKind::DirectTcp ==> p.fallen_back().link is None && p.fallen_back().direct
            == p.direct,
        !p.fallen_back().times_out(PathPolicy::Auto, now_ms),
{
}

/// A path is given up for nothing less: not while the peer answers within half a
/// minute, not before it has answered at all, not where frames take a relay, and not
/// where the policy names the path.
pub proof fn lemma_living_path_is_kept(p: PeerView, policy: PathPolicy, now_ms: i64)
    ensures
        p.times_out(policy, now_ms) ==> policy == PathPolicy::Auto && p.last_pong_ms > 0 && now_ms
            - p.last_pong_ms > 30_000 && (p.path == PathKind::DirectUdp || p.path == PathKind::DirectTcp),
{
}

/// Giving a path up changes nothing of the peer but the path and what it was built on.
pub proof fn lemma_falling_back_is_scoped(p: PeerView)
    ensures
        p.fallen_back() == (PeerView {
            path: PathKind::RelayUdp,
            link: p.fallen_back().link,
            direct: p.fallen_back().direct,
            ..p
        }),
{
}

/// An answer, over whatever path it comes, keeps the direct path for half a minute.
pub proof fn lemma_answer_keeps_path_alive(
    p: PeerView,
    arrival: Arrival,
    payload: Seq<u8>,
    policy: PathPolicy,
    answered_ms: i64,
    now_ms: i64,
)
    requires
        now_ms - answered_ms <= 30_000,
    ensures
        p.with_pong(arrival, payload, policy, answered_ms).last_pong_ms == answered_ms,
        !p.with_pong(arrival, payload, policy, answered_ms).times_out(policy, now_ms),
{
}

/// The time that an answer took is the time since the ping that it answers, if that is
/// less than ten minutes.
pub proof fn lemma_answer_tells_round_trip(
    p: PeerView,
    arrival: Arrival,
    sent_ms: i64,
    policy: PathPolicy,
    now_ms: i64,
)
    requires
        0 <= sent_ms <= now_ms,
    ensures
        now_ms - sent_ms < 600_000 ==> p.with_pong(
            arrival,
            endec::le_bytes(sent_ms as nat, 8),
            policy,
            now_ms,
        ).rtt_ms == now_ms - sent_ms,
        now_ms - sent_ms >= 600_000 ==> p.with_pong(
            arrival,
            endec::le_bytes(sent_ms as nat, 8),
            policy,
            now_ms,
        ).rtt_ms == p.rtt_ms,
{
    let payload = endec::le_bytes(sent_ms as nat, 8);
    endec::lemma_le_bytes_len(sent_ms as nat, 8);
    endec::lemma_byte_spans();
    endec::lemma_le_round_trip(sent_ms as nat, 8);
    assert(payload.take(8) =~= payload);
}

/// An answer that came over a relay or a connection says nothing of a UDP path, and one
/// that the policy has no use for changes no path either.
pub proof fn lemma_other_answers_leave_paths(
    p: PeerView,
    arrival: Arrival,
    payload: Seq<u8>,
    policy: PathPolicy,
    now_ms: i64,
)
    requires
        !(arrival is DirectUdp) || policy == PathPolicy::RelayUdp || policy == PathPolicy::RelayTcp || policy
            == PathPolicy::DirectTcp,
    ensures
        p.with_pong(arrival, payload, policy, now_ms) == (PeerView {
            rtt_ms: p.with_pong(arrival, payload, policy, now_ms).rtt_ms,
            last_pong_ms: now_ms,
            ..p
        }),
{
}

/// A new connection is there to be used, and takes frames off the relay wherever the
/// policy lets them take it. It takes none off a direct UDP path, and changes nothing
/// else.
pub proof fn lemma_new_link_takes_over(p: PeerView, conn: u64, policy: PathPolicy)
    ensures
        p.with_link(conn, policy) == (PeerView {
            link: Some(conn),
            path: p.with_link(conn, policy).path,
            ..p
        }),
        policy == PathPolicy::DirectTcp ==> p.with_link(conn, policy).route_for(policy, true) == (
        Route::Link { conn }),
        (policy == PathPolicy::Auto || policy == PathPolicy::DirectAny) && p.path != PathKind::DirectUdp
            ==> p.with_link(conn, policy).route_for(policy, true) == (Route::Link { conn }),
        p.path == PathKind::DirectUdp || p.path == PathKind::DirectTcp ==> p.with_link(conn, policy).path
            == p.path,
        policy == PathPolicy::RelayUdp || policy == PathPolicy::RelayTcp || policy
            == PathPolicy::DirectUdp ==> p.with_link(conn, policy).path == p.path,
        p.rises_to_link(policy) <==> p.with_link(conn, policy).path != p.path,
{
}

/// A policy that allows one path puts the peer on it. `Auto` keeps every path but the
/// TCP relay, which only a policy picks, and `DirectAny` keeps every path. A policy that
/// comes into force again changes nothing.
pub proof fn lemma_policy_sets_the_path(p: PeerView, policy: PathPolicy, kind: PathKind)
    ensures
        policy != PathPolicy::Auto && policy != PathPolicy::DirectAny && allows(policy, kind)
            ==> p.path_under(policy) == kind,
        policy == PathPolicy::DirectAny ==> p.path_under(policy) == p.path,
        policy == PathPolicy::Auto && p.path != PathKind::RelayTcp ==> p.path_under(policy) == p.path,
        policy == PathPolicy::Auto && p.path == PathKind::RelayTcp ==> p.path_under(policy)
            == PathKind::RelayUdp,
        (PeerView { path: p.path_under(policy), ..p }).path_under(policy) == p.path_under(policy),
{
}

/// A direct UDP path is looked for until there is one: while frames take another path,
/// after one was given up, and under the policy that names it until an address is
/// learned. It is looked for no longer once a peer has answered over it, and never under
/// a policy that keeps frames off it.
pub proof fn lemma_udp_is_looked_for(
    p: PeerView,
    policy: PathPolicy,
    from: SocketAddr,
    local: SocketAddr,
    payload: Seq<u8>,
    now_ms: i64,
)
    ensures
        (policy == PathPolicy::Auto || policy == PathPolicy::DirectAny) ==> (p.wants_udp_probe(policy)
            <==> p.path != PathKind::DirectUdp),
        p.wants_udp_probe(PathPolicy::DirectUdp) <==> p.direct is None,
        p.times_out(policy, now_ms) ==> p.fallen_back().wants_udp_probe(policy),
        !p.with_pong(Arrival::DirectUdp { from, local }, payload, policy, now_ms).wants_udp_probe(policy),
        p.wants_udp_probe(policy) ==> allows(policy, PathKind::DirectUdp),
{
}

/// A direct connection is looked for while there is no direct path, and under the policy
/// that names it while none stands; never under a policy that keeps frames off it.
pub proof fn lemma_tcp_is_looked_for(p: PeerView, policy: PathPolicy, link_open: bool)
    ensures
        (policy == PathPolicy::Auto || policy == PathPolicy::DirectAny) ==> (p.wants_tcp_probe(
            policy,
            link_open,
        ) <==> p.path != PathKind::DirectUdp),
        p.wants_tcp_probe(PathPolicy::DirectTcp, link_open) <==> p.link is None || !link_open,
        p.wants_tcp_probe(policy, link_open) ==> allows(policy, PathKind::DirectTcp),
{
}

/// A connection is tried where there is none, the peer has announced a port and an
/// address, and the last attempt is a minute ago. An attempt rules another out for a
/// minute, and no longer.
pub proof fn lemma_attempts_are_a_minute_apart(p: PeerView, now_ms: i64, later_ms: i64)
    requires
        now_ms <= i64::MAX - 60_000,
    ensures
        p.tcp_probe_kind(now_ms) is Connect <==> p.tcp_listen_port is Some && p.link is None
            && p.endpoints.len() > 0 && now_ms >= p.tcp_cooldown_until_ms,
        p.tcp_probe_kind(now_ms) is NoPort <==> p.tcp_listen_port is None,
        p.tcp_probe_kind(now_ms) is NoEndpoints <==> p.tcp_listen_port is Some && p.link is None
            && p.endpoints.len() == 0,
        p.tcp_probe_kind(now_ms) is Connect ==> (p.with_tcp_probe(now_ms).tcp_probe_kind(
            later_ms,
        ) is Connect <==> later_ms - now_ms >= 60_000),
        !(p.tcp_probe_kind(now_ms) is Connect) ==> p.with_tcp_probe(now_ms).tcp_cooldown_until_ms
            == p.tcp_cooldown_until_ms,
{
}

/// A connection is tried at the addresses that the peer announced, at most four of them
/// and in order, each with the port that the peer listens on.
pub proof fn lemma_attempts_go_to_the_peer(p: PeerView, i: int)
    requires
        p.tcp_listen_port is Some,
    ensures
        p.tcp_targets().len() == (if p.endpoints.len() < 4 {
            p.endpoints.len() as int
        } else {
            4
        }),
        0 <= i < p.tcp_targets().len() ==> {
            &&& port_of(p.tcp_targets()[i]) == p.tcp_listen_port->0
            &&& same_host(p.tcp_targets()[i], p.endpoints[i])
        },
{
}

/// Two addresses differ in the port alone, and in the scope.
pub open spec fn same_host(a: SocketAddr, b: SocketAddr) -> bool {
    match (a, b) {
        (SocketAddr::V4 { ip: x, .. }, SocketAddr::V4 { ip: y, .. }) => x == y,
        (SocketAddr::V6 { groups: x, .. }, SocketAddr::V6 { groups: y, .. }) => x == y,
        _ => false,
    }
}

/// A probe goes to the addresses that the peer announced, at most four of them and in
/// order, and to nothing else but ports of the first of them.
pub proof fn lemma_probes_go_to_the_peer(endpoints: Seq<SocketAddr>, i: int)
    ensures
        0 <= i < endpoints.len() && i < 4 ==> i < probe_targets(endpoints).len() && probe_targets(
            endpoints,
        )[i] == endpoints[i],
        4 <= i < probe_targets(endpoints).len() || endpoints.len() <= i < probe_targets(endpoints).len()
            ==> endpoints.len() > 0 && same_host(probe_targets(endpoints)[i], endpoints[0]),
{
    let few = first_few(endpoints);
    if few.len() <= i < probe_targets(endpoints).len() && endpoints.len() > 0 {
        lemma_neighbours_same_host(endpoints[0], 1, i - few.len());
    }
}

proof fn lemma_neighbours_same_host(observed: SocketAddr, d: int, i: int)
    requires
        0 <= i < neighbours(observed, d).len(),
    ensures
        same_host(neighbours(observed, d)[i], observed),
    decreases 5 - d,
{
    let port = port_of(observed);
    let up: Seq<SocketAddr> = if port + d <= 65535 {
        seq![with_port(observed, (port + d) as u16)]
    } else {
        Seq::empty()
    };
    let down: Seq<SocketAddr> = if port > d + 1024 {
        seq![with_port(observed, (port - d) as u16)]
    } else {
        Seq::empty()
    };
    assert(neighbours(observed, d) == up + down + neighbours(observed, d + 1));
    if i >= up.len() + down.len() {
        lemma_neighbours_same_host(observed, d + 1, i - up.len() - down.len());
    }
}

/// Every port within four of the observed one is tried: all that there are above it,
/// and below it those that are not reserved.
pub proof fn lemma_neighbours_are_tried(endpoints: Seq<SocketAddr>, target: SocketAddr)
    requires
        endpoints.len() > 0,
        target == with_port(endpoints[0], port_of(target)),
        port_of(target) != port_of(endpoints[0]),
        port_of(endpoints[0]) - 4 <= port_of(target) <= port_of(endpoints[0]) + 4,
        port_of(target) > port_of(endpoints[0]) || port_of(target) > 1024,
    ensures
        probe_targets(endpoints).contains(target),
{
    let observed = endpoints[0];
    let gap = if port_of(target) > port_of(observed) {
        port_of(target) - port_of(observed)
    } else {
        port_of(observed) - port_of(target)
    };
    lemma_neighbour_at(observed, 1, gap, target);
    let near = neighbours(observed, 1);
    let i = choose|i: int| 0 <= i < near.len() && near[i] == target;
    assert(probe_targets(endpoints)[first_few(endpoints).len() + i] == target);
}

proof fn lemma_neighbour_at(observed: SocketAddr, d: int, gap: int, target: SocketAddr)
    requires
        1 <= d <= gap <= 4,
        target == with_port(observed, port_of(target)),
        port_of(target) == port_of(observed) + gap || (port_of(target) == port_of(observed) - gap && port_of(
            target,
        ) > 1024),
    ensures
        neighbours(observed, d).contains(target),
    decreases 5 - d,
{
    let port = port_of(observed);
    let up: Seq<SocketAddr> = if port + d <= 65535 {
        seq![with_port(observed, (port + d) as u16)]
    } else {
        Seq::empty()
    };
    let down: Seq<SocketAddr> = if port > d + 1024 {
        seq![with_port(observed, (port - d) as u16)]
    } else {
        Seq::empty()
    };
    let rest = neighbours(observed, d + 1);
    let all = neighbours(observed, d);
    assert(all == up + down + rest);
    if d < gap {
        lemma_neighbour_at(observed, d + 1, gap, target);
        let i = choose|i: int| 0 <= i < rest.len() && rest[i] == target;
        assert(all[up.len() + down.len() + i] == target);
    } else if port_of(target) == port + gap {
        assert(all[0] == target);
    } else {
        assert(all[up.len() as int] == target);
    }
}

/// Every frame that leaves counts once as sent, with its bytes; every frame that is
/// dropped counts once as dropped. A frame over a direct connection counts when it is
/// known how that went. Nothing else of the peer changes but the time of the last log
/// line.
pub proof fn lemma_frames_are_counted(p: PeerView, route: Route, bytes: u64, now_ms: i64)
    requires
        p.tx_bytes + bytes <= u64::MAX,
        p.tx_packets < u64::MAX,
        p.tx_dropped < u64::MAX,
    ensures
        ({
            let q = p.with_route(route, bytes, now_ms);
            let sent = !(route is Link) && (!(route is Drop) || route == (Route::Drop {
                reason: DropReason::DirectUdpNoEndpoint,
            }));
            &&& q.tx_packets == p.tx_packets + (if sent {
                1int
            } else {
                0int
            })
            &&& q.tx_bytes == p.tx_bytes + (if sent {
                bytes as int
            } else {
                0int
            })
            &&& q.tx_dropped == p.tx_dropped + (if route is Drop {
                1int
            } else {
                0int
            })
            &&& q == (PeerView {
                tx_packets: q.tx_packets,
                tx_bytes: q.tx_bytes,
                tx_dropped: q.tx_dropped,
                last_diag_ms: q.last_diag_ms,
                ..p
            })
        }),
{
}

/// A frame that comes in counts once as received, with its bytes.
pub proof fn lemma_received_frames_are_counted(p: PeerView, bytes: u64)
    requires
        p.rx_bytes + bytes <= u64::MAX,
        p.rx_packets < u64::MAX,
    ensures
        p.with_rx(bytes) == (PeerView {
            rx_bytes: (p.rx_bytes + bytes) as u64,
            rx_packets: (p.rx_packets + 1) as u64,
            ..p
        }),
        counter_sum(u64::MAX, 1) == 0,
{
}

/// Log lines about a peer are more than a minute apart, and one that is due after a
/// minute is not held back.
pub proof fn lemma_log_lines_are_a_minute_apart(p: PeerView, now_ms: i64, later_ms: i64)
    requires
        p.diag_due(now_ms),
    ensures
        p.with_diag(now_ms).diag_due(later_ms) <==> later_ms - now_ms > 60_000,
        p.with_drop(now_ms).diag_due(later_ms) <==> later_ms - now_ms > 60_000,
        now_ms - p.last_diag_ms > 60_000,
{
}

/// A peer that nothing is known of is reached over the UDP relay, and looked for.
pub proof fn lemma_fresh_peer_is_relayed(
    id: u64,
    network: NetId,
    name: Seq<char>,
    virtual_ip: u32,
    dh_pubkey: Seq<u8>,
    codec: CodecView,
    link_open: bool,
    now_ms: i64,
)
    ensures
        ({
            let p = fresh_peer(id, network, name, virtual_ip, dh_pubkey, codec);
            &&& p.route_for(PathPolicy::Auto, link_open) == Route::RelayUdp
            &&& p.wants_udp_probe(PathPolicy::Auto)
            &&& p.wants_tcp_probe(PathPolicy::Auto, link_open)
            &&& !p.times_out(PathPolicy::Auto, now_ms)
            &&& p.rtt_ms == -1
        }),
{
}

/// A probe for a connection does what the peer calls for: it connects where it may, to
/// four addresses at most, and else says what is wanting, in a log line once a minute.
pub proof fn lemma_probe_does_what_is_called_for(probe: TcpProbe, p: PeerView, now_ms: i64)
    requires
        is_tcp_probe(probe, p, now_ms),
    ensures
        probe is NoPort <==> p.tcp_listen_port is None,
        probe is NoEndpoints <==> p.tcp_listen_port is Some && p.link is None && p.endpoints.len() == 0,
        probe is Connect <==> p.tcp_listen_port is Some && p.link is None && p.endpoints.len() > 0 && now_ms
            >= p.tcp_cooldown_until_ms,
        probe matches TcpProbe::Connect { targets } ==> 1 <= targets@.len() <= 4 && forall|i: int|
            0 <= i < targets@.len() ==> port_of(#[trigger] targets@[i]) == p.tcp_listen_port->0 && same_host(
                targets@[i],
                p.endpoints[i],
            ),
        probe matches TcpProbe::NoPort { log } ==> log == p.diag_due(now_ms),
        probe matches TcpProbe::NoEndpoints { log } ==> log == p.diag_due(now_ms),
{
    if let TcpProbe::Connect { targets } = probe {
        assert forall|i: int| 0 <= i < targets@.len() implies port_of(#[trigger] targets@[i])
            == p.tcp_listen_port->0 && same_host(targets@[i], p.endpoints[i]) by {
            lemma_attempts_go_to_the_peer(p, i);
        }
        lemma_attempts_go_to_the_peer(p, 0);
    }
}

/// Another port leaves the address what it is, on no particular interface.
pub proof fn lemma_other_port_same_address(at: SocketAddr, port: u16)
    ensures
        port_of(with_port(at, port)) == port,
        same_host(with_port(at, port), at),
        with_port(at, port) matches SocketAddr::V6 { scope, .. } ==> scope == 0,
{
}

/// Nothing is counted of a peer that is new, and nothing is known of it but who it is.
pub proof fn lemma_nothing_is_counted_yet(
    id: u64,
    network: NetId,
    name: Seq<char>,
    virtual_ip: u32,
    dh_pubkey: Seq<u8>,
    codec: CodecView,
)
    ensures
        ({
            let p = fresh_peer(id, network, name, virtual_ip, dh_pubkey, codec);
            &&& p.id == id && p.network == network && p.name == name && p.virtual_ip == virtual_ip && p.dh_pubkey
                == dh_pubkey && p.codec == codec
            &&& p.tx_bytes == 0 && p.rx_bytes == 0 && p.tx_packets == 0 && p.rx_packets == 0 && p.tx_dropped == 0
            &&& p.link is None && p.direct is None && p.tcp_listen_port is None && p.endpoints.len() == 0
            &&& p.last_pong_ms == 0 && p.tcp_cooldown_until_ms == 0 && !p.online
        }),
{
}

} // verus!
