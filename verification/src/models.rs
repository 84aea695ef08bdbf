//! The values that servers, nodes and their files exchange.
//!
//! Times are in milliseconds since 1970.

use vstd::prelude::*;

use crate::addr::{decimal_text, find_last_char, parse_socket, read_number};
use crate::consts::{DEFAULT_LISTEN_PORT, DEFAULT_MTU};
use crate::crypto::primitives::{hex_decode, hex_encode, random_bytes};
use crate::endec::{bytes_equal, read_u64_le, to_array};
use crate::secret::Secret;
use crate::text;
use crate::text::{is_space, chars_of, join, owned, same_text, string_of};
use crate::addr;
use crate::crypto::primitives;
use crate::endec;

verus! {

/// The identifier of a network: 16 bytes that mean nothing.
#[derive(Debug, Clone, Copy, PartialEq, Eq, Hash)]
pub struct NetId(pub [u8; 16]);

impl NetId {
    /// The identifier as a number, which is the key of network tables.
    pub open spec fn key(self) -> nat {
        endec::le_value(self.0@)
    }

    /// A fresh identifier.
    pub fn random() -> (id: NetId)
        ensures
            id.0@.len() == 16,
    {
        NetId(random_bytes::<16>())
    }

    /// The bytes.
    pub fn as_bytes(&self) -> (bytes: &[u8; 16])
        ensures
            *bytes == self.0,
    {
        &self.0
    }

    /// The identifier as 32 hexadecimal digits.
    pub fn to_hex(&self) -> (text: String)
        ensures
            text@ == primitives::hex_text(self.0@),
    {
        hex_encode(self.0.as_slice())
    }

    /// Reads 32 hexadecimal digits.
    pub fn from_hex(s: &str) -> (id: Option<NetId>)
        ensures
            id is Some == (primitives::is_hex_text(s@) && s@.len() == 32),
            id matches Some(n) ==> n.0@ == primitives::hex_bytes(s@),
    {
        match hex_decode(s) {
            Some(bytes) => {
                if bytes.len() != 16 {
                    return None;
                }
                Some(NetId(to_array(bytes.as_slice())))
            },
            None => None,
        }
    }

    /// Whether two identifiers are the same.
    pub fn same(&self, other: &NetId) -> (same: bool)
        ensures
            same == (*self == *other),
    {
        let same = bytes_equal(self.0.as_slice(), other.0.as_slice());
        assert(same == (self.0 =~= other.0));
        same
    }

    /// The identifier as a number.
    pub fn number(&self) -> (n: u128)
        ensures
            n == self.key(),
    {
        let low = read_u64_le(vstd::slice::slice_subrange(self.0.as_slice(), 0, 8));
        let high = read_u64_le(vstd::slice::slice_subrange(self.0.as_slice(), 8, 16));
        proof {
            let b = self.0@;
            let f = b.subrange(0, 8).take(8);
            let g = b.subrange(8, 16).take(8);
            lemma_le_split(f, g);
            assert(f + g =~= b);
        }
        low as u128 + 0x1_0000_0000_0000_0000u128 * high as u128
    }
}

proof fn lemma_le_split(f: Seq<u8>, g: Seq<u8>)
    requires
        f.len() == 8,
        g.len() == 8,
    ensures
        endec::le_value(f + g) == endec::le_value(f) + 0x1_0000_0000_0000_0000 * endec::le_value(g),
        endec::le_value(f) < 0x1_0000_0000_0000_0000,
        endec::le_value(g) < 0x1_0000_0000_0000_0000,
{
    lemma_le_concat(f, g);
    endec::lemma_le_bytes_of_value(f);
    endec::lemma_le_bytes_of_value(g);
    crate::endec::lemma_byte_spans();
}

proof fn lemma_le_concat(f: Seq<u8>, g: Seq<u8>)
    ensures
        endec::le_value(f + g) == endec::le_value(f) + endec::byte_span(f.len()) * endec::le_value(g),
    decreases f.len(),
{
    let v = endec::le_value(g);
    if f.len() == 0 {
        assert(f + g =~= g);
        assert(endec::byte_span(0) * v == v) by (nonlinear_arith)
            requires
                endec::byte_span(0) == 1,
        ;
    } else {
        lemma_le_concat(f.skip(1), g);
        assert((f + g).skip(1) =~= f.skip(1) + g);
        assert((f + g)[0] == f[0]);
        let s = endec::byte_span(f.skip(1).len());
        assert(endec::byte_span(f.len()) == 256 * s);
        assert(256 * (s * v) == (256 * s) * v) by (nonlinear_arith);
        assert(256 * (endec::le_value(f.skip(1)) + s * v) == 256 * endec::le_value(f.skip(1)) + 256 * (s * v))
            by (nonlinear_arith);
    }
}

/// Networks with the same number are the same.
pub proof fn lemma_net_key_injective(a: NetId, b: NetId)
    requires
        a.key() == b.key(),
    ensures
        a == b,
{
    endec::lemma_le_bytes_of_value(a.0@);
    endec::lemma_le_bytes_of_value(b.0@);
    assert(a.0@ == b.0@);
    assert(a.0 =~= b.0);
}

/// The number of a network fits in 128 bits, and no two networks share one.
pub proof fn lemma_networks_are_apart(a: NetId, b: NetId)
    ensures
        a.key() <= u128::MAX,
        a.key() as u128 == b.key() as u128 ==> a == b,
{
    lemma_net_key_fits(a);
    lemma_net_key_fits(b);
    if a.key() as u128 == b.key() as u128 {
        lemma_net_key_injective(a, b);
    }
}

proof fn lemma_net_key_fits(a: NetId)
    ensures
        a.key() <= u128::MAX,
{
    let f = a.0@.take(8);
    let g = a.0@.skip(8);
    assert(f + g =~= a.0@);
    lemma_le_split(f, g);
}

/// An identifier is read back from its hexadecimal form.
pub proof fn lemma_net_hex_round_trip(id: NetId)
    ensures
        primitives::is_hex_text(primitives::hex_text(id.0@)),
        primitives::hex_text(id.0@).len() == 32,
        primitives::hex_bytes(primitives::hex_text(id.0@)) == id.0@,
{
    lemma_hex_round_trip(id.0@);
}

/// Bytes are read back from their hexadecimal form.
pub proof fn lemma_hex_round_trip(bytes: Seq<u8>)
    ensures
        primitives::is_hex_text(primitives::hex_text(bytes)),
        primitives::hex_bytes(primitives::hex_text(bytes)) == bytes,
{
    let t = primitives::hex_text(bytes);
    assert forall|i: int| 0 <= i < t.len() implies crate::crypto::primitives::is_hex_char(
        #[trigger] t[i],
    ) by {
        let b = bytes[i / 2] as int;
        assert(0 <= b / 16 < 16 && 0 <= b % 16 < 16);
    }
    assert forall|i: int| 0 <= i < bytes.len() implies #[trigger] primitives::hex_bytes(t)[i] == bytes[i] by {
        let b = bytes[i] as int;
        assert((2 * i) / 2 == i && (2 * i + 1) / 2 == i);
        assert((2 * i) % 2 == 0 && (2 * i + 1) % 2 == 1);
        assert(t[2 * i] == crate::crypto::primitives::hex_digit(b / 16));
        assert(t[2 * i + 1] == crate::crypto::primitives::hex_digit(b % 16));
    }
    assert(primitives::hex_bytes(t) =~= bytes);
}

/// A device asks to be taken into a network.
#[derive(Debug, Clone)]
pub struct EnrollRequest {
    /// May carry the fingerprint of the server's certificate.
    pub token: String,
    pub name: String,
    pub sign_pubkey: String,
    pub dh_pubkey: String,
    pub requested_ip: Option<String>,
}

#[derive(Debug, Clone)]
pub struct EnrollResponse {
    pub device_id: u64,
    pub device_token: String,
    pub network_id: NetId,
    pub network_name: String,
    pub cidr: String,
    pub ip: String,
    pub mtu: u32,
}

#[derive(Debug, Clone)]
pub struct ConfigResponse {
    pub device_id: u64,
    pub name: String,
    pub network_id: NetId,
    pub network_name: String,
    pub cidr: String,
    pub ip: String,
    pub mtu: u32,
    pub relay_udp_port: u16,
    pub relay_tcp_port: u16,
}

/// What a node is told of a peer. The first of the endpoints is the one that
/// the relay observed.
#[derive(Debug, Clone)]
pub struct PeerInfo {
    pub device_id: u64,
    pub name: String,
    pub network_id: NetId,
    pub ip: String,
    pub sign_pubkey: String,
    pub dh_pubkey: String,
    pub udp_endpoints: Vec<String>,
    pub tcp_listen_port: Option<u16>,
    pub online: bool,
}

/// How a node reaches a peer, as the node sees it.
#[derive(Debug, Clone)]
pub struct PeerPathReport {
    pub device_id: u64,
    pub path: String,
    pub rtt_ms: Option<i64>,
    pub tx_bps: Option<u64>,
    pub rx_bps: Option<u64>,
    /// Lost frames out of ten thousand.
    pub rx_loss: Option<u16>,
}

#[derive(Debug, Clone)]
pub struct HeartbeatRequest {
    pub local_addrs: Vec<String>,
    pub listen_udp_port: Option<u16>,
    pub listen_tcp_port: Option<u16>,
    pub paths: Option<Vec<PeerPathReport>>,
    pub settings_revision: Option<i64>,
    pub restart_pending: Option<bool>,
    pub mode: Option<ClientMode>,
    pub proto_version: Option<u32>,
    pub node_version: Option<String>,
}

#[derive(Debug, Clone)]
pub struct HeartbeatResponse {
    pub observed_udp_endpoint: Option<String>,
    pub heartbeat_secs: u32,
}

/// An event that the server pushes.
#[derive(Debug, Clone)]
pub struct WsEvent {
    pub event_type: String,
    pub network_id: Option<NetId>,
    pub device_id: Option<u64>,
    pub message: Option<String>,
}

#[derive(Debug, Clone)]
pub struct ErrorResponse {
    pub error: String,
}

#[derive(Debug, Clone)]
pub struct SummaryResponse {
    pub networks: usize,
    pub devices: usize,
    pub online: usize,
    pub relay_udp_port: u16,
    pub relay_tcp_port: u16,
}

#[derive(Debug, Clone)]
pub struct AdminNetwork {
    pub id: NetId,
    pub name: String,
    pub cidr: String,
    pub created_at: i64,
    pub device_count: usize,
}

#[derive(Debug, Clone)]
pub struct CreateNetworkRequest {
    pub name: String,
    pub cidr: String,
}

#[derive(Debug, Clone)]
pub struct AdminToken {
    pub token: String,
    pub network_id: NetId,
    pub network_name: String,
    pub uses_left: i64,
    pub expires_at: i64,
    pub requested_ip: Option<String>,
}

#[derive(Debug, Clone)]
pub struct CreateTokenRequest {
    pub network: String,
    pub uses: i64,
    pub expires_in_hours: i64,
    pub requested_ip: Option<String>,
}

#[derive(Debug, Clone)]
pub struct AdminDeviceMembership {
    pub network_id: NetId,
    pub network_name: String,
    pub ip: String,
}

#[derive(Debug, Clone)]
pub struct AdminDevice {
    pub id: u64,
    pub name: String,
    pub created_at: i64,
    pub last_seen: i64,
    pub online: bool,
    pub networks: Vec<AdminDeviceMembership>,
    pub paths: Option<Vec<PeerPathReport>>,
    pub settings_revision: Option<i64>,
    pub applied_revision: Option<i64>,
    pub restart_pending: Option<bool>,
}

#[derive(Debug, Clone)]
pub struct SetIpRequest {
    pub ip: String,
}

#[derive(Debug, Clone)]
pub struct JoinRequest {
    pub token: String,
    pub requested_ip: Option<String>,
}

#[derive(Debug, Clone)]
pub struct JoinResponse {
    pub network_id: NetId,
    pub network_name: String,
    pub cidr: String,
    pub ip: String,
}

#[derive(Debug, Clone)]
pub struct LeaveRequest {
    pub network: String,
}

/// One network that the server counts the device into.
#[derive(Debug, Clone)]
pub struct MembershipInfo {
    pub network_id: NetId,
    pub network_name: String,
    pub cidr: String,
    pub ip: String,
}

#[derive(Debug, Clone)]
pub struct AdminJoinNetworkRequest {
    pub network: String,
    pub requested_ip: Option<String>,
}

/// A local port whose traffic goes to a peer.
#[derive(Debug)]
pub struct ForwardRule {
    /// Local `ip:port` to listen on.
    pub listen: String,
    /// `tcp` or `udp`.
    pub proto: String,
    /// `ip:port` in the virtual network.
    pub dest: String,
}

impl Clone for ForwardRule {
    fn clone(&self) -> (copy: Self)
        ensures
            copy == *self,
    {
        ForwardRule {
            listen: self.listen.clone(),
            proto: self.proto.clone(),
            dest: self.dest.clone(),
        }
    }
}

/// A local service that peers may reach.
#[derive(Debug)]
pub struct ExposeRule {
    pub port: u16,
    /// `tcp` or `udp`.
    pub proto: String,
    /// `ip:port` of the service.
    pub dest: String,
}

impl Clone for ExposeRule {
    fn clone(&self) -> (copy: Self)
        ensures
            copy == *self,
    {
        ExposeRule { port: self.port, proto: self.proto.clone(), dest: self.dest.clone() }
    }
}

/// What is exposed to one network.
#[derive(Debug, Clone)]
pub struct NetworkExposes {
    pub network_id: NetId,
    pub rules: Vec<ExposeRule>,
}

/// How a node runs.
#[derive(Debug, Clone, Copy, PartialEq, Eq, Structural)]
pub enum ClientMode {
    Tun,
    Proxy,
}

impl ClientMode {
    /// The mode in one word.
    pub open spec fn text(self) -> Seq<char> {
        match self {
            ClientMode::Tun => "tun"@,
            ClientMode::Proxy => "proxy"@,
        }
    }

    /// The mode in one word.
    pub fn as_str(&self) -> (text: &'static str)
        ensures
            text@ == self.text(),
    {
        match self {
            ClientMode::Tun => "tun",
            ClientMode::Proxy => "proxy",
        }
    }
}

/// Which paths frames to a peer may take.
#[derive(Debug, Clone, Copy, PartialEq, Eq, Structural)]
pub enum PathPolicy {
    /// Whatever works, with the relay to fall back on.
    Auto,
    RelayUdp,
    RelayTcp,
    /// Any direct path, never the relay.
    DirectAny,
    DirectUdp,
    DirectTcp,
}

impl Default for PathPolicy {
    fn default() -> (policy: Self)
        ensures
            policy == PathPolicy::Auto,
    {
        PathPolicy::Auto
    }
}

impl PathPolicy {
    /// The name of the policy.
    pub open spec fn text(self) -> Seq<char> {
        match self {
            PathPolicy::Auto => "Auto"@,
            PathPolicy::RelayUdp => "RelayUdp"@,
            PathPolicy::RelayTcp => "RelayTcp"@,
            PathPolicy::DirectAny => "DirectAny"@,
            PathPolicy::DirectUdp => "DirectUdp"@,
            PathPolicy::DirectTcp => "DirectTcp"@,
        }
    }

    /// The name of the policy.
    pub fn as_str(&self) -> (text: &'static str)
        ensures
            text@ == self.text(),
    {
        match self {
            PathPolicy::Auto => "Auto",
            PathPolicy::RelayUdp => "RelayUdp",
            PathPolicy::RelayTcp => "RelayTcp",
            PathPolicy::DirectAny => "DirectAny",
            PathPolicy::DirectUdp => "DirectUdp",
            PathPolicy::DirectTcp => "DirectTcp",
        }
    }
}

/// The policy for one peer.
#[derive(Debug, Clone)]
pub struct PeerPolicy {
    /// The device id in decimal.
    pub device_id: String,
    pub policy: PathPolicy,
}

/// The behaviour that the server prescribes to a device. A field that is not
/// set is not managed: the node keeps what it has.
#[derive(Debug, Clone)]
pub struct DeviceSettings {
    /// Grows with every change; a node applies only what is newer than what it has.
    pub revision: i64,
    pub force_relay: Option<bool>,
    pub force_direct: Option<bool>,
    pub mtu: Option<u32>,
    /// `ip:port`; an empty text switches the SOCKS listener off.
    pub socks_listen: Option<String>,
    pub forwards: Option<Vec<ForwardRule>>,
    pub exposes: Option<Vec<NetworkExposes>>,
    pub mode: Option<ClientMode>,
    /// Listen addresses as `udp://ip:port` and `tcp://ip:port`.
    pub listen: Option<Vec<String>>,
    pub path_policy: Option<PathPolicy>,
    pub peer_policies: Option<Vec<PeerPolicy>>,
}

impl Default for DeviceSettings {
    fn default() -> (settings: Self)
        ensures
            settings.revision == 0,
            !settings.manages_something(),
    {
        DeviceSettings {
            revision: 0,
            force_relay: None,
            force_direct: None,
            mtu: None,
            socks_listen: None,
            forwards: None,
            exposes: None,
            mode: None,
            listen: None,
            path_policy: None,
            peer_policies: None,
        }
    }
}

/// Host and port of a destination in the virtual network: what stands before
/// and behind the last colon.
pub open spec fn virtual_dest(dest: Seq<char>) -> Option<(Seq<char>, u16)> {
    let k = addr::last_of(dest, ':');
    if k < 1 {
        None
    } else {
        match addr::signed_number(dest.skip(k + 1), 65535) {
            Some(port) => if port == 0 {
                None
            } else {
                Some((dest.take(k), port as u16))
            },
            None => None,
        }
    }
}

/// Reads a destination in the virtual network.
pub fn parse_virtual_dest(dest: &str) -> (parts: Option<(String, u16)>)
    ensures
        match parts {
            Some((host, port)) => virtual_dest(dest@) == Some((host@, port)),
            None => virtual_dest(dest@) is None,
        },
{
    let chars = chars_of(dest);
    let n = chars.len();
    let k: usize = match find_last_char(chars.as_slice(), ':') {
        Some(k) => k,
        None => {
            return None;
        },
    };
    if k < 1 {
        return None;
    }
    assert(dest@.skip(k + 1) =~= chars@.subrange(k + 1, n as int));
    assert(dest@.take(k as int) =~= chars@.subrange(0, k as int));
    match read_number(chars.as_slice(), k + 1, n, 65535) {
        Some(port) => {
            if port == 0 {
                None
            } else {
                Some((string_of(chars.as_slice(), 0, k), port as u16))
            }
        },
        None => None,
    }
}

/// Whether a text names a transport protocol.
pub open spec fn is_proto(proto: Seq<char>) -> bool {
    proto == "tcp"@ || proto == "udp"@
}

fn proto_is_known(proto: &str) -> (known: bool)
    ensures
        known == is_proto(proto@),
{
    same_text(proto, "tcp") || same_text(proto, "udp")
}

/// What is wrong with the forward rule number `i`.
pub open spec fn forward_error(f: ForwardRule, i: int) -> Option<Seq<char>> {
    if !is_proto(f.proto@) {
        Some("forwards["@ + addr::decimal(i as nat) + "].proto 必须是 tcp 或 udp"@)
    } else if addr::socket_value(f.listen@) is None {
        Some(
            "forwards["@ + addr::decimal(i as nat) + "].listen 不是合法的 ip:port（"@ + f.listen@ + "）"@,
        )
    } else if virtual_dest(f.dest@) is None {
        Some("forwards["@ + addr::decimal(i as nat) + "].dest 不是合法的 ip:port（"@ + f.dest@ + "）"@)
    } else {
        None
    }
}

/// What is wrong with the first bad forward rule from number `i` on.
pub open spec fn forwards_error(list: Seq<ForwardRule>, i: int) -> Option<Seq<char>>
    decreases list.len() - i,
{
    if i >= list.len() {
        None
    } else {
        match forward_error(list[i], i) {
            Some(e) => Some(e),
            None => forwards_error(list, i + 1),
        }
    }
}

/// What is wrong with rule `j` of the network number `i`.
pub open spec fn expose_error(r: ExposeRule, i: int, j: int) -> Option<Seq<char>> {
    let place = "exposes["@ + addr::decimal(i as nat) + "].rules["@ + addr::decimal(j as nat);
    if !is_proto(r.proto@) {
        Some(place + "].proto 必须是 tcp 或 udp"@)
    } else if r.port == 0 {
        Some(place + "].port 无效"@)
    } else if addr::socket_value(r.dest@) is None {
        Some(place + "].dest 不是合法的 ip:port（"@ + r.dest@ + "）"@)
    } else {
        None
    }
}

/// What is wrong with the first bad rule of a network, from number `j` on.
pub open spec fn rules_error(rules: Seq<ExposeRule>, i: int, j: int) -> Option<Seq<char>>
    decreases rules.len() - j,
{
    if j >= rules.len() {
        None
    } else {
        match expose_error(rules[j], i, j) {
            Some(e) => Some(e),
            None => rules_error(rules, i, j + 1),
        }
    }
}

/// What is wrong with the first bad network from number `i` on.
pub open spec fn exposes_error(list: Seq<NetworkExposes>, i: int) -> Option<Seq<char>>
    decreases list.len() - i,
{
    if i >= list.len() {
        None
    } else if list[i].rules@.len() > 64 {
        Some("exposes["@ + addr::decimal(i as nat) + "] 规则过多（最多 64 条）"@)
    } else {
        match rules_error(list[i].rules@, i, 0) {
            Some(e) => Some(e),
            None => exposes_error(list, i + 1),
        }
    }
}

/// Whether a network occurs twice.
pub open spec fn has_duplicate(list: Seq<NetworkExposes>) -> bool {
    exists|i: int, j: int|
        #![trigger list[i], list[j]]
        0 <= i < j < list.len() && list[i].network_id == list[j].network_id
}

fn forward_problem(f: &ForwardRule, i: usize) -> (problem: Option<String>)
    ensures
        match problem {
            Some(e) => forward_error(*f, i as int) == Some(e@),
            None => forward_error(*f, i as int) is None,
        },
{
    let place = join("forwards[", decimal_text(i as u64).as_str());
    if !proto_is_known(f.proto.as_str()) {
        return Some(join(place.as_str(), "].proto 必须是 tcp 或 udp"));
    }
    if parse_socket(f.listen.as_str()).is_none() {
        let text = join(place.as_str(), "].listen 不是合法的 ip:port（");
        return Some(join(join(text.as_str(), f.listen.as_str()).as_str(), "）"));
    }
    if parse_virtual_dest(f.dest.as_str()).is_none() {
        let text = join(place.as_str(), "].dest 不是合法的 ip:port（");
        return Some(join(join(text.as_str(), f.dest.as_str()).as_str(), "）"));
    }
    None
}

fn expose_problem(r: &ExposeRule, i: usize, j: usize) -> (problem: Option<String>)
    ensures
        match problem {
            Some(e) => expose_error(*r, i as int, j as int) == Some(e@),
            None => expose_error(*r, i as int, j as int) is None,
        },
{
    let mut place = join("exposes[", decimal_text(i as u64).as_str());
    place.append("].rules[");
    place.append(decimal_text(j as u64).as_str());
    if !proto_is_known(r.proto.as_str()) {
        return Some(join(place.as_str(), "].proto 必须是 tcp 或 udp"));
    }
    if r.port == 0 {
        return Some(join(place.as_str(), "].port 无效"));
    }
    if parse_socket(r.dest.as_str()).is_none() {
        let text = join(place.as_str(), "].dest 不是合法的 ip:port（");
        return Some(join(join(text.as_str(), r.dest.as_str()).as_str(), "）"));
    }
    None
}

fn forwards_problem(list: &Vec<ForwardRule>) -> (problem: Option<String>)
    ensures
        match problem {
            Some(e) => forwards_error(list@, 0) == Some(e@),
            None => forwards_error(list@, 0) is None,
        },
{
    let mut i: usize = 0;
    while i < list.len()
        invariant
            i <= list@.len(),
            forwards_error(list@, 0) == forwards_error(list@, i as int),
        decreases list@.len() - i,
    {
        match forward_problem(&list[i], i) {
            Some(e) => {
                return Some(e);
            },
            None => {},
        }
        i += 1;
    }
    None
}

fn rules_problem(rules: &Vec<ExposeRule>, i: usize) -> (problem: Option<String>)
    ensures
        match problem {
            Some(e) => rules_error(rules@, i as int, 0) == Some(e@),
            None => rules_error(rules@, i as int, 0) is None,
        },
{
    let mut j: usize = 0;
    while j < rules.len()
        invariant
            j <= rules@.len(),
            rules_error(rules@, i as int, 0) == rules_error(rules@, i as int, j as int),
        decreases rules@.len() - j,
    {
        match expose_problem(&rules[j], i, j) {
            Some(e) => {
                return Some(e);
            },
            None => {},
        }
        j += 1;
    }
    None
}

fn exposes_problem(list: &Vec<NetworkExposes>) -> (problem: Option<String>)
    ensures
        match problem {
            Some(e) => exposes_error(list@, 0) == Some(e@),
            None => exposes_error(list@, 0) is None,
        },
{
    let mut i: usize = 0;
    while i < list.len()
        invariant
            i <= list@.len(),
            exposes_error(list@, 0) == exposes_error(list@, i as int),
        decreases list@.len() - i,
    {
        if list[i].rules.len() > 64 {
            let text = join("exposes[", decimal_text(i as u64).as_str());
            return Some(join(text.as_str(), "] 规则过多（最多 64 条）"));
        }
        match rules_problem(&list[i].rules, i) {
            Some(e) => {
                return Some(e);
            },
            None => {},
        }
        i += 1;
    }
    None
}

fn names_network_twice(list: &Vec<NetworkExposes>) -> (twice: bool)
    ensures
        twice == has_duplicate(list@),
{
    let n = list.len();
    let mut i: usize = 0;
    while i < n
        invariant
            i <= n,
            n == list@.len(),
            forall|a: int, b: int|
                #![trigger list@[a], list@[b]]
                0 <= a < i && a < b < n ==> list@[a].network_id != list@[b].network_id,
        decreases n - i,
    {
        let mut j: usize = i + 1;
        while j < n
            invariant
                i < j <= n,
                n == list@.len(),
                forall|b: int|
                    #![trigger list@[b]]
                    i < b < j ==> list@[i as int].network_id != list@[b].network_id,
            decreases n - j,
        {
            if list[i].network_id.same(&list[j].network_id) {
                assert(list@[i as int].network_id == list@[j as int].network_id);
                return true;
            }
            j += 1;
        }
        i += 1;
    }
    false
}

impl DeviceSettings {
    /// Whether the server prescribes anything at all.
    pub open spec fn manages_something(&self) -> bool {
        self.force_relay is Some || self.force_direct is Some || self.mtu is Some
            || self.socks_listen is Some || self.forwards is Some || self.exposes is Some
            || self.mode is Some || self.listen is Some || self.path_policy is Some
            || self.peer_policies is Some
    }

    /// The first thing that is wrong with the settings.
    pub open spec fn first_error(&self) -> Option<Seq<char>> {
        if self.force_relay == Some(true) && self.force_direct == Some(true) {
            Some("forceRelay 与 forceDirect 不能同时开启"@)
        } else if self.mtu is Some && !(576 <= self.mtu->0 <= 65500) {
            Some("mtu 必须在 576–65500 之间"@)
        } else if self.socks_listen is Some && self.socks_listen->0@.len() > 0 && addr::socket_value(
            self.socks_listen->0@,
        ) is None {
            Some("socksListen 不是合法的 ip:port（"@ + self.socks_listen->0@ + "）"@)
        } else if self.forwards is Some && self.forwards->0@.len() > 64 {
            Some("forwards 最多 64 条"@)
        } else if self.forwards is Some && forwards_error(self.forwards->0@, 0) is Some {
            forwards_error(self.forwards->0@, 0)
        } else if self.exposes is Some && self.exposes->0@.len() > 32 {
            Some("exposes 最多覆盖 32 个网络"@)
        } else if self.exposes is Some && exposes_error(self.exposes->0@, 0) is Some {
            exposes_error(self.exposes->0@, 0)
        } else if self.exposes is Some && has_duplicate(self.exposes->0@) {
            Some("exposes 中存在重复的 networkId"@)
        } else {
            None
        }
    }

    /// Checks the form of what the server prescribes.
    pub fn validate(&self) -> (result: Result<(), String>)
        ensures
            match result {
                Ok(()) => self.first_error() is None,
                Err(e) => self.first_error() == Some(e@),
            },
    {
        let relay = match self.force_relay {
            Some(on) => on,
            None => false,
        };
        let direct = match self.force_direct {
            Some(on) => on,
            None => false,
        };
        if relay && direct {
            return Err(owned("forceRelay 与 forceDirect 不能同时开启"));
        }
        if let Some(mtu) = self.mtu {
            if !(576 <= mtu && mtu <= 65500) {
                return Err(owned("mtu 必须在 576–65500 之间"));
            }
        }
        if let Some(socks) = &self.socks_listen {
            if !socks.as_str().is_empty() && parse_socket(socks.as_str()).is_none() {
                let text = join("socksListen 不是合法的 ip:port（", socks.as_str());
                return Err(join(text.as_str(), "）"));
            }
        }
        if let Some(forwards) = &self.forwards {
            if forwards.len() > 64 {
                return Err(owned("forwards 最多 64 条"));
            }
            if let Some(e) = forwards_problem(forwards) {
                return Err(e);
            }
        }
        if let Some(list) = &self.exposes {
            if list.len() > 32 {
                return Err(owned("exposes 最多覆盖 32 个网络"));
            }
            if let Some(e) = exposes_problem(list) {
                return Err(e);
            }
            if names_network_twice(list) {
                return Err(owned("exposes 中存在重复的 networkId"));
            }
        }
        Ok(())
    }

    /// Whether the server prescribes nothing.
    pub fn is_empty(&self) -> (empty: bool)
        ensures
            empty == !self.manages_something(),
    {
        self.force_relay.is_none() && self.force_direct.is_none() && self.mtu.is_none()
            && self.socks_listen.is_none() && self.forwards.is_none() && self.exposes.is_none()
            && self.mode.is_none() && self.listen.is_none() && self.path_policy.is_none()
            && self.peer_policies.is_none()
    }
}

/// Settings that prescribe nothing are in order.
pub proof fn lemma_unmanaged_settings_are_valid(s: DeviceSettings)
    requires
        !s.manages_something(),
    ensures
        s.first_error() is None,
{
}

/// The identity of a device: the sensitive half of its configuration.
#[derive(Debug, Clone)]
pub struct Identity {
    pub device_id: u64,
    pub name: String,
    pub device_token: Secret,
    pub sign_public_key: String,
    pub sign_private_key: Secret,
    pub dh_public_key: String,
    pub dh_private_key: Secret,
    pub server_cert_pin: Option<String>,
}

/// The configuration of a node: how to reach the server, what is particular to
/// the machine, and the identity.
#[derive(Debug, Clone)]
pub struct NodeConfig {
    pub server: String,
    pub mode: ClientMode,
    pub mtu: u32,
    pub data_dir: String,
    pub listen_udp_port: u16,
    pub listen_tcp_port: u16,
    pub log_file: Option<String>,
    pub identity: Identity,
}

/// Whether a text holds nothing but white space.
pub open spec fn is_blank(text: Seq<char>) -> bool {
    forall|i: int| 0 <= i < text.len() ==> text::is_white_space(#[trigger] text[i])
}

fn text_is_blank(text: &str) -> (blank: bool)
    ensures
        blank == is_blank(text@),
{
    let chars = chars_of(text);
    let mut i: usize = 0;
    while i < chars.len()
        invariant
            i <= chars@.len(),
            chars@ == text@,
            forall|j: int| 0 <= j < i ==> text::is_white_space(#[trigger] text@[j]),
        decreases chars@.len() - i,
    {
        if !is_space(chars[i]) {
            assert(!text::is_white_space(text@[i as int]));
            return false;
        }
        i += 1;
    }
    true
}

impl NodeConfig {
    /// Checks that nothing is missing.
    pub fn validate(&self) -> (result: Result<(), String>)
        ensures
            match result {
                Ok(()) => !is_blank(self.server@),
                Err(e) => is_blank(self.server@) && e@ == "配置缺少 server"@,
            },
    {
        if text_is_blank(self.server.as_str()) {
            return Err(owned("配置缺少 server"));
        }
        Ok(())
    }
}

/// The MTU of a configuration that names none.
pub fn default_mtu() -> (mtu: u32)
    ensures
        mtu == DEFAULT_MTU,
{
    DEFAULT_MTU
}

/// The port of a configuration that names none.
pub fn default_listen_port() -> (port: u16)
    ensures
        port == DEFAULT_LISTEN_PORT,
{
    DEFAULT_LISTEN_PORT
}

/// The mode of a configuration that names none.
pub fn default_mode() -> (mode: ClientMode)
    ensures
        mode == ClientMode::Proxy,
{
    ClientMode::Proxy
}

/// The protocol of a rule that names none.
pub fn default_proto() -> (proto: String)
    ensures
        proto@ == "tcp"@,
{
    owned("tcp")
}

#[derive(Debug, Clone)]
pub struct NetworkStatus {
    pub network: String,
    pub ip: String,
    pub cidr: String,
}

#[derive(Debug, Clone)]
pub struct PeerStatus {
    pub network: String,
    pub name: String,
    pub ip: String,
    pub online: bool,
    pub path: String,
    pub endpoint: String,
    pub rtt_ms: i64,
    pub tx_bytes: u64,
    pub rx_bytes: u64,
    pub tx_packets: u64,
    pub rx_packets: u64,
}

/// What a running node says of itself.
#[derive(Debug, Clone)]
pub struct StatusReport {
    pub running: bool,
    pub pid: u32,
    pub started_at: i64,
    pub uptime_sec: i64,
    pub server: String,
    pub networks: Vec<NetworkStatus>,
    pub mode: String,
    pub udp_port: u16,
    pub observed_endpoint: Option<String>,
    pub socks: Option<String>,
    pub forwards: Vec<String>,
    pub peers: Vec<PeerStatus>,
}

/// A destination is a host and a port behind a colon. Neither an empty host nor the port
/// zero is one.
pub proof fn lemma_destination_is_read(host: Seq<char>, port: nat, dest: Seq<char>)
    ensures
        virtual_dest(host + seq![':'] + addr::decimal(port)) == (if host.len() > 0 && 1 <= port <= 65535 {
            Some((host, port as u16))
        } else {
            None
        }),
        virtual_dest(dest) matches Some((h, p)) ==> h.len() > 0 && p > 0 && h.len() < dest.len() && dest.take(
            h.len() as int,
        ) == h && dest[h.len() as int] == ':',
{
    let s = host + seq![':'] + addr::decimal(port);
    let k = host.len() as int;
    addr::lemma_decimal_value(port);
    assert forall|j: int| k < j < s.len() implies s[j] != ':' by {
        assert(s[j] == addr::decimal(port)[j - k - 1]);
        assert(addr::is_digit(addr::decimal(port)[j - k - 1]));
    }
    assert(s[k] == ':');
    addr::lemma_last_of(s, ':', k);
    assert(s.take(k) =~= host);
    assert(s.skip(k + 1) =~= addr::decimal(port));
    assert(addr::is_digit(addr::decimal(port)[0]));
    lemma_last_colon(dest);
}

proof fn lemma_last_colon(s: Seq<char>)
    ensures
        -1 <= addr::last_of(s, ':') < s.len(),
        addr::last_of(s, ':') >= 0 ==> s[addr::last_of(s, ':')] == ':',
    decreases s.len(),
{
    if s.len() > 0 && s.last() != ':' {
        lemma_last_colon(s.drop_last());
    }
}

/// A forwarding rule that can be put into force.
pub open spec fn sound_forward(f: ForwardRule) -> bool {
    (f.proto@ == "tcp"@ || f.proto@ == "udp"@) && addr::socket_value(f.listen@) is Some && virtual_dest(
        f.dest@,
    ) is Some
}

/// A service that can be put into force.
pub open spec fn sound_service(r: ExposeRule) -> bool {
    (r.proto@ == "tcp"@ || r.proto@ == "udp"@) && r.port != 0 && addr::socket_value(r.dest@) is Some
}

proof fn lemma_forwards_sound(list: Seq<ForwardRule>, i: int)
    requires
        0 <= i <= list.len(),
    ensures
        forwards_error(list, i) is None <==> forall|k: int|
            i <= k < list.len() ==> sound_forward(#[trigger] list[k]),
    decreases list.len() - i,
{
    if i < list.len() {
        lemma_forwards_sound(list, i + 1);
        assert(forward_error(list[i], i) is None <==> sound_forward(list[i]));
    }
}

proof fn lemma_services_sound(rules: Seq<ExposeRule>, i: int, j: int)
    requires
        0 <= j <= rules.len(),
    ensures
        rules_error(rules, i, j) is None <==> forall|k: int|
            j <= k < rules.len() ==> sound_service(#[trigger] rules[k]),
    decreases rules.len() - j,
{
    if j < rules.len() {
        lemma_services_sound(rules, i, j + 1);
        assert(expose_error(rules[j], i, j) is None <==> sound_service(rules[j]));
    }
}

/// The services of a network can be put into force.
pub open spec fn sound_exposes(n: NetworkExposes) -> bool {
    n.rules@.len() <= 64 && forall|j: int| 0 <= j < n.rules@.len() ==> sound_service(#[trigger] n.rules@[j])
}

proof fn lemma_exposes_sound(list: Seq<NetworkExposes>, i: int)
    requires
        0 <= i <= list.len(),
    ensures
        exposes_error(list, i) is None <==> forall|k: int|
            i <= k < list.len() ==> sound_exposes(#[trigger] list[k]),
    decreases list.len() - i,
{
    if i < list.len() {
        lemma_exposes_sound(list, i + 1);
        lemma_services_sound(list[i].rules@, i, 0);
    }
}

/// Settings are accepted if and only if they contradict themselves nowhere, the MTU is
/// one that works, every address can be read, there are not too many rules, each rule can
/// be put into force, and no network is named twice.
pub proof fn lemma_which_settings_are_accepted(s: DeviceSettings)
    ensures
        s.first_error() is None <==> {
            &&& !(s.force_relay == Some(true) && s.force_direct == Some(true))
            &&& s.mtu matches Some(mtu) ==> 576 <= mtu && mtu <= 65500
            &&& s.socks_listen matches Some(at) ==> at@.len() == 0 || addr::socket_value(at@) is Some
            &&& s.forwards matches Some(list) ==> list@.len() <= 64 && forall|i: int|
                0 <= i < list@.len() ==> sound_forward(#[trigger] list@[i])
            &&& s.exposes matches Some(list) ==> list@.len() <= 32 && (forall|i: int|
                0 <= i < list@.len() ==> sound_exposes(#[trigger] list@[i])) && (forall|i: int, j: int|
                0 <= i < j < list@.len() ==> (#[trigger] list@[i]).network_id != (
                #[trigger] list@[j]).network_id)
        },
{
    if let Some(list) = s.forwards {
        lemma_forwards_sound(list@, 0);
    }
    if let Some(list) = s.exposes {
        lemma_exposes_sound(list@, 0);
    }
}

/// Of several rules that cannot be put into force, the first is told of.
pub proof fn lemma_first_fault_is_told(list: Seq<ForwardRule>, i: int)
    requires
        0 <= i < list.len(),
        forall|k: int| 0 <= k < i ==> sound_forward(#[trigger] list[k]),
        !sound_forward(list[i]),
    ensures
        forwards_error(list, 0) == forward_error(list[i], i),
        forward_error(list[i], i) is Some,
{
    lemma_first_fault_from(list, 0, i);
}

proof fn lemma_first_fault_from(list: Seq<ForwardRule>, from: int, i: int)
    requires
        0 <= from <= i < list.len(),
        forall|k: int| from <= k < i ==> sound_forward(#[trigger] list[k]),
        !sound_forward(list[i]),
    ensures
        forwards_error(list, from) == forward_error(list[i], i),
        forward_error(list[i], i) is Some,
    decreases i - from,
{
    if from < i {
        assert(sound_forward(list[from]));
        lemma_first_fault_from(list, from + 1, i);
    }
}

/// Settings manage something if and only if they say anything at all.
pub proof fn lemma_what_is_managed(s: DeviceSettings)
    ensures
        !s.manages_something() <==> s.force_relay is None && s.force_direct is None && s.mtu is None
            && s.socks_listen is None && s.forwards is None && s.exposes is None && s.mode is None && s.listen is None
            && s.path_policy is None && s.peer_policies is None,
{
}

/// A text is blank if and only if nothing is left of it once it is trimmed.
pub proof fn lemma_blank_is_nothing_once_trimmed(s: Seq<char>)
    ensures
        is_blank(s) <==> text::trimmed(s).len() == 0,
{
    let ends = text::lemma_trimmed_at_both_ends(s);
    if is_blank(s) && ends.0 < ends.1 {
        assert(text::is_white_space(s[ends.0]));
    }
    if ends.0 == ends.1 {
        assert forall|i: int| 0 <= i < s.len() implies text::is_white_space(#[trigger] s[i]) by {}
    }
}

/// Every policy has a name of its own.
pub proof fn lemma_policies_have_names(a: PathPolicy, b: PathPolicy)
    ensures
        a.text() == b.text() <==> a == b,
        ClientMode::Tun.text() != ClientMode::Proxy.text(),
{
    reveal_strlit("Auto");
    reveal_strlit("RelayUdp");
    reveal_strlit("RelayTcp");
    reveal_strlit("DirectAny");
    reveal_strlit("DirectUdp");
    reveal_strlit("DirectTcp");
    reveal_strlit("tun");
    reveal_strlit("proxy");
    assert("RelayUdp"@[5] == 'U' && "RelayTcp"@[5] == 'T' && "DirectUdp"@[6] == 'U' && "DirectTcp"@[6] == 'T'
        && "DirectAny"@[6] == 'A');
    assert("RelayUdp"@[0] == 'R' && "RelayTcp"@[0] == 'R' && "DirectUdp"@[0] == 'D' && "DirectTcp"@[0] == 'D'
        && "DirectAny"@[0] == 'D' && "Auto"@[0] == 'A');
    assert("tun"@.len() == 3 && "proxy"@.len() == 5);
}

/// What is wrong with a forwarding rule is told with its place: the protocol first, then
/// where it listens, then where it leads.
pub proof fn lemma_forward_fault_in_words(f: ForwardRule, i: int)
    requires
        i >= 0,
    ensures
        ({
            let place = "forwards["@ + addr::decimal(i as nat);
            let named = f.proto@ == "tcp"@ || f.proto@ == "udp"@;
            let listens = addr::socket_value(f.listen@) is Some;
            &&& !named ==> forward_error(f, i) == Some(place + "].proto 必须是 tcp 或 udp"@)
            &&& named && !listens ==> forward_error(f, i) == Some(
                place + "].listen 不是合法的 ip:port（"@ + f.listen@ + "）"@,
            )
            &&& named && listens && virtual_dest(f.dest@) is None ==> forward_error(f, i) == Some(
                place + "].dest 不是合法的 ip:port（"@ + f.dest@ + "）"@,
            )
        }),
{
}

/// What is wrong with a service is told with its place: the protocol first, then the
/// port, then where it is.
pub proof fn lemma_service_fault_in_words(r: ExposeRule, i: int, j: int)
    requires
        i >= 0,
        j >= 0,
    ensures
        ({
            let place = "exposes["@ + addr::decimal(i as nat) + "].rules["@ + addr::decimal(j as nat);
            let named = r.proto@ == "tcp"@ || r.proto@ == "udp"@;
            &&& !named ==> expose_error(r, i, j) == Some(place + "].proto 必须是 tcp 或 udp"@)
            &&& named && r.port == 0 ==> expose_error(r, i, j) == Some(place + "].port 无效"@)
            &&& named && r.port != 0 && addr::socket_value(r.dest@) is None ==> expose_error(r, i, j) == Some(
                place + "].dest 不是合法的 ip:port（"@ + r.dest@ + "）"@,
            )
        }),
{
}

/// Of several services that cannot be put into force, the first is told of: that of the
/// first network, and in it the first of the list. Too many are told of before any one.
pub proof fn lemma_first_service_fault_is_told(list: Seq<NetworkExposes>, i: int, j: int)
    requires
        0 <= i < list.len(),
        forall|k: int| 0 <= k < i ==> sound_exposes(#[trigger] list[k]),
        0 <= j < list[i].rules@.len(),
        forall|k: int| 0 <= k < j ==> sound_service(#[trigger] list[i].rules@[k]),
        !sound_service(list[i].rules@[j]),
    ensures
        list[i].rules@.len() <= 64 ==> exposes_error(list, 0) == expose_error(list[i].rules@[j], i, j),
        list[i].rules@.len() > 64 ==> exposes_error(list, 0) == Some(
            "exposes["@ + addr::decimal(i as nat) + "] 规则过多（最多 64 条）"@,
        ),
{
    lemma_first_service_fault_in(list[i].rules@, i, 0, j);
    lemma_exposes_fault_from(list, 0, i);
}

proof fn lemma_first_service_fault_in(rules: Seq<ExposeRule>, i: int, from: int, j: int)
    requires
        0 <= from <= j < rules.len(),
        forall|k: int| from <= k < j ==> sound_service(#[trigger] rules[k]),
        !sound_service(rules[j]),
    ensures
        rules_error(rules, i, from) == expose_error(rules[j], i, j),
        expose_error(rules[j], i, j) is Some,
    decreases j - from,
{
    if from < j {
        assert(sound_service(rules[from]));
        lemma_first_service_fault_in(rules, i, from + 1, j);
    }
}

proof fn lemma_exposes_fault_from(list: Seq<NetworkExposes>, from: int, i: int)
    requires
        0 <= from <= i < list.len(),
        forall|k: int| from <= k < i ==> sound_exposes(#[trigger] list[k]),
    ensures
        exposes_error(list, from) == exposes_error(list, i),
    decreases i - from,
{
    if from < i {
        assert(sound_exposes(list[from]));
        lemma_services_sound(list[from].rules@, from, 0);
        lemma_exposes_fault_from(list, from + 1, i);
    }
}

/// Settings with several faults are refused for the first: the contradiction, the MTU,
/// the SOCKS address, the rules, the services, and a network that is named twice.
pub proof fn lemma_first_fault_of_settings(s: DeviceSettings)
    ensures
        ({
            let relayed_and_direct = s.force_relay == Some(true) && s.force_direct == Some(true);
            let bad_mtu = s.mtu matches Some(mtu) && (mtu < 576 || mtu > 65500);
            let bad_socks = s.socks_listen matches Some(at) && at@.len() > 0 && addr::socket_value(at@) is None;
            let many = s.forwards matches Some(list) && list@.len() > 64;
            &&& relayed_and_direct ==> s.first_error() == Some("forceRelay 与 forceDirect 不能同时开启"@)
            &&& !relayed_and_direct && bad_mtu ==> s.first_error() == Some("mtu 必须在 576–65500 之间"@)
            &&& !relayed_and_direct && !bad_mtu && bad_socks ==> s.first_error() == Some(
                "socksListen 不是合法的 ip:port（"@ + s.socks_listen->0@ + "）"@,
            )
            &&& !relayed_and_direct && !bad_mtu && !bad_socks && many ==> s.first_error() == Some(
                "forwards 最多 64 条"@,
            )
        }),
{
}

} // verus!
