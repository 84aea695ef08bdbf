//! The UDP sockets of the node: where they listen, which one a frame leaves by,
//! and what a packet is.
//!
//! Where a packet comes from decides what it is: the relay hands on bare frames,
//! which look no different from those that a peer sends itself.

use vstd::prelude::*;
use vstd::slice::slice_to_vec;

use crate::addr;
use crate::addr::{decimal_text, SocketAddr, SocketView};
use crate::protocol::relay_udp;
use crate::protocol::relay_udp::{build_register, build_relay, parse, RelayPacket, RelayView};
use crate::runtime;
use crate::runtime::bind_failure_is_fatal;
use crate::text::{contains_char, owned};

verus! {

/// What a packet is.
#[derive(Debug)]
pub enum UdpInbound {
    /// The relay says under which address it sees the node.
    ObservedEndpoint(String),
    /// A frame that came over the relay.
    RelayFrame(Vec<u8>),
    /// A frame that a peer has sent itself.
    Direct(Vec<u8>),
    Ignore,
}

/// What a packet is, as values.
pub ghost enum InboundView {
    ObservedEndpoint(Seq<char>),
    RelayFrame(Seq<u8>),
    Direct(Seq<u8>),
    Ignore,
}

impl View for UdpInbound {
    type V = InboundView;

    open spec fn view(&self) -> InboundView {
        match *self {
            UdpInbound::ObservedEndpoint(ep) => InboundView::ObservedEndpoint(ep@),
            UdpInbound::RelayFrame(frame) => InboundView::RelayFrame(frame@),
            UdpInbound::Direct(frame) => InboundView::Direct(frame@),
            UdpInbound::Ignore => InboundView::Ignore,
        }
    }
}

/// An address with its port, in brackets if the address has colons.
pub open spec fn endpoint_text(ip: Seq<char>, port: u16) -> Seq<char> {
    if ip.contains(':') && !(ip.len() > 0 && ip[0] == '[') {
        "["@ + ip + "]:"@ + addr::decimal(port as nat)
    } else {
        ip + ":"@ + addr::decimal(port as nat)
    }
}

fn write_endpoint(ip: &str, port: u16) -> (text: String)
    ensures
        text@ == endpoint_text(ip@, port),
{
    let bracketed = contains_char(ip, ':') && !runtime::has_head(ip, "[");
    proof {
        reveal_strlit("[");
        if ip@.len() > 0 {
            assert(ip@.take(1) =~= seq![ip@[0]]);
        }
        assert("["@ =~= seq!['[']);
        assert("["@[0] == '[');
        if ip@.len() > 0 && ip@[0] != '[' {
            assert(ip@.take(1)[0] != "["@[0]);
        }
        assert(runtime::starts_with(ip@, "["@) == (ip@.len() > 0 && ip@[0] == '['));
    }
    if bracketed {
        let mut text = owned("[");
        text.append(ip);
        text.append("]:");
        text.append(decimal_text(port as u64).as_str());
        text
    } else {
        let mut text = owned(ip);
        text.append(":");
        text.append(decimal_text(port as u64).as_str());
        text
    }
}

/// What a packet is: its source decides.
pub open spec fn classified(from: SocketView, relay: Option<SocketView>, packet: Seq<u8>) -> InboundView {
    if relay == Some(from) {
        match relay_udp::parsed_relay(packet) {
            Some(RelayView::Ack { ip, port }) => InboundView::ObservedEndpoint(endpoint_text(ip, port)),
            Some(RelayView::Relay { frame, .. }) => InboundView::RelayFrame(frame),
            Some(_) => InboundView::Ignore,
            None => InboundView::RelayFrame(packet),
        }
    } else {
        match relay_udp::parsed_relay(packet) {
            Some(_) => InboundView::Ignore,
            None => InboundView::Direct(packet),
        }
    }
}

/// An address that may be absent, as values.
pub open spec fn relay_view(relay: Option<SocketAddr>) -> Option<SocketView> {
    match relay {
        Some(at) => Some(at@),
        None => None,
    }
}

/// What a packet is.
pub fn classify(from: &SocketAddr, relay: &Option<SocketAddr>, packet: &[u8]) -> (inbound: UdpInbound)
    ensures
        inbound@ == classified(from@, relay_view(*relay), packet@),
{
    let from_relay = match relay {
        Some(at) => at.same(from),
        None => false,
    };
    match parse(packet) {
        Some(RelayPacket::Ack { ip, port }) => {
            if from_relay {
                UdpInbound::ObservedEndpoint(write_endpoint(ip.as_str(), port))
            } else {
                UdpInbound::Ignore
            }
        },
        Some(RelayPacket::Relay { frame, .. }) => {
            if from_relay {
                UdpInbound::RelayFrame(slice_to_vec(frame))
            } else {
                UdpInbound::Ignore
            }
        },
        Some(_) => UdpInbound::Ignore,
        None => {
            if from_relay {
                UdpInbound::RelayFrame(slice_to_vec(packet))
            } else {
                UdpInbound::Direct(slice_to_vec(packet))
            }
        },
    }
}

/// Nothing that the relay sends counts as sent by a peer itself, and nothing that
/// another sends counts as sent by the relay.
pub proof fn lemma_source_decides(from: SocketView, relay: Option<SocketView>, packet: Seq<u8>)
    ensures
        relay == Some(from) ==> !(classified(from, relay, packet) is Direct),
        relay != Some(from) ==> !(classified(from, relay, packet) is RelayFrame)
            && !(classified(from, relay, packet) is ObservedEndpoint),
{
}

/// What to do where an address cannot be listened on.
#[derive(Debug)]
pub enum BindFailure {
    /// Listen here instead, on a port that the machine picks.
    Fallback(SocketAddr),
    Skip,
    Fatal,
}

/// Addresses, as values.
pub open spec fn binds_view(list: Seq<SocketAddr>) -> Seq<SocketView> {
    list.map_values(|at: SocketAddr| at@)
}

/// The port of an address.
pub open spec fn port_in(at: SocketView) -> u16 {
    match at {
        SocketView::V4 { port, .. } => port,
        SocketView::V6 { port, .. } => port,
    }
}

/// The address with another port, on no particular interface.
pub open spec fn with_port(at: SocketView, port: u16) -> SocketView {
    match at {
        SocketView::V4 { ip, .. } => SocketView::V4 { ip, port },
        SocketView::V6 { groups, .. } => SocketView::V6 { groups, scope: 0, port },
    }
}

/// The addresses that the node listens on. The first is the one that it registers
/// under.
pub struct UdpMesh {
    pub binds: Vec<SocketAddr>,
    pub used_fallback_port: bool,
    /// Where the relay is, once that is known.
    pub relay: Option<SocketAddr>,
    /// What the node registers with.
    pub creds: Option<(u64, [u8; 32])>,
}

/// A packet, and where it goes. It leaves by the first socket.
#[derive(Debug)]
pub struct RelayBound {
    pub to: SocketAddr,
    pub packet: Vec<u8>,
}

impl UdpMesh {
    /// The node listens nowhere yet.
    pub fn new() -> (b: UdpMesh)
        ensures
            b.binds@ == Seq::<SocketAddr>::empty(),
            !b.used_fallback_port,
            b.relay is None,
            b.creds is None,
    {
        UdpMesh { binds: Vec::new(), used_fallback_port: false, relay: None, creds: None }
    }

    /// The addresses that the node listens on.
    pub fn local_binds(&self) -> (binds: &Vec<SocketAddr>)
        ensures
            *binds == self.binds,
    {
        &self.binds
    }

    /// The relay is at this address, and the node registers there as this device.
    pub fn configure_relay(&mut self, relay_addr: SocketAddr, device_id: u64, relay_key: &[u8; 32])
        ensures
            final(self).relay == Some(relay_addr),
            final(self).creds == Some((device_id, *relay_key)),
            final(self).binds == old(self).binds,
            final(self).used_fallback_port == old(self).used_fallback_port,
    {
        self.relay = Some(relay_addr);
        self.creds = Some((device_id, *relay_key));
    }

    /// Registers the node with the relay, if there is one. The relay takes no nonce
    /// twice, so each packet has its own; which one is left to chance.
    pub fn send_register(&self) -> (sent: Option<RelayBound>)
        ensures
            sent is Some == (self.relay is Some && self.creds is Some),
            sent matches Some(s) ==> Some(s.to) == self.relay && exists|nonce: Seq<u8>|
                nonce.len() == 16 && s.packet@ == #[trigger] relay_udp::register_packet(
                    (self.creds->0).0,
                    nonce,
                    (self.creds->0).1@,
                ),
    {
        match (self.creds, self.relay) {
            (Some((device_id, key)), Some(to)) => {
                let packet = build_register(device_id, &key);
                Some(RelayBound { to, packet: slice_to_vec(packet.as_slice()) })
            },
            _ => None,
        }
    }

    /// Hands a frame to the relay, if there is one.
    pub fn send_relay(&self, src_id: u64, dst_id: u64, frame: &[u8]) -> (sent: Option<RelayBound>)
        ensures
            sent is Some == self.relay is Some,
            sent matches Some(s) ==> Some(s.to) == self.relay && s.packet@ == relay_udp::relay_packet(
                src_id,
                dst_id,
                frame@,
            ),
    {
        match self.relay {
            Some(to) => Some(RelayBound { to, packet: build_relay(src_id, dst_id, frame) }),
            None => None,
        }
    }

    fn position(&self, at: &SocketAddr) -> (found: Option<usize>)
        ensures
            match found {
                Some(i) => {
                    &&& i < self.binds@.len()
                    &&& self.binds@[i as int]@ == at@
                    &&& forall|j: int| 0 <= j < i ==> (#[trigger] self.binds@[j])@ != at@
                },
                None => forall|j: int| 0 <= j < self.binds@.len() ==> (#[trigger] self.binds@[j])@ != at@,
            },
    {
        let mut i: usize = 0;
        while i < self.binds.len()
            invariant
                i <= self.binds@.len(),
                forall|j: int| 0 <= j < i ==> (#[trigger] self.binds@[j])@ != at@,
            decreases self.binds@.len() - i,
        {
            if self.binds[i].same(at) {
                return Some(i);
            }
            i += 1;
        }
        None
    }

    /// Whether an address is to be listened on: once is enough.
    pub fn wants(&self, at: &SocketAddr) -> (yes: bool)
        ensures
            yes == !binds_view(self.binds@).contains(at@),
    {
        let found = self.position(at);
        proof {
            let list = binds_view(self.binds@);
            match found {
                Some(i) => {
                    assert(list[i as int] == at@);
                },
                None => {
                    if list.contains(at@) {
                        let j = choose|j: int| 0 <= j < list.len() && list[j] == at@;
                        assert(self.binds@[j]@ == at@);
                    }
                },
            }
        }
        found.is_none()
    }

    /// The node listens on one more address.
    pub fn on_bound(&mut self, local: SocketAddr, fallback: bool)
        ensures
            final(self).binds@ == old(self).binds@.push(local),
            final(self).used_fallback_port == (old(self).used_fallback_port || fallback),
            final(self).relay == old(self).relay,
            final(self).creds == old(self).creds,
    {
        self.binds.push(local);
        if fallback {
            self.used_fallback_port = true;
        }
    }

    /// What to do where an address cannot be listened on. One that stands for all
    /// addresses of the machine gives way to a port that the machine picks, or is
    /// passed over if the port was left open and the node listens somewhere. One
    /// that was asked for is not given up.
    pub fn on_failure(&self, want: &SocketAddr) -> (next: BindFailure)
        ensures
            match next {
                BindFailure::Fallback(at) => runtime::is_unspecified(want@) && port_in(want@) != 0 && at@
                    == with_port(want@, 0),
                BindFailure::Skip => runtime::is_unspecified(want@) && port_in(want@) == 0 && self.binds@.len()
                    > 0,
                BindFailure::Fatal => !runtime::is_unspecified(want@) || (port_in(want@) == 0
                    && self.binds@.len() == 0),
            },
    {
        if bind_failure_is_fatal(want) {
            return BindFailure::Fatal;
        }
        match want {
            SocketAddr::V4 { ip, port } => {
                if *port != 0 {
                    return BindFailure::Fallback(SocketAddr::V4 { ip: *ip, port: 0 });
                }
            },
            SocketAddr::V6 { groups, port, .. } => {
                if *port != 0 {
                    return BindFailure::Fallback(
                        SocketAddr::V6 { groups: *groups, scope: 0, port: 0 },
                    );
                }
            },
        }
        if self.binds.len() > 0 {
            BindFailure::Skip
        } else {
            BindFailure::Fatal
        }
    }

    /// The socket that a frame leaves by: the one bound to `local`, or the first.
    pub fn writer_for(&self, local: &SocketAddr) -> (index: usize)
        requires
            self.binds@.len() > 0,
        ensures
            index < self.binds@.len(),
            binds_view(self.binds@).contains(local@) ==> self.binds@[index as int]@ == local@,
            forall|j: int| 0 <= j < index ==> (#[trigger] self.binds@[j])@ != local@,
            !binds_view(self.binds@).contains(local@) ==> index == 0,
    {
        let found = self.position(local);
        proof {
            let list = binds_view(self.binds@);
            match found {
                Some(i) => {
                    assert(list[i as int] == local@);
                },
                None => {
                    if list.contains(local@) {
                        let j = choose|j: int| 0 <= j < list.len() && list[j] == local@;
                        assert(self.binds@[j]@ == local@);
                    }
                },
            }
        }
        match found {
            Some(i) => i,
            None => 0,
        }
    }
}

/// Counts failures, and says when one is to be logged: once a minute.
pub struct ErrorLog {
    pub total: u64,
    pub last_log_ms: i64,
}

impl ErrorLog {
    /// Nothing has failed.
    pub fn new() -> (log: ErrorLog)
        ensures
            log.total == 0,
            log.last_log_ms == 0,
    {
        ErrorLog { total: 0, last_log_ms: 0 }
    }

    /// Something has failed. Where it is to be logged the count comes back.
    pub fn on_error(&mut self, now_ms: i64) -> (logged: Option<u64>)
        ensures
            final(self).total == crate::session::counter_sum(old(self).total, 1),
            now_ms - old(self).last_log_ms > 60_000 ==> logged == Some(final(self).total)
                && final(self).last_log_ms == now_ms,
            now_ms - old(self).last_log_ms <= 60_000 ==> logged is None && final(self).last_log_ms
                == old(self).last_log_ms,
    {
        self.total = self.total.wrapping_add(1);
        if now_ms as i128 - self.last_log_ms as i128 > 60_000 {
            self.last_log_ms = now_ms;
            Some(self.total)
        } else {
            None
        }
    }
}

/// What is made of a packet. From the relay: an answer to a registration tells where the
/// node is seen, a frame is taken out of its wrapping, and what is no message of the relay
/// is a frame as it is. From anyone else: what looks like a message of the relay is
/// dropped, and the rest is a frame of a peer as it is.
pub proof fn lemma_what_a_packet_is(relay: SocketView, other: SocketView, packet: Seq<u8>, src: u64, dst: u64)
    requires
        relay != other,
    ensures
        classified(relay, Some(relay), relay_udp::relay_packet(src, dst, packet)) == InboundView::RelayFrame(
            packet,
        ),
        classified(other, Some(relay), relay_udp::relay_packet(src, dst, packet)) == InboundView::Ignore,
        relay_udp::parsed_relay(packet) is None ==> classified(relay, Some(relay), packet)
            == InboundView::RelayFrame(packet) && classified(other, Some(relay), packet) == InboundView::Direct(
            packet,
        ) && classified(other, None, packet) == InboundView::Direct(packet),
        relay_udp::parsed_relay(packet) is Some ==> classified(other, Some(relay), packet) == InboundView::Ignore
            && classified(other, None, packet) == InboundView::Ignore,
        relay_udp::parsed_relay(packet) matches Some(RelayView::Ack { ip, port }) ==> classified(
            relay,
            Some(relay),
            packet,
        ) == InboundView::ObservedEndpoint(endpoint_text(ip, port)),
        relay_udp::parsed_relay(packet) matches Some(RelayView::Register { .. }) ==> classified(
            relay,
            Some(relay),
            packet,
        ) == InboundView::Ignore,
        relay_udp::parsed_relay(packet) matches Some(RelayView::Error { .. }) ==> classified(
            relay,
            Some(relay),
            packet,
        ) == InboundView::Ignore,
{
    relay_udp::lemma_relay_round_trip(src, dst, packet);
}

/// The address that the relay tells can be read: an IPv4 address as it is, and an address
/// with colons in brackets, which are put there only once.
pub proof fn lemma_endpoint_can_be_read(ip: u32, text: Seq<char>, port: u16)
    ensures
        addr::socket_value(endpoint_text(addr::ipv4_text(ip), port)) == Some(SocketView::V4 { ip, port }),
        text.contains(':') && text[0] != '[' ==> endpoint_text(text, port) == seq!['['] + text + seq![']', ':']
            + addr::decimal(port as nat),
        !text.contains(':') || (text.len() > 0 && text[0] == '[') ==> endpoint_text(text, port) == text + seq![':']
            + addr::decimal(port as nat),
{
    reveal_strlit("[");
    reveal_strlit("]:");
    reveal_strlit(":");
    assert("["@ =~= seq!['[']);
    assert("]:"@ =~= seq![']', ':']);
    assert(":"@ =~= seq![':']);
    let v4 = addr::ipv4_text(ip);
    assert(!v4.contains(':')) by {
        assert forall|j: int| 0 <= j < v4.len() implies v4[j] != ':' by {
            addr::lemma_ipv4_chars(ip, j);
        }
    }
    addr::lemma_socket_v4_round_trip(ip, port);
    assert(endpoint_text(v4, port) =~= addr::socket_v4_text(ip, port));
}

/// Another port leaves the address what it is.
pub proof fn lemma_same_address_other_port(at: SocketView, port: u16)
    ensures
        port_in(with_port(at, port)) == port,
        at matches SocketView::V4 { ip, port: p } ==> port_in(at) == p && with_port(at, port) == (SocketView::V4 {
            ip,
            port,
        }),
        at matches SocketView::V6 { groups, scope, port: p } ==> port_in(at) == p && with_port(at, port) == (
        SocketView::V6 { groups, scope: 0, port }),
{
}

} // verus!
