//! The SOCKS5 side of the node: what a client says, and what it is told. There is
//! no authentication, and targets are inside the virtual networks.

use vstd::prelude::*;
use vstd::slice::slice_subrange;

use crate::addr;
use crate::addr::{parse_socket, read_number, SocketAddr, SocketView};
use crate::endec::append_bytes;
use crate::models::NetId;
use crate::text::{chars_of, join, owned};

verus! {

/// Where the node listens for clients: an address, or a port on this machine.
pub open spec fn listen_value(text: Seq<char>) -> Option<SocketView> {
    match addr::socket_value(text) {
        Some(at) => Some(at),
        None => match addr::signed_number(text, 65535) {
            Some(port) => Some(SocketView::V4 { ip: 0x7f00_0001, port: port as u16 }),
            None => None,
        },
    }
}

/// Reads where the node listens for clients.
pub fn parse_listen(listen: &str) -> (at: Result<SocketAddr, String>)
    ensures
        match at {
            Ok(a) => listen_value(listen@) == Some(a@),
            Err(e) => listen_value(listen@) is None && e@ == "无效的 SOCKS 监听地址 "@ + listen@,
        },
{
    if let Some(at) = parse_socket(listen) {
        return Ok(at);
    }
    let chars = chars_of(listen);
    assert(chars@.subrange(0, chars@.len() as int) =~= listen@);
    match read_number(chars.as_slice(), 0, chars.len(), 65535) {
        Some(port) => Ok(SocketAddr::V4 { ip: 0x7f00_0001, port: port as u16 }),
        None => Err(join("无效的 SOCKS 监听地址 ", listen)),
    }
}

/// The version that is spoken.
pub const SOCKS_VERSION: u8 = 5;

/// The answer to a greeting: no authentication.
pub fn greeting_reply() -> (reply: Vec<u8>)
    ensures
        reply@ == seq![SOCKS_VERSION, 0u8],
{
    let mut reply: Vec<u8> = Vec::new();
    reply.push(SOCKS_VERSION);
    reply.push(0);
    assert(reply@ =~= seq![SOCKS_VERSION, 0u8]);
    reply
}

/// How many methods follow the first two bytes of a greeting.
pub fn method_count(head: &[u8; 2]) -> (count: Result<usize, String>)
    ensures
        match count {
            Ok(n) => head@[0] == SOCKS_VERSION && n == head@[1],
            Err(e) => head@[0] != SOCKS_VERSION && e@ == "not socks5"@,
        },
{
    if head[0] != SOCKS_VERSION {
        return Err(owned("not socks5"));
    }
    Ok(head[1] as usize)
}

/// How the target of a request is written.
#[derive(Debug, Clone, Copy, PartialEq, Eq, Structural)]
pub enum TargetForm {
    /// Four bytes.
    Address,
    /// A name behind its length.
    Name,
}

/// How the target of a request is written, by the last of its first four bytes.
pub fn target_form(req: &[u8; 4]) -> (form: Result<TargetForm, String>)
    ensures
        match form {
            Ok(f) => (f is Address && req@[3] == 1) || (f is Name && req@[3] == 3),
            Err(e) => req@[3] != 1 && req@[3] != 3 && e@ == (if req@[3] == 4 {
                "IPv6 targets unsupported"@
            } else {
                "bad atyp"@
            }),
        },
{
    if req[3] == 1 {
        Ok(TargetForm::Address)
    } else if req[3] == 3 {
        Ok(TargetForm::Name)
    } else if req[3] == 4 {
        Err(owned("IPv6 targets unsupported"))
    } else {
        Err(owned("bad atyp"))
    }
}

/// What a request asks for.
#[derive(Debug, Clone, Copy, PartialEq, Eq, Structural)]
pub enum SocksCommand {
    Connect,
    UdpAssociate,
    Unsupported,
}

/// What a request asks for, by the second of its first four bytes.
pub fn command_of(req: &[u8; 4]) -> (command: SocksCommand)
    ensures
        command == (if req@[1] == 1 {
            SocksCommand::Connect
        } else if req@[1] == 3 {
            SocksCommand::UdpAssociate
        } else {
            SocksCommand::Unsupported
        }),
{
    if req[1] == 1 {
        SocksCommand::Connect
    } else if req[1] == 3 {
        SocksCommand::UdpAssociate
    } else {
        SocksCommand::Unsupported
    }
}

/// What became of a request.
pub const REPLY_OK: u8 = 0;

pub const REPLY_HOST_UNREACHABLE: u8 = 4;

pub const REPLY_REFUSED: u8 = 5;

pub const REPLY_UNSUPPORTED: u8 = 7;

/// An address and a port, the highest byte first.
pub open spec fn address_bytes(ip: u32, port: u16) -> Seq<u8> {
    seq![
        (ip / 0x100_0000) as u8,
        (ip / 0x1_0000 % 0x100) as u8,
        (ip / 0x100 % 0x100) as u8,
        (ip % 0x100) as u8,
        (port / 0x100) as u8,
        (port % 0x100) as u8,
    ]
}

fn push_address(out: &mut Vec<u8>, ip: u32, port: u16)
    ensures
        final(out)@ == old(out)@ + address_bytes(ip, port),
{
    out.push((ip / 0x100_0000) as u8);
    out.push((ip / 0x1_0000 % 0x100) as u8);
    out.push((ip / 0x100 % 0x100) as u8);
    out.push((ip % 0x100) as u8);
    out.push((port / 0x100) as u8);
    out.push((port % 0x100) as u8);
    assert(out@ =~= old(out)@ + address_bytes(ip, port));
}

/// The answer to a request.
pub fn reply(code: u8, ip: u32, port: u16) -> (bytes: Vec<u8>)
    ensures
        bytes@ == seq![SOCKS_VERSION, code, 0u8, 1u8] + address_bytes(ip, port),
{
    let mut bytes: Vec<u8> = Vec::new();
    bytes.push(SOCKS_VERSION);
    bytes.push(code);
    bytes.push(0);
    bytes.push(1);
    assert(bytes@ =~= seq![SOCKS_VERSION, code, 0u8, 1u8]);
    push_address(&mut bytes, ip, port);
    bytes
}

/// Four bytes as an address, the highest first.
pub open spec fn ip_of(b: Seq<u8>) -> u32 {
    (b[0] * 0x100_0000 + b[1] * 0x1_0000 + b[2] * 0x100 + b[3]) as u32
}

/// Two bytes as a port, the highest first.
pub open spec fn port_of(b: Seq<u8>) -> u16 {
    (b[0] * 0x100 + b[1]) as u16
}

/// Four bytes as an address.
pub fn read_ip(b: &[u8]) -> (ip: u32)
    requires
        b@.len() == 4,
    ensures
        ip == ip_of(b@),
{
    b[0] as u32 * 0x100_0000 + b[1] as u32 * 0x1_0000 + b[2] as u32 * 0x100 + b[3] as u32
}

/// Two bytes as a port.
pub fn read_port(b: &[u8]) -> (port: u16)
    requires
        b@.len() == 2,
    ensures
        port == port_of(b@),
{
    b[0] as u16 * 0x100 + b[1] as u16
}

/// Target and content of a datagram from a client. Only targets that are written
/// as an address are taken.
pub open spec fn parsed_udp(packet: Seq<u8>) -> Option<(u32, u16, Seq<u8>)> {
    if packet.len() < 10 || packet[0] != 0 || packet[1] != 0 || packet[2] != 0 || packet[3] != 1 {
        None
    } else {
        Some((ip_of(packet.subrange(4, 8)), port_of(packet.subrange(8, 10)), packet.skip(10)))
    }
}

/// Reads a datagram from a client.
pub fn parse_socks_udp_header<'a>(packet: &'a [u8]) -> (parts: Option<(u32, u16, &'a [u8])>)
    ensures
        match parts {
            Some((ip, port, data)) => parsed_udp(packet@) == Some((ip, port, data@)),
            None => parsed_udp(packet@) is None,
        },
{
    if packet.len() < 10 || packet[0] != 0 || packet[1] != 0 || packet[2] != 0 || packet[3] != 1 {
        return None;
    }
    let ip = read_ip(slice_subrange(packet, 4, 8));
    let port = read_port(slice_subrange(packet, 8, 10));
    let data = slice_subrange(packet, 10, packet.len());
    assert(data@ =~= packet@.skip(10));
    Some((ip, port, data))
}

/// A datagram for a client.
pub open spec fn udp_packet(ip: u32, port: u16, data: Seq<u8>) -> Seq<u8> {
    seq![0u8, 0u8, 0u8, 1u8] + address_bytes(ip, port) + data
}

/// A datagram for a client from a source in words; nothing if the source is no
/// IPv4 address.
pub fn wrap_datagram(source: &str, data: &[u8]) -> (packet: Option<Vec<u8>>)
    ensures
        match packet {
            Some(p) => addr::socket_value(source@) matches Some(SocketView::V4 { ip, port }) && p@
                == udp_packet(ip, port, data@),
            None => !(addr::socket_value(source@) matches Some(SocketView::V4 { .. })),
        },
{
    match parse_socket(source) {
        Some(SocketAddr::V4 { ip, port }) => {
            let mut out: Vec<u8> = Vec::new();
            out.push(0);
            out.push(0);
            out.push(0);
            out.push(1);
            assert(out@ =~= seq![0u8, 0u8, 0u8, 1u8]);
            push_address(&mut out, ip, port);
            append_bytes(&mut out, data);
            Some(out)
        },
        _ => None,
    }
}

/// A datagram is read as it was written.
pub proof fn lemma_udp_round_trip(ip: u32, port: u16, data: Seq<u8>)
    ensures
        parsed_udp(udp_packet(ip, port, data)) == Some((ip, port, data)),
{
    let p = udp_packet(ip, port, data);
    let a = address_bytes(ip, port);
    assert(p.subrange(4, 8) =~= a.subrange(0, 4));
    assert(p.subrange(8, 10) =~= a.subrange(4, 6));
    assert(p.skip(10) =~= data);
    assert((ip / 0x100_0000) as u8 == ip / 0x100_0000);
    assert((ip / 0x1_0000 % 0x100) as u8 == ip / 0x1_0000 % 0x100);
    assert((ip / 0x100 % 0x100) as u8 == ip / 0x100 % 0x100);
    assert((ip % 0x100) as u8 == ip % 0x100);
    assert((port / 0x100) as u8 == port / 0x100);
    assert((port % 0x100) as u8 == port % 0x100);
}

/// A flow of datagrams that a client uses.
#[derive(Debug, Clone, Copy)]
pub struct ClientUse {
    pub network: NetId,
    pub device: u64,
    pub flow_id: u32,
}

/// What one client sends datagrams through: a flow with each peer that it has
/// sent to, in the network that the target belongs to.
pub struct UdpAssociation {
    /// Where answers go: the first address that the client sent from.
    pub client: Option<SocketAddr>,
    pub flows: Vec<ClientUse>,
}

/// The flow with a peer in a network.
pub open spec fn flow_with(list: Seq<ClientUse>, network: NetId, device: u64) -> Option<u32>
    decreases list.len(),
{
    if list.len() == 0 {
        None
    } else if list[0].network == network && list[0].device == device {
        Some(list[0].flow_id)
    } else {
        flow_with(list.skip(1), network, device)
    }
}

/// What a new entry changes.
proof fn lemma_flow_with_push(list: Seq<ClientUse>, new: ClientUse, network: NetId, device: u64)
    ensures
        flow_with(list.push(new), network, device) == (if flow_with(list, network, device) is Some {
            flow_with(list, network, device)
        } else if new.network == network && new.device == device {
            Some(new.flow_id)
        } else {
            None
        }),
    decreases list.len(),
{
    if list.len() == 0 {
        assert(list.push(new).skip(1) =~= Seq::empty());
        assert(flow_with(list.push(new).skip(1), network, device) is None);
    } else {
        assert(list.push(new).skip(1) =~= list.skip(1).push(new));
        lemma_flow_with_push(list.skip(1), new, network, device);
    }
}

impl UdpAssociation {
    /// The client has sent nothing yet.
    pub fn new() -> (a: UdpAssociation)
        ensures
            a.client is None,
            a.flows@ == Seq::<ClientUse>::empty(),
    {
        UdpAssociation { client: None, flows: Vec::new() }
    }

    /// Takes in a datagram from the client. The first sender is the client.
    pub fn on_datagram<'a>(&mut self, from: &SocketAddr, packet: &'a [u8]) -> (parts: Option<
        (u32, u16, &'a [u8]),
    >)
        ensures
            final(self).flows == old(self).flows,
            final(self).client == (match old(self).client {
                Some(c) => Some(c),
                None => Some(*from),
            }),
            match parts {
                Some((ip, port, data)) => parsed_udp(packet@) == Some((ip, port, data@)),
                None => parsed_udp(packet@) is None,
            },
    {
        if self.client.is_none() {
            self.client = Some(*from);
        }
        parse_socks_udp_header(packet)
    }

    /// The flow with a peer in a network.
    pub fn flow_for(&self, network: &NetId, device: u64) -> (flow: Option<u32>)
        ensures
            flow == flow_with(self.flows@, *network, device),
    {
        let mut i: usize = 0;
        assert(self.flows@.skip(0) =~= self.flows@);
        while i < self.flows.len()
            invariant
                i <= self.flows@.len(),
                flow_with(self.flows@.skip(i as int), *network, device) == flow_with(
                    self.flows@,
                    *network,
                    device,
                ),
            decreases self.flows@.len() - i,
        {
            assert(self.flows@.skip(i as int)[0] == self.flows@[i as int]);
            assert(self.flows@.skip(i as int).skip(1) =~= self.flows@.skip(i + 1));
            if self.flows[i].network.same(network) && self.flows[i].device == device {
                return Some(self.flows[i].flow_id);
            }
            i += 1;
        }
        None
    }

    /// Takes note of a new flow.
    pub fn add_flow(&mut self, network: &NetId, device: u64, flow_id: u32)
        requires
            flow_with(old(self).flows@, *network, device) is None,
        ensures
            final(self).client == old(self).client,
            final(self).flows@ == old(self).flows@.push(
                ClientUse { network: *network, device, flow_id },
            ),
            forall|n: NetId, d: u64| #[trigger]
                flow_with(final(self).flows@, n, d) == (if n == *network && d == device {
                    Some(flow_id)
                } else {
                    flow_with(old(self).flows@, n, d)
                }),
    {
        let new = ClientUse { network: *network, device, flow_id };
        let ghost before = self.flows@;
        self.flows.push(new);
        assert forall|n: NetId, d: u64| #[trigger] flow_with(self.flows@, n, d) == (if n == *network && d
            == device {
            Some(flow_id)
        } else {
            flow_with(before, n, d)
        }) by {
            lemma_flow_with_push(before, new, n, d);
        }
    }
}

/// Addresses and ports go the way they are written: the first octet first, and the high
/// byte of the port first. They read back as they were.
pub proof fn lemma_first_octet_first(ip: u32, port: u16)
    ensures
        ({
            let b = address_bytes(ip, port);
            &&& b.len() == 6
            &&& b[0] == addr::octet_of(ip, 0) && b[1] == addr::octet_of(ip, 1) && b[2] == addr::octet_of(ip, 2)
                && b[3] == addr::octet_of(ip, 3)
            &&& port == b[4] * 256 + b[5]
            &&& ip_of(b.subrange(0, 4)) == ip
            &&& port_of(b.subrange(4, 6)) == port
        }),
{
    let b = address_bytes(ip, port);
    assert((ip / 0x100_0000) as u8 == ip / 0x100_0000);
    assert((ip / 0x1_0000 % 0x100) as u8 == ip / 0x1_0000 % 0x100);
    assert((ip / 0x100 % 0x100) as u8 == ip / 0x100 % 0x100);
    assert((ip % 0x100) as u8 == ip % 0x100);
    assert((port / 0x100) as u8 == port / 0x100);
    assert((port % 0x100) as u8 == port % 0x100);
    let head = b.subrange(0, 4);
    assert(head[0] == b[0] && head[1] == b[1] && head[2] == b[2] && head[3] == b[3]);
    let tail = b.subrange(4, 6);
    assert(tail[0] == b[4] && tail[1] == b[5]);
}

/// A datagram of a client is understood if and only if it is whole and names an IPv4
/// address. Written again, it is the same.
pub proof fn lemma_which_datagrams_are_understood(packet: Seq<u8>)
    ensures
        parsed_udp(packet) is Some <==> packet.len() >= 10 && packet[0] == 0 && packet[1] == 0 && packet[2] == 0
            && packet[3] == 1,
        parsed_udp(packet) matches Some((ip, port, data)) ==> udp_packet(ip, port, data) == packet,
{
    if let Some((ip, port, data)) = parsed_udp(packet) {
        let a = packet.subrange(4, 8);
        let p = packet.subrange(8, 10);
        assert(ip == a[0] * 0x100_0000 + a[1] * 0x1_0000 + a[2] * 0x100 + a[3]);
        assert(port == p[0] * 0x100 + p[1]);
        lemma_first_octet_first(ip, port);
        addr::lemma_dotted_form(ip, a[0] as nat, a[1] as nat, a[2] as nat, a[3] as nat);
        let b = address_bytes(ip, port);
        assert(b[0] == a[0] && b[1] == a[1] && b[2] == a[2] && b[3] == a[3]);
        assert(b[4] == p[0] && b[5] == p[1]);
        assert(udp_packet(ip, port, data) =~= packet);
    }
}

/// The node listens for clients where it is told to; a bare port is one of this machine
/// alone.
pub proof fn lemma_where_clients_are_listened_for(ip: u32, port: u16)
    ensures
        listen_value(addr::socket_v4_text(ip, port)) == Some(SocketView::V4 { ip, port }),
        listen_value(addr::decimal(port as nat)) == Some(SocketView::V4 { ip: 0x7f00_0001, port }),
{
    addr::lemma_socket_v4_round_trip(ip, port);
    addr::lemma_decimal_value(port as nat);
    let s = addr::decimal(port as nat);
    assert(addr::is_digit(s[0]));
    assert forall|j: int| 0 <= j < s.len() implies s[j] != ':' by {
        assert(addr::is_digit(s[j]));
    }
    addr::lemma_first_of(s, ':', s.len() as int);
}

/// A client has one flow with a peer in a network: the first that was noted. In another
/// network, or with another peer, it has another.
pub proof fn lemma_first_flow_counts(list: Seq<ClientUse>, network: NetId, device: u64, i: int)
    requires
        0 <= i <= list.len(),
        forall|j: int| 0 <= j < i ==> !((#[trigger] list[j]).network == network && list[j].device == device),
    ensures
        i == list.len() ==> flow_with(list, network, device) is None,
        i < list.len() && list[i].network == network && list[i].device == device ==> flow_with(
            list,
            network,
            device,
        ) == Some(list[i].flow_id),
    decreases i,
{
    if i > 0 {
        assert(!(list[0].network == network && list[0].device == device));
        assert forall|j: int| 0 <= j < i - 1 implies !((#[trigger] list.skip(1)[j]).network == network
            && list.skip(1)[j].device == device) by {
            assert(list.skip(1)[j] == list[j + 1]);
        }
        lemma_first_flow_counts(list.skip(1), network, device, i - 1);
    }
}

/// A number is a port only if it is no larger than ports are.
pub proof fn lemma_large_numbers_are_no_ports(n: nat)
    requires
        n > 65535,
    ensures
        listen_value(addr::decimal(n)) is None,
{
    addr::lemma_numbers_are_read(n, 65535);
    addr::lemma_decimal_value(n);
    let s = addr::decimal(n);
    assert(addr::is_digit(s[0]));
    assert forall|j: int| 0 <= j < s.len() implies s[j] != ':' by {
        assert(addr::is_digit(s[j]));
    }
    addr::lemma_first_of(s, ':', s.len() as int);
}

} // verus!
