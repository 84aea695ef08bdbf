//! The control protocol of the UDP relay.
//!
//! ```text
//! [magic u8 = 0x0B][version u8 = 1][command u8][...]
//! REGISTER: [device u64 LE][nonce 16][HMAC-SHA256 32]
//! RELAY:    [source u64][destination u64][frame]
//! ACK:      [length u8][ip][port u16 LE]
//! ERROR:    [length u8][message, at most 200 bytes]
//! ```
//!
//! The relay key of a device is the SHA-256 digest of its token. The tag of a
//! REGISTER packet covers a domain separator and all 27 bytes before the tag.

use vstd::prelude::*;
use vstd::utf8::{decode_utf8, encode_utf8, valid_utf8};

use crate::crypto::primitives::{hmac_sha256, random_bytes, sha256};
use crate::endec::{append_bytes, read_u16_le, read_u64_le, to_array, write_u16_le, write_u64_le};
use crate::protocol::flow::length_as_byte;
use crate::text::{head_of, owned, text_lossy, text_of_utf8};
use crate::crypto::primitives;
use crate::endec;
use crate::protocol::flow;
use crate::text;

verus! {

pub const RELAY_MAGIC: u8 = 0x0B;

pub const RELAY_VERSION: u8 = 1;

pub const CMD_REGISTER: u8 = 1;

pub const CMD_RELAY: u8 = 2;

pub const CMD_ACK: u8 = 3;

pub const CMD_ERROR: u8 = 4;

/// What the message under a REGISTER tag starts with.
pub const REGISTER_DOMAIN: &'static str = "starskiff-relay-register";

/// Device, nonce and tag.
pub const REGISTER_BODY_SIZE: usize = 8 + 16 + 32;

pub const REGISTER_PACKET_SIZE: usize = 3 + REGISTER_BODY_SIZE;

pub const ERROR_MSG_MAX: usize = 200;

/// Magic, version and command.
pub open spec fn relay_header(cmd: u8) -> Seq<u8> {
    seq![RELAY_MAGIC, RELAY_VERSION, cmd]
}

/// What a REGISTER tag covers, after the domain separator.
pub open spec fn register_claim(device_id: u64, nonce: Seq<u8>) -> Seq<u8> {
    relay_header(CMD_REGISTER) + endec::le_bytes(device_id as nat, 8) + nonce
}

/// The tag over a claim.
pub open spec fn register_tag(key: Seq<u8>, claim: Seq<u8>) -> Seq<u8> {
    primitives::hmac_tag(key, encode_utf8(REGISTER_DOMAIN@) + claim)
}

/// A REGISTER packet.
pub open spec fn register_packet(device_id: u64, nonce: Seq<u8>, key: Seq<u8>) -> Seq<u8> {
    register_claim(device_id, nonce) + register_tag(key, register_claim(device_id, nonce))
}

fn register_mac(key: &[u8; 32], claim: &[u8]) -> (tag: [u8; 32])
    ensures
        tag@ == register_tag(key@, claim@),
{
    let mut msg: Vec<u8> = Vec::new();
    append_bytes(&mut msg, REGISTER_DOMAIN.as_bytes());
    append_bytes(&mut msg, claim);
    assert(msg@ =~= encode_utf8(REGISTER_DOMAIN@) + claim@);
    hmac_sha256(key.as_slice(), msg.as_slice())
}

/// Compares two tags without stopping at the first difference.
fn ct_eq(a: &[u8; 32], b: &[u8; 32]) -> (equal: bool)
    ensures
        equal == (a@ == b@),
{
    let mut diff: u8 = 0;
    let mut i: usize = 0;
    assert(a@.take(0) =~= b@.take(0));
    while i < 32
        invariant
            i <= 32,
            diff == 0 <==> a@.take(i as int) == b@.take(i as int),
        decreases 32 - i,
    {
        let x = a[i];
        let y = b[i];
        let ghost d = diff;
        diff = diff | (x ^ y);
        proof {
            assert((d | (x ^ y)) == 0 <==> (d == 0 && x == y)) by (bit_vector);
            assert(a@.take(i + 1) =~= a@.take(i as int).push(x));
            assert(b@.take(i + 1) =~= b@.take(i as int).push(y));
            if a@.take(i + 1) == b@.take(i + 1) {
                assert(a@.take(i as int) =~= a@.take(i + 1).take(i as int));
                assert(b@.take(i as int) =~= b@.take(i + 1).take(i as int));
                assert(a@.take(i + 1)[i as int] == x);
                assert(b@.take(i + 1)[i as int] == y);
            }
        }
        i += 1;
    }
    assert(a@.take(32) =~= a@);
    assert(b@.take(32) =~= b@);
    diff == 0
}

/// Writes a REGISTER packet with this nonce.
pub fn build_register_with(device_id: u64, nonce: &[u8; 16], relay_key: &[u8; 32]) -> (packet: [u8;
    REGISTER_PACKET_SIZE])
    ensures
        packet@ == register_packet(device_id, nonce@, relay_key@),
{
    let mut claim: Vec<u8> = Vec::new();
    claim.push(RELAY_MAGIC);
    claim.push(RELAY_VERSION);
    claim.push(CMD_REGISTER);
    write_u64_le(&mut claim, device_id);
    append_bytes(&mut claim, nonce.as_slice());
    proof {
        endec::lemma_byte_spans();
        endec::lemma_le_round_trip(device_id as nat, 8);
    }
    assert(claim@ =~= register_claim(device_id, nonce@));
    let tag = register_mac(relay_key, claim.as_slice());
    append_bytes(&mut claim, tag.as_slice());
    to_array(claim.as_slice())
}

/// Writes a REGISTER packet with a fresh nonce. Which nonce it is, is left to
/// chance.
pub fn build_register(device_id: u64, relay_key: &[u8; 32]) -> (packet: [u8; REGISTER_PACKET_SIZE])
    ensures
        exists|nonce: Seq<u8>|
            nonce.len() == 16 && packet@ == #[trigger] register_packet(
                device_id,
                nonce,
                relay_key@,
            ),
{
    let nonce: [u8; 16] = random_bytes::<16>();
    build_register_with(device_id, &nonce, relay_key)
}

/// Whether a packet is a REGISTER packet with a right tag.
pub open spec fn register_is_authentic(packet: Seq<u8>, key: Seq<u8>) -> bool {
    &&& packet.len() == REGISTER_PACKET_SIZE
    &&& packet.take(3) == relay_header(CMD_REGISTER)
    &&& packet.skip(27) == register_tag(key, packet.take(27))
}

/// Checks a REGISTER packet.
pub fn verify_register(packet: &[u8], key: &[u8; 32]) -> (authentic: bool)
    ensures
        authentic == register_is_authentic(packet@, key@),
{
    if packet.len() != REGISTER_PACKET_SIZE {
        return false;
    }
    proof {
        let h = packet@.take(3);
        assert(h[0] == packet@[0] && h[1] == packet@[1] && h[2] == packet@[2]);
        if packet@[0] == RELAY_MAGIC && packet@[1] == RELAY_VERSION && packet@[2] == CMD_REGISTER {
            assert(h =~= relay_header(CMD_REGISTER));
        }
    }
    if packet[0] != RELAY_MAGIC || packet[1] != RELAY_VERSION || packet[2] != CMD_REGISTER {
        return false;
    }
    let claim = vstd::slice::slice_subrange(packet, 0, 27);
    let tail = vstd::slice::slice_subrange(packet, 27, 59);
    assert(claim@ =~= packet@.take(27));
    assert(tail@ =~= packet@.skip(27));
    let expected = register_mac(key, claim);
    let provided: [u8; 32] = to_array(tail);
    ct_eq(&expected, &provided)
}

/// Whether the body of a REGISTER message that arrived over TCP has a right tag
/// for `device_id`.
pub open spec fn register_body_is_authentic(body: Seq<u8>, device_id: u64, key: Seq<u8>) -> bool {
    &&& body.len() == REGISTER_BODY_SIZE
    &&& body.skip(24) == register_tag(key, register_claim(device_id, body.subrange(8, 24)))
}

/// Checks the body of a REGISTER message that arrived over TCP.
pub fn verify_register_body(body: &[u8], device_id: u64, key: &[u8; 32]) -> (authentic: bool)
    ensures
        authentic == register_body_is_authentic(body@, device_id, key@),
{
    if body.len() != REGISTER_BODY_SIZE {
        return false;
    }
    let mut claim: Vec<u8> = Vec::new();
    claim.push(RELAY_MAGIC);
    claim.push(RELAY_VERSION);
    claim.push(CMD_REGISTER);
    write_u64_le(&mut claim, device_id);
    append_bytes(&mut claim, vstd::slice::slice_subrange(body, 8, 24));
    assert(claim@ =~= register_claim(device_id, body@.subrange(8, 24)));
    let expected = register_mac(key, claim.as_slice());
    let tail = vstd::slice::slice_subrange(body, 24, 56);
    assert(tail@ =~= body@.skip(24));
    let provided: [u8; 32] = to_array(tail);
    ct_eq(&expected, &provided)
}

/// The nonce of a REGISTER packet.
pub fn register_nonce(packet: &[u8]) -> (nonce: Option<[u8; 16]>)
    ensures
        nonce is Some == (packet@.len() == REGISTER_PACKET_SIZE),
        nonce matches Some(n) ==> n@ == packet@.subrange(11, 27),
{
    if packet.len() != REGISTER_PACKET_SIZE {
        return None;
    }
    Some(to_array(vstd::slice::slice_subrange(packet, 11, 27)))
}

/// The nonce in the body of a REGISTER message that arrived over TCP.
pub fn register_body_nonce(body: &[u8]) -> (nonce: Option<[u8; 16]>)
    ensures
        nonce is Some == (body@.len() == REGISTER_BODY_SIZE),
        nonce matches Some(n) ==> n@ == body@.subrange(8, 24),
{
    if body.len() != REGISTER_BODY_SIZE {
        return None;
    }
    Some(to_array(vstd::slice::slice_subrange(body, 8, 24)))
}

/// A REGISTER packet passes the check under the key that made it, whole over
/// UDP and without its header over TCP, and both ways the nonce is found.
pub proof fn lemma_register_is_accepted(packet: Seq<u8>, device_id: u64, nonce: Seq<u8>, key: Seq<u8>)
    requires
        nonce.len() == 16,
        packet == register_packet(device_id, nonce, key),
        packet.len() == REGISTER_PACKET_SIZE,
    ensures
        register_is_authentic(packet, key),
        register_body_is_authentic(packet.skip(3), device_id, key),
        packet.subrange(11, 27) == nonce,
        packet.skip(3).subrange(8, 24) == nonce,
        parsed_relay(packet) == Some(RelayView::Register { device_id }),
{
    endec::lemma_byte_spans();
    endec::lemma_le_round_trip(device_id as nat, 8);
    let claim = register_claim(device_id, nonce);
    let tag = register_tag(key, claim);
    assert(packet.take(27) =~= claim);
    assert(packet.skip(27) =~= tag);
    assert(packet.take(3) =~= relay_header(CMD_REGISTER));
    assert(packet[0] == RELAY_MAGIC && packet[1] == RELAY_VERSION && packet[2] == CMD_REGISTER);
    assert(packet.subrange(11, 27) =~= nonce);
    assert(packet.skip(3).subrange(8, 24) =~= nonce);
    assert(packet.skip(3).skip(24) =~= tag);
    assert(packet.subrange(3, 11) =~= endec::le_bytes(device_id as nat, 8));
}

/// A RELAY packet.
pub open spec fn relay_packet(src: u64, dst: u64, frame: Seq<u8>) -> Seq<u8> {
    relay_header(CMD_RELAY) + endec::le_bytes(src as nat, 8) + endec::le_bytes(dst as nat, 8) + frame
}

/// Wraps a frame for the relay, unchanged.
pub fn build_relay(src_id: u64, dst_id: u64, frame: &[u8]) -> (out: Vec<u8>)
    ensures
        out@ == relay_packet(src_id, dst_id, frame@),
{
    let mut out: Vec<u8> = Vec::new();
    out.push(RELAY_MAGIC);
    out.push(RELAY_VERSION);
    out.push(CMD_RELAY);
    write_u64_le(&mut out, src_id);
    write_u64_le(&mut out, dst_id);
    append_bytes(&mut out, frame);
    assert(out@ =~= relay_packet(src_id, dst_id, frame@));
    out
}

/// The body of an ACK.
pub open spec fn ack_payload(ip: Seq<char>, port: u16) -> Seq<u8> {
    seq![flow::length_byte(encode_utf8(ip).len())] + encode_utf8(ip) + endec::le_bytes(port as nat, 2)
}

/// Writes the body of an ACK, which is the same over UDP and TCP.
pub fn build_ack_payload(ip: &str, port: u16) -> (out: Vec<u8>)
    ensures
        out@ == ack_payload(ip@, port),
{
    let bytes = ip.as_bytes();
    let mut out: Vec<u8> = Vec::new();
    out.push(length_as_byte(bytes.len()));
    append_bytes(&mut out, bytes);
    write_u16_le(&mut out, port);
    assert(out@ =~= ack_payload(ip@, port));
    out
}

/// Writes an ACK packet.
pub fn build_ack_packet(ip: &str, port: u16) -> (out: Vec<u8>)
    ensures
        out@ == relay_header(CMD_ACK) + ack_payload(ip@, port),
{
    let mut out: Vec<u8> = Vec::new();
    out.push(RELAY_MAGIC);
    out.push(RELAY_VERSION);
    out.push(CMD_ACK);
    let payload = build_ack_payload(ip, port);
    append_bytes(&mut out, payload.as_slice());
    assert(out@ =~= relay_header(CMD_ACK) + ack_payload(ip@, port));
    out
}

/// An ERROR packet.
pub open spec fn error_packet(msg: Seq<char>) -> Seq<u8> {
    relay_header(CMD_ERROR).push(flow::clipped(msg, ERROR_MSG_MAX as nat).len() as u8) + flow::clipped(
        msg,
        ERROR_MSG_MAX as nat,
    )
}

/// Writes an ERROR packet, with at most 200 bytes of the message. A long message is
/// cut between two characters.
pub fn build_error_packet(msg: &str) -> (out: Vec<u8>)
    ensures
        out@ == error_packet(msg@),
        out@.len() <= 4 + ERROR_MSG_MAX,
        out@[3] == out@.len() - 4,
        out@.skip(4) == encode_utf8(msg@.take(text::fitting(msg@, ERROR_MSG_MAX as int))),
        valid_utf8(out@.skip(4)),
        out@.skip(4).is_prefix_of(encode_utf8(msg@)),
        encode_utf8(msg@).len() <= ERROR_MSG_MAX ==> out@.skip(4) == encode_utf8(msg@),
        vstd::utf8::is_ascii_chars(msg@) && msg@.len() >= ERROR_MSG_MAX ==> out@.len() == 4
            + ERROR_MSG_MAX,
{
    let head = head_of(msg, ERROR_MSG_MAX as u32);
    proof {
        text::lemma_fitted(msg@, ERROR_MSG_MAX as int);
    }
    let bytes = head.as_str().as_bytes();
    let mut out: Vec<u8> = Vec::new();
    out.push(RELAY_MAGIC);
    out.push(RELAY_VERSION);
    out.push(CMD_ERROR);
    out.push(bytes.len() as u8);
    append_bytes(&mut out, bytes);
    assert(out@ =~= error_packet(msg@));
    assert(out@.skip(4) =~= bytes@);
    out
}

/// A control packet.
#[derive(Debug)]
pub enum RelayPacket<'a> {
    Register { device_id: u64 },
    Relay { src: u64, dst: u64, frame: &'a [u8] },
    Ack { ip: String, port: u16 },
    Error { msg: String },
}

/// A control packet, as values.
pub ghost enum RelayView {
    Register { device_id: u64 },
    Relay { src: u64, dst: u64, frame: Seq<u8> },
    Ack { ip: Seq<char>, port: u16 },
    Error { msg: Seq<char> },
}

impl<'a> View for RelayPacket<'a> {
    type V = RelayView;

    open spec fn view(&self) -> RelayView {
        match *self {
            RelayPacket::Register { device_id } => RelayView::Register { device_id },
            RelayPacket::Relay { src, dst, frame } => RelayView::Relay { src, dst, frame: frame@ },
            RelayPacket::Ack { ip, port } => RelayView::Ack { ip: ip@, port },
            RelayPacket::Error { msg } => RelayView::Error { msg: msg@ },
        }
    }
}

/// The control packet that these bytes are.
pub open spec fn parsed_relay(packet: Seq<u8>) -> Option<RelayView> {
    if packet.len() < 4 || packet[0] != RELAY_MAGIC || packet[1] != RELAY_VERSION {
        None
    } else if packet[2] == CMD_REGISTER {
        if packet.len() != REGISTER_PACKET_SIZE {
            None
        } else {
            Some(RelayView::Register { device_id: endec::le_value(packet.subrange(3, 11)) as u64 })
        }
    } else if packet[2] == CMD_RELAY {
        if packet.len() < 19 {
            None
        } else {
            Some(
                RelayView::Relay {
                    src: endec::le_value(packet.subrange(3, 11)) as u64,
                    dst: endec::le_value(packet.subrange(11, 19)) as u64,
                    frame: packet.skip(19),
                },
            )
        }
    } else if packet[2] == CMD_ACK {
        let end = 4 + packet[3] as int;
        if packet.len() < end + 2 || !valid_utf8(packet.subrange(4, end)) {
            None
        } else {
            Some(
                RelayView::Ack {
                    ip: decode_utf8(packet.subrange(4, end)),
                    port: endec::le_value(packet.subrange(end, end + 2)) as u16,
                },
            )
        }
    } else if packet[2] == CMD_ERROR {
        let end = 4 + packet[3] as int;
        if packet.len() < end {
            None
        } else {
            Some(RelayView::Error { msg: text::lossy_text(packet.subrange(4, end)) })
        }
    } else {
        None
    }
}

fn u64_at(packet: &[u8], at: usize) -> (value: u64)
    requires
        at + 8 <= packet@.len(),
    ensures
        value == endec::le_value(packet@.subrange(at as int, at + 8)) as u64,
{
    assert(at + 8 <= packet.len());
    let bytes = vstd::slice::slice_subrange(packet, at, at + 8);
    assert(bytes@.take(8) =~= packet@.subrange(at as int, at + 8));
    read_u64_le(bytes)
}

/// Reads a control packet.
pub fn parse<'a>(packet: &'a [u8]) -> (msg: Option<RelayPacket<'a>>)
    ensures
        match msg {
            Some(m) => parsed_relay(packet@) == Some(m@),
            None => parsed_relay(packet@) is None,
        },
{
    if packet.len() < 4 || packet[0] != RELAY_MAGIC || packet[1] != RELAY_VERSION {
        return None;
    }
    let cmd = packet[2];
    if cmd == CMD_REGISTER {
        if packet.len() != REGISTER_PACKET_SIZE {
            return None;
        }
        Some(RelayPacket::Register { device_id: u64_at(packet, 3) })
    } else if cmd == CMD_RELAY {
        if packet.len() < 19 {
            return None;
        }
        let frame = vstd::slice::slice_subrange(packet, 19, packet.len());
        assert(frame@ =~= packet@.skip(19));
        Some(RelayPacket::Relay { src: u64_at(packet, 3), dst: u64_at(packet, 11), frame })
    } else if cmd == CMD_ACK {
        let end: usize = 4 + packet[3] as usize;
        if packet.len() < end + 2 {
            return None;
        }
        let ip = match text_of_utf8(vstd::slice::slice_subrange(packet, 4, end)) {
            Some(ip) => owned(ip),
            None => {
                return None;
            },
        };
        let port_bytes = vstd::slice::slice_subrange(packet, end, end + 2);
        assert(port_bytes@.take(2) =~= packet@.subrange(end as int, end + 2));
        Some(RelayPacket::Ack { ip, port: read_u16_le(port_bytes) })
    } else if cmd == CMD_ERROR {
        let end: usize = 4 + packet[3] as usize;
        if packet.len() < end {
            return None;
        }
        Some(RelayPacket::Error { msg: text_lossy(vstd::slice::slice_subrange(packet, 4, end)) })
    } else {
        None
    }
}

/// A RELAY packet reads back as it was written, the frame unchanged.
pub proof fn lemma_relay_round_trip(src: u64, dst: u64, frame: Seq<u8>)
    ensures
        parsed_relay(relay_packet(src, dst, frame)) == Some(RelayView::Relay { src, dst, frame }),
        relay_packet(src, dst, frame).len() == 19 + frame.len(),
{
    endec::lemma_byte_spans();
    endec::lemma_le_round_trip(src as nat, 8);
    endec::lemma_le_round_trip(dst as nat, 8);
    let p = relay_packet(src, dst, frame);
    assert(p.subrange(3, 11) =~= endec::le_bytes(src as nat, 8));
    assert(p.subrange(11, 19) =~= endec::le_bytes(dst as nat, 8));
    assert(p.skip(19) =~= frame);
}

/// An ACK packet reads back as it was written, for an address of at most 255
/// bytes.
pub proof fn lemma_ack_round_trip(ip: Seq<char>, port: u16)
    requires
        encode_utf8(ip).len() <= 255,
    ensures
        parsed_relay(relay_header(CMD_ACK) + ack_payload(ip, port)) == Some(
            RelayView::Ack { ip, port },
        ),
{
    endec::lemma_byte_spans();
    endec::lemma_le_round_trip(port as nat, 2);
    text::lemma_text_bytes(ip);
    let p = relay_header(CMD_ACK) + ack_payload(ip, port);
    let end = 4 + encode_utf8(ip).len() as int;
    assert(p[3] == encode_utf8(ip).len());
    assert(p.subrange(4, end) =~= encode_utf8(ip));
    assert(p.subrange(end, end + 2) =~= endec::le_bytes(port as nat, 2));
}

/// An ERROR packet reads back as the beginning of the message that fits; that is all
/// of it, if it has at most 200 bytes.
pub proof fn lemma_error_round_trip(msg: Seq<char>)
    ensures
        parsed_relay(error_packet(msg)) == Some(
            RelayView::Error { msg: text::fitted(msg, ERROR_MSG_MAX as int) },
        ),
        encode_utf8(msg).len() <= ERROR_MSG_MAX ==> parsed_relay(error_packet(msg)) == Some(
            RelayView::Error { msg },
        ),
{
    text::lemma_fitted(msg, ERROR_MSG_MAX as int);
    let head = text::fitted(msg, ERROR_MSG_MAX as int);
    text::lemma_text_bytes(head);
    let p = error_packet(msg);
    let end = 4 + encode_utf8(head).len() as int;
    assert(p[3] == encode_utf8(head).len());
    assert(p.subrange(4, end) =~= encode_utf8(head));
}

/// The relay key of a device token.
pub fn relay_key_from_token(device_token: &str) -> (key: [u8; 32])
    ensures
        key@ == primitives::sha256_digest(encode_utf8(device_token@)),
{
    sha256(device_token.as_bytes())
}

/// A frame for the relay on the wire: three bytes that tell what it is, the sender and
/// the receiver in eight bytes each, the lowest first, and the frame.
pub proof fn lemma_relay_packet_on_the_wire(src: u64, dst: u64, frame: Seq<u8>)
    ensures
        ({
            let p = relay_packet(src, dst, frame);
            &&& p[0] == 0x0B && p[1] == 1 && p[2] == 2
            &&& src == p[3] + 0x100 * p[4] + 0x1_0000 * p[5] + 0x100_0000 * p[6] + 0x1_0000_0000 * p[7]
                + 0x100_0000_0000 * p[8] + 0x1_0000_0000_0000 * p[9] + 0x100_0000_0000_0000 * p[10]
            &&& dst == p[11] + 0x100 * p[12] + 0x1_0000 * p[13] + 0x100_0000 * p[14] + 0x1_0000_0000 * p[15]
                + 0x100_0000_0000 * p[16] + 0x1_0000_0000_0000 * p[17] + 0x100_0000_0000_0000 * p[18]
            &&& p.skip(19) == frame
        }),
{
    let a = endec::le_bytes(src as nat, 8);
    let b = endec::le_bytes(dst as nat, 8);
    let p = relay_packet(src, dst, frame);
    lemma_eight_bytes(src, a);
    lemma_eight_bytes(dst, b);
    assert(p.skip(19) =~= frame);
    assert(p[3] == a[0] && p[4] == a[1] && p[5] == a[2] && p[6] == a[3] && p[7] == a[4] && p[8] == a[5] && p[9]
        == a[6] && p[10] == a[7]);
    assert(p[11] == b[0] && p[12] == b[1] && p[13] == b[2] && p[14] == b[3] && p[15] == b[4] && p[16] == b[5]
        && p[17] == b[6] && p[18] == b[7]);
}

proof fn lemma_eight_bytes(value: u64, b: Seq<u8>)
    requires
        b == endec::le_bytes(value as nat, 8),
    ensures
        b.len() == 8,
        value == b[0] + 0x100 * b[1] + 0x1_0000 * b[2] + 0x100_0000 * b[3] + 0x1_0000_0000 * b[4] + 0x100_0000_0000
            * b[5] + 0x1_0000_0000_0000 * b[6] + 0x100_0000_0000_0000 * b[7],
{
    endec::lemma_lowest_byte_first(value as nat);
}

/// A registration on the wire: three bytes that tell what it is, the device in eight
/// bytes, the nonce, and the tag of all of that under the device's key, behind the words
/// that say what it is for.
pub proof fn lemma_registration_on_the_wire(device_id: u64, nonce: Seq<u8>, key: Seq<u8>)
    requires
        nonce.len() == 16,
    ensures
        ({
            let p = register_packet(device_id, nonce, key);
            &&& p[0] == 0x0B && p[1] == 1 && p[2] == 1
            &&& device_id == p[3] + 0x100 * p[4] + 0x1_0000 * p[5] + 0x100_0000 * p[6] + 0x1_0000_0000 * p[7]
                + 0x100_0000_0000 * p[8] + 0x1_0000_0000_0000 * p[9] + 0x100_0000_0000_0000 * p[10]
            &&& p.subrange(11, 27) == nonce
            &&& p.skip(27) == primitives::hmac_tag(
                key,
                encode_utf8("starskiff-relay-register"@) + p.take(27),
            )
        }),
{
    let a = endec::le_bytes(device_id as nat, 8);
    let p = register_packet(device_id, nonce, key);
    let claim = register_claim(device_id, nonce);
    lemma_eight_bytes(device_id, a);
    assert(claim.len() == 27);
    assert(p.take(27) =~= claim);
    assert(p.skip(27) =~= register_tag(key, claim));
    assert(p.subrange(11, 27) =~= nonce);
    assert(p[3] == a[0] && p[4] == a[1] && p[5] == a[2] && p[6] == a[3] && p[7] == a[4] && p[8] == a[5] && p[9]
        == a[6] && p[10] == a[7]);
}

/// A registration is genuine if and only if it is 59 bytes long, begins as one does, and
/// its last 32 bytes are the tag of the others. Over TCP it is judged the same without
/// its first three bytes, for the device that it names.
pub proof fn lemma_genuine_registration(packet: Seq<u8>, key: Seq<u8>)
    ensures
        register_is_authentic(packet, key) <==> packet.len() == 59 && packet[0] == 0x0B && packet[1] == 1
            && packet[2] == 1 && packet.skip(27) == primitives::hmac_tag(
            key,
            encode_utf8("starskiff-relay-register"@) + packet.take(27),
        ),
        packet.len() == 59 && packet[0] == 0x0B && packet[1] == 1 && packet[2] == 1 ==> (register_is_authentic(
            packet,
            key,
        ) <==> register_body_is_authentic(
            packet.skip(3),
            endec::le_value(packet.subrange(3, 11)) as u64,
            key,
        )),
{
    if packet.len() == 59 {
        let head = packet.take(3);
        assert(head[0] == packet[0] && head[1] == packet[1] && head[2] == packet[2]);
        if packet[0] == 0x0B && packet[1] == 1 && packet[2] == 1 {
            assert(head =~= relay_header(CMD_REGISTER));
            let id = packet.subrange(3, 11);
            endec::lemma_byte_spans();
            endec::lemma_le_bytes_of_value(id);
            let body = packet.skip(3);
            assert(body.skip(24) =~= packet.skip(27));
            assert(body.subrange(8, 24) =~= packet.subrange(11, 27));
            assert(packet.take(27) =~= register_claim(
                endec::le_value(id) as u64,
                packet.subrange(11, 27),
            ));
        }
    }
}

/// What the relay and the node say to each other begins with the same two bytes, and the
/// third tells the four kinds apart.
pub proof fn lemma_third_byte_tells_the_kind(packet: Seq<u8>)
    ensures
        parsed_relay(packet) is Some ==> packet.len() >= 4 && packet[0] == 0x0B && packet[1] == 1,
        parsed_relay(packet) matches Some(RelayView::Register { .. }) ==> packet[2] == 1,
        parsed_relay(packet) matches Some(RelayView::Relay { .. }) ==> packet[2] == 2,
        parsed_relay(packet) matches Some(RelayView::Ack { .. }) ==> packet[2] == 3,
        parsed_relay(packet) matches Some(RelayView::Error { .. }) ==> packet[2] == 4,
        parsed_relay(packet) matches Some(RelayView::Relay { src, dst, frame }) ==> relay_packet(src, dst, frame)
            == packet,
{
    if let Some(RelayView::Relay { src, dst, frame }) = parsed_relay(packet) {
        endec::lemma_byte_spans();
        endec::lemma_le_bytes_of_value(packet.subrange(3, 11));
        endec::lemma_le_bytes_of_value(packet.subrange(11, 19));
        assert(relay_packet(src, dst, frame) =~= packet);
    }
}

/// What registers over TCP is 56 bytes long: the device, the nonce, and the tag.
pub proof fn lemma_body_of_a_registration(body: Seq<u8>, device_id: u64, key: Seq<u8>)
    requires
        register_body_is_authentic(body, device_id, key),
    ensures
        body.len() == 56,
        body.skip(24) == primitives::hmac_tag(
            key,
            encode_utf8("starskiff-relay-register"@) + (seq![0x0Bu8, 1u8, 1u8] + endec::le_bytes(
                device_id as nat,
                8,
            ) + body.subrange(8, 24)),
        ),
{
}

} // verus!
