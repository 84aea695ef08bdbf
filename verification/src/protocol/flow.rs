//! Streams and datagrams inside sealed frames.
//!
//! A frame of type FLOW holds `[flow id u32 LE][flag u8][payload]`:
//!
//! | flag            | payload                                     |
//! |-----------------|---------------------------------------------|
//! | `OPEN`          | `[proto u8][length u8][address]`            |
//! | `OPENED_OK`     | nothing                                     |
//! | `OPENED_FAIL`   | `[length u8][reason, UTF-8, ≤ 200 bytes]`   |
//! | `CLOSE`         | nothing                                     |
//! | `DATA`          | a piece of the stream                       |
//! | `DATAGRAM`      | `[length u8][address][datagram]`            |
//!
//! The side that opens a flow draws its id at random; both sides use it.

use vstd::prelude::*;
use vstd::utf8::{decode_utf8, encode_utf8, valid_utf8};

use crate::endec::{append_bytes, read_u32_le, write_u32_le};
use crate::text::{contains_char, head_of, text_of_utf8};
use crate::endec;
use crate::text;

verus! {

pub const FLOW_HEADER: usize = 5;

pub const FLOW_HEADER_OFFSET: usize = 0;

pub const FLAG_OPEN: u8 = 1;

pub const FLAG_OPENED_OK: u8 = 2;

pub const FLAG_OPENED_FAIL: u8 = 3;

pub const FLAG_CLOSE: u8 = 4;

pub const FLAG_DATA: u8 = 5;

pub const FLAG_DATAGRAM: u8 = 6;

pub const PROTO_TCP: u8 = 1;

pub const PROTO_UDP: u8 = 2;

pub const REASON_MAX: usize = 200;

/// A flow message, its payload borrowed from the frame.
#[derive(Debug, Clone, Copy, PartialEq, Eq)]
pub struct FlowMsg<'a> {
    pub flow_id: u32,
    pub flags: u8,
    pub payload: &'a [u8],
}

/// The flags that exist.
pub open spec fn is_flow_flag(flags: u8) -> bool {
    FLAG_OPEN <= flags <= FLAG_DATAGRAM
}

/// The bytes of a flow message.
pub open spec fn flow_message(flow_id: u32, flags: u8, payload: Seq<u8>) -> Seq<u8> {
    endec::le_bytes(flow_id as nat, 4).push(flags) + payload
}

/// Id, flag and payload of a flow message.
pub open spec fn parsed_flow(buf: Seq<u8>) -> Option<(u32, u8, Seq<u8>)> {
    if buf.len() < FLOW_HEADER || !is_flow_flag(buf[4]) {
        None
    } else {
        Some((endec::le_value(buf.take(4)) as u32, buf[4], buf.skip(5)))
    }
}

/// Writes a flow message.
pub fn encode(flow_id: u32, flags: u8, payload: &[u8]) -> (out: Vec<u8>)
    ensures
        out@ == flow_message(flow_id, flags, payload@),
{
    let mut out: Vec<u8> = Vec::new();
    write_u32_le(&mut out, flow_id);
    out.push(flags);
    append_bytes(&mut out, payload);
    assert(out@ =~= flow_message(flow_id, flags, payload@));
    out
}

/// Reads a flow message; a short one, or one with an unknown flag, is refused.
pub fn decode<'a>(buf: &'a [u8]) -> (msg: Option<FlowMsg<'a>>)
    ensures
        match msg {
            Some(m) => parsed_flow(buf@) == Some((m.flow_id, m.flags, m.payload@)),
            None => parsed_flow(buf@) is None,
        },
{
    if buf.len() < FLOW_HEADER {
        return None;
    }
    let flags = buf[4];
    if !(FLAG_OPEN <= flags && flags <= FLAG_DATAGRAM) {
        return None;
    }
    let flow_id = read_u32_le(buf);
    let payload = vstd::slice::slice_subrange(buf, FLOW_HEADER, buf.len());
    assert(payload@ =~= buf@.skip(5));
    Some(FlowMsg { flow_id, flags, payload })
}

/// A flow message reads back as it was written.
pub proof fn lemma_flow_round_trip(flow_id: u32, flags: u8, payload: Seq<u8>)
    requires
        is_flow_flag(flags),
    ensures
        parsed_flow(flow_message(flow_id, flags, payload)) == Some((flow_id, flags, payload)),
        flow_message(flow_id, flags, payload).len() == FLOW_HEADER + payload.len(),
{
    endec::lemma_byte_spans();
    endec::lemma_le_round_trip(flow_id as nat, 4);
    let buf = flow_message(flow_id, flags, payload);
    assert(buf.take(4) =~= endec::le_bytes(flow_id as nat, 4));
    assert(buf.skip(5) =~= payload);
}

/// A length in one byte, modulo 256.
pub open spec fn length_byte(n: nat) -> u8 {
    (n % 256) as u8
}

/// `n` in one byte, modulo 256.
pub(crate) fn length_as_byte(n: usize) -> (b: u8)
    ensures
        b == length_byte(n as nat),
{
    (n % 256) as u8
}

/// The payload of an OPEN message.
pub open spec fn open_payload(proto: u8, addr: Seq<char>) -> Seq<u8> {
    seq![proto, length_byte(encode_utf8(addr).len())] + encode_utf8(addr)
}

/// Writes the payload of an OPEN message.
pub fn build_open(proto: u8, addr: &str) -> (out: Vec<u8>)
    ensures
        out@ == open_payload(proto, addr@),
{
    let bytes = addr.as_bytes();
    let mut out: Vec<u8> = Vec::new();
    out.push(proto);
    out.push(length_as_byte(bytes.len()));
    append_bytes(&mut out, bytes);
    assert(out@ =~= open_payload(proto, addr@));
    out
}

/// Protocol and address of an OPEN message.
#[derive(Debug, Clone, Copy)]
pub struct OpenInfo<'a> {
    pub proto: u8,
    pub addr: &'a str,
}

/// Protocol and address that an OPEN payload asks for.
pub open spec fn parsed_open(payload: Seq<u8>) -> Option<(u8, Seq<char>)> {
    if payload.len() < 3 || (payload[0] != PROTO_TCP && payload[0] != PROTO_UDP) || payload.len()
        != 2 + payload[1] as int || !valid_utf8(payload.skip(2)) || !decode_utf8(
        payload.skip(2),
    ).contains(':') {
        None
    } else {
        Some((payload[0], decode_utf8(payload.skip(2))))
    }
}

/// Reads the payload of an OPEN message.
pub fn parse_open<'a>(payload: &'a [u8]) -> (info: Option<OpenInfo<'a>>)
    ensures
        match info {
            Some(i) => parsed_open(payload@) == Some((i.proto, i.addr@)),
            None => parsed_open(payload@) is None,
        },
{
    if payload.len() < 3 {
        return None;
    }
    let proto = payload[0];
    if proto != PROTO_TCP && proto != PROTO_UDP {
        return None;
    }
    if payload.len() != 2 + payload[1] as usize {
        return None;
    }
    let rest = vstd::slice::slice_subrange(payload, 2, payload.len());
    assert(rest@ =~= payload@.skip(2));
    match text_of_utf8(rest) {
        Some(addr) => {
            if contains_char(addr, ':') {
                Some(OpenInfo { proto, addr })
            } else {
                None
            }
        },
        None => None,
    }
}

/// An OPEN message asks for what it was written with, for an address with a
/// colon whose length fits in a byte.
pub proof fn lemma_open_round_trip(proto: u8, addr: Seq<char>)
    requires
        proto == PROTO_TCP || proto == PROTO_UDP,
        addr.contains(':'),
        encode_utf8(addr).len() <= 255,
    ensures
        parsed_open(open_payload(proto, addr)) == Some((proto, addr)),
{
    text::lemma_text_bytes(addr);
    let payload = open_payload(proto, addr);
    assert(payload.skip(2) =~= encode_utf8(addr));
    if encode_utf8(addr).len() == 0 {
        assert(decode_utf8(encode_utf8(addr)) =~= Seq::empty());
    }
}

/// The bytes of as much of a text as fits into `limit` bytes, in whole characters.
pub open spec fn clipped(text: Seq<char>, limit: nat) -> Seq<u8> {
    encode_utf8(text::fitted(text, limit as int))
}

/// The payload of an OPENED_FAIL message.
pub open spec fn opened_fail_payload(reason: Seq<char>) -> Seq<u8> {
    seq![clipped(reason, REASON_MAX as nat).len() as u8] + clipped(reason, REASON_MAX as nat)
}

/// Writes the payload of an OPENED_FAIL message. A long reason is cut between two
/// characters.
pub fn build_opened_fail(reason: &str) -> (out: Vec<u8>)
    ensures
        out@ == opened_fail_payload(reason@),
        out@.len() <= 1 + REASON_MAX,
        out@[0] == out@.len() - 1,
        out@.skip(1) == encode_utf8(reason@.take(text::fitting(reason@, REASON_MAX as int))),
        valid_utf8(out@.skip(1)),
        out@.skip(1).is_prefix_of(encode_utf8(reason@)),
        encode_utf8(reason@).len() <= REASON_MAX ==> out@.skip(1) == encode_utf8(reason@),
        vstd::utf8::is_ascii_chars(reason@) && reason@.len() >= REASON_MAX ==> out@.len() == 1
            + REASON_MAX,
{
    let head = head_of(reason, REASON_MAX as u32);
    proof {
        text::lemma_fitted(reason@, REASON_MAX as int);
    }
    let bytes = head.as_str().as_bytes();
    let mut out: Vec<u8> = Vec::new();
    out.push(bytes.len() as u8);
    append_bytes(&mut out, bytes);
    assert(out@ =~= opened_fail_payload(reason@));
    assert(out@.skip(1) =~= bytes@);
    out
}

/// The payload of a DATAGRAM message.
pub open spec fn datagram_payload(addr: Seq<char>, data: Seq<u8>) -> Seq<u8> {
    seq![length_byte(encode_utf8(addr).len())] + encode_utf8(addr) + data
}

/// Writes the payload of a DATAGRAM message.
pub fn build_datagram(addr: &str, data: &[u8]) -> (out: Vec<u8>)
    ensures
        out@ == datagram_payload(addr@, data@),
{
    let bytes = addr.as_bytes();
    let mut out: Vec<u8> = Vec::new();
    out.push(length_as_byte(bytes.len()));
    append_bytes(&mut out, bytes);
    append_bytes(&mut out, data);
    assert(out@ =~= datagram_payload(addr@, data@));
    out
}

/// Address and content of a DATAGRAM message.
#[derive(Debug, Clone, Copy)]
pub struct DatagramInfo<'a> {
    pub addr: &'a str,
    pub data: &'a [u8],
}

/// Address and content that a DATAGRAM payload holds.
pub open spec fn parsed_datagram(payload: Seq<u8>) -> Option<(Seq<char>, Seq<u8>)> {
    if payload.len() == 0 || payload.len() < 1 + payload[0] as int {
        None
    } else {
        let split = 1 + payload[0] as int;
        let addr = payload.subrange(1, split);
        if !valid_utf8(addr) || !decode_utf8(addr).contains(':') {
            None
        } else {
            Some((decode_utf8(addr), payload.skip(split)))
        }
    }
}

/// Reads the payload of a DATAGRAM message.
pub fn parse_datagram<'a>(payload: &'a [u8]) -> (info: Option<DatagramInfo<'a>>)
    ensures
        match info {
            Some(i) => parsed_datagram(payload@) == Some((i.addr@, i.data@)),
            None => parsed_datagram(payload@) is None,
        },
{
    if payload.len() == 0 {
        return None;
    }
    let addr_len: usize = payload[0] as usize;
    if payload.len() < 1 + addr_len {
        return None;
    }
    let addr_bytes = vstd::slice::slice_subrange(payload, 1, 1 + addr_len);
    let data = vstd::slice::slice_subrange(payload, 1 + addr_len, payload.len());
    assert(data@ =~= payload@.skip(1 + addr_len));
    match text_of_utf8(addr_bytes) {
        Some(addr) => {
            if contains_char(addr, ':') {
                Some(DatagramInfo { addr, data })
            } else {
                None
            }
        },
        None => None,
    }
}

/// A DATAGRAM message reads back as it was written, for an address with a colon
/// whose length fits in a byte.
pub proof fn lemma_datagram_round_trip(addr: Seq<char>, data: Seq<u8>)
    requires
        addr.contains(':'),
        encode_utf8(addr).len() <= 255,
    ensures
        parsed_datagram(datagram_payload(addr, data)) == Some((addr, data)),
{
    text::lemma_text_bytes(addr);
    let payload = datagram_payload(addr, data);
    let split = 1 + encode_utf8(addr).len() as int;
    assert(payload.subrange(1, split) =~= encode_utf8(addr));
    assert(payload.skip(split) =~= data);
}

/// A message of a flow on the wire: the id in four bytes, the lowest first, then the
/// flag, then what is said.
pub proof fn lemma_flow_message_on_the_wire(flow_id: u32, flags: u8, payload: Seq<u8>)
    ensures
        ({
            let m = flow_message(flow_id, flags, payload);
            &&& m.len() == 5 + payload.len()
            &&& flow_id == m[0] + 0x100 * m[1] + 0x1_0000 * m[2] + 0x100_0000 * m[3]
            &&& m[4] == flags
            &&& m.skip(5) == payload
        }),
{
    endec::lemma_lowest_byte_first(flow_id as nat);
    let m = flow_message(flow_id, flags, payload);
    assert(m.skip(5) =~= payload);
}

/// What is taken for a message is one: five bytes at least, with one of the six flags.
/// Written again, it is the same.
pub proof fn lemma_flow_message_is_whole(buf: Seq<u8>)
    ensures
        parsed_flow(buf) is Some <==> buf.len() >= 5 && 1 <= buf[4] <= 6,
        parsed_flow(buf) matches Some((id, flags, payload)) ==> flow_message(id, flags, payload) == buf && flags
            == buf[4] && payload == buf.skip(5),
{
    if parsed_flow(buf) is Some {
        let head = buf.take(4);
        endec::lemma_le_bytes_of_value(head);
        endec::lemma_byte_spans();
        assert(buf =~= head.push(buf[4]) + buf.skip(5));
    }
}

/// What asks for a stream names its protocol, then how long the address is, then the
/// address. It is understood if and only if the protocol is one of the two, the length is
/// that of all that follows, and what follows is text with a colon.
pub proof fn lemma_open_on_the_wire(payload: Seq<u8>)
    ensures
        parsed_open(payload) matches Some((proto, addr)) ==> {
            &&& proto == 1 || proto == 2
            &&& payload == seq![proto, encode_utf8(addr).len() as u8] + encode_utf8(addr)
            &&& encode_utf8(addr).len() <= 255
            &&& addr.contains(':')
        },
        payload.len() >= 3 && (payload[0] == 1 || payload[0] == 2) && payload[1] == payload.len() - 2 && valid_utf8(
            payload.skip(2),
        ) && decode_utf8(payload.skip(2)).contains(':') ==> parsed_open(payload) is Some,
{
    if parsed_open(payload) is Some {
        vstd::utf8::decode_utf8_encode_utf8(payload.skip(2));
        let addr = decode_utf8(payload.skip(2));
        assert(encode_utf8(addr) == payload.skip(2));
        assert(payload =~= seq![payload[0], encode_utf8(addr).len() as u8] + encode_utf8(addr));
    }
}

/// A datagram names how long the address is, then the address, then what it holds, which
/// may be nothing.
pub proof fn lemma_datagram_on_the_wire(payload: Seq<u8>)
    ensures
        parsed_datagram(payload) matches Some((addr, data)) ==> {
            &&& payload == seq![encode_utf8(addr).len() as u8] + encode_utf8(addr) + data
            &&& encode_utf8(addr).len() <= 255
            &&& addr.contains(':')
        },
{
    if parsed_datagram(payload) is Some {
        let split = 1 + payload[0] as int;
        let bytes = payload.subrange(1, split);
        vstd::utf8::decode_utf8_encode_utf8(bytes);
        let addr = decode_utf8(bytes);
        assert(encode_utf8(addr) == bytes);
        assert(payload =~= seq![encode_utf8(addr).len() as u8] + encode_utf8(addr) + payload.skip(split));
    }
}

/// A refusal names how long its reason is, then the reason, cut to 200 bytes in whole
/// characters.
pub proof fn lemma_refusal_on_the_wire(reason: Seq<char>)
    ensures
        ({
            let p = opened_fail_payload(reason);
            &&& 1 <= p.len() <= 201
            &&& p[0] == p.len() - 1
            &&& p.skip(1).is_prefix_of(encode_utf8(reason))
            &&& valid_utf8(p.skip(1))
            &&& encode_utf8(reason).len() <= 200 ==> p.skip(1) == encode_utf8(reason)
        }),
{
    text::lemma_fitted(reason, 200);
    let p = opened_fail_payload(reason);
    assert(p.skip(1) =~= clipped(reason, 200));
}

} // verus!
