use starskiff::consts::{FLOW_CHUNK, FLOW_CHUNK_UDP, FLOW_MAX_DATAGRAM, TCP_MAX_PAYLOAD};
use starskiff::protocol::flow::{
    build_datagram, build_open, build_opened_fail, decode, encode, parse_datagram, parse_open, FLAG_DATA,
    FLOW_HEADER, PROTO_TCP, REASON_MAX,
};
use starskiff::protocol::relay_tcp::{
    build_send_body, encode_cmd, write_length_prefixed, FrameReassembler, RelayTcpMsg, CMD_TCP_KEEPALIVE,
    CMD_TCP_SEND,
};
use starskiff::protocol::relay_udp::{
    build_ack_packet, build_ack_payload, build_error_packet, build_register, build_relay, register_body_nonce,
    register_nonce, relay_key_from_token, verify_register, verify_register_body, RelayPacket, CMD_REGISTER,
    REGISTER_BODY_SIZE, RELAY_MAGIC,
};
use starskiff::protocol::wire::{FIXED_HEADER, WIRE_MAGIC};
use starskiff::protocol::{relay_tcp, relay_udp};

#[test]
fn flow_chunk_fits_max_udp_datagram() {
    let aead_tag = 16; // ChaCha20-Poly1305
    let wire_overhead = FIXED_HEADER + aead_tag;
    let relay_overhead = build_relay(1, 2, b"").len();
    let total = FLOW_CHUNK + FLOW_HEADER + wire_overhead + relay_overhead;
    assert!(total <= 65507);
    assert!(FLOW_MAX_DATAGRAM + FLOW_HEADER + wire_overhead + relay_overhead <= 65507);
}

#[test]
fn flow_chunk_udp_never_fragments() {
    let aead_tag = 16;
    let wire_overhead = FIXED_HEADER + aead_tag;
    let relay_overhead = build_relay(1, 2, b"").len();
    let total = FLOW_CHUNK_UDP + FLOW_HEADER + wire_overhead + relay_overhead;
    assert!(total <= 1472);
}

#[test]
fn round_trip() {
    let msg = encode(0x11223344, FLAG_DATA, b"chunk");
    let decoded = decode(&msg).unwrap();
    assert_eq!(decoded.flow_id, 0x11223344);
    assert_eq!(decoded.flags, FLAG_DATA);
    assert_eq!(decoded.payload, b"chunk");
}

#[test]
fn rejects_bad_frames() {
    assert!(decode(&[0u8; 4]).is_none()); // too short
    assert!(decode(&encode(1, 0, b"")).is_none()); // flag 0
    assert!(decode(&encode(1, 7, b"")).is_none()); // flag 7
}

#[test]
fn open_payload() {
    let payload = build_open(PROTO_TCP, "10.10.0.5:8080");
    let info = parse_open(&payload).unwrap();
    assert_eq!(info.proto, PROTO_TCP);
    assert_eq!(info.addr, "10.10.0.5:8080");
    assert!(parse_open(&[PROTO_TCP, 5, b'1', b'0']).is_none()); // addrLen mismatch
}

#[test]
fn datagram_payload() {
    let payload = build_datagram("10.10.0.9:53", b"query");
    let info = parse_datagram(&payload).unwrap();
    assert_eq!(info.addr, "10.10.0.9:53");
    assert_eq!(info.data, b"query");
}

#[test]
fn fail_reason_truncated() {
    let reason = "x".repeat(300);
    let payload = build_opened_fail(&reason);
    assert_eq!(payload.len(), 1 + REASON_MAX);
}

#[test]
fn send_round_trip() {
    let frame = [0x0Au8, 1, 9, 9];
    let inner = encode_cmd(CMD_TCP_SEND, &build_send_body(77, &frame));
    match relay_tcp::parse(&inner).unwrap() {
        RelayTcpMsg::Send { dst, frame: f } => {
            assert_eq!(dst, 77);
            assert_eq!(f, frame);
        }
        _ => panic!("wrong variant"),
    }
}

#[test]
fn keepalive_and_register() {
    assert!(matches!(
        relay_tcp::parse(&encode_cmd(CMD_TCP_KEEPALIVE, b"")).unwrap(),
        RelayTcpMsg::Keepalive
    ));
    let body = [2u8; 56];
    match relay_tcp::parse(&encode_cmd(CMD_REGISTER, &body)).unwrap() {
        RelayTcpMsg::Register { body: b } => assert_eq!(b.len(), 56),
        _ => panic!(),
    }
}

#[test]
fn reject_foreign_magic() {
    assert!(relay_tcp::parse(&[0x0A, 1, CMD_TCP_KEEPALIVE]).is_none());
    assert!(relay_tcp::parse(&[0x0B, 2, CMD_TCP_KEEPALIVE]).is_none()); // version
}

#[test]
fn reassembler_handles_chunking_and_oversize() {
    let mut r = FrameReassembler::new();
    let mut stream = Vec::new();
    let small = vec![1u8; 10];
    let big = vec![2u8; 70_000]; // crosses the 64 KB path
    write_length_prefixed(&mut stream, &small);
    write_length_prefixed(&mut stream, &big);

    // Feed one byte at a time to exercise partial buffering.
    let mut got = Vec::new();
    for b in &stream {
        got.extend(r.feed(std::slice::from_ref(b)).unwrap());
    }
    assert_eq!(got.len(), 2);
    assert_eq!(got[0], small);
    assert_eq!(got[1], big);

    // 超限帧返回 Err：流边界已不可信，调用方必须断开连接。
    let mut huge = Vec::new();
    write_length_prefixed(&mut huge, &vec![0u8; TCP_MAX_PAYLOAD + 1]);
    assert!(r.feed(&huge).is_err());
    assert!(r.buf.is_empty());
}

#[test]
fn register_round_trip_and_auth() {
    let key = relay_key_from_token("skd_test-token");
    let pkt = build_register(41, &key);
    assert_eq!(pkt.len(), 59);
    assert!(verify_register(&pkt, &key));
    let bad = relay_key_from_token("skd_other");
    assert!(!verify_register(&pkt, &bad));
    // Single-bit flip breaks the MAC.
    let mut tampered = pkt;
    tampered[5] ^= 1;
    assert!(!verify_register(&tampered, &key));
    // Parse extracts the device id.
    match relay_udp::parse(&pkt).unwrap() {
        RelayPacket::Register { device_id } => assert_eq!(device_id, 41),
        _ => panic!("wrong variant"),
    }
}

#[test]
fn register_body_tcp_variant() {
    let key = relay_key_from_token("skd_x");
    let pkt = build_register(77, &key);
    let body = &pkt[3..];
    assert_eq!(body.len(), REGISTER_BODY_SIZE);
    assert!(verify_register_body(body, 77, &key));
    assert!(!verify_register_body(body, 78, &key)); // device id covered by MAC
}

#[test]
fn nonce_extraction() {
    let key = relay_key_from_token("skd_n");
    let pkt = build_register(5, &key);
    let body = &pkt[3..];
    assert_eq!(register_nonce(&pkt).unwrap(), register_body_nonce(body).unwrap());
    assert!(register_nonce(&pkt[..40]).is_none());
    assert!(register_body_nonce(&body[..40]).is_none());
}

#[test]
fn relay_round_trip() {
    let inner = [0x0Au8, 1, 2, 3, 4];
    let pkt = build_relay(41, 42, &inner);
    match relay_udp::parse(&pkt).unwrap() {
        RelayPacket::Relay { src, dst, frame } => {
            assert_eq!(src, 41);
            assert_eq!(dst, 42);
            assert_eq!(frame, inner);
        }
        _ => panic!("wrong variant"),
    }
}

#[test]
fn ack_round_trip() {
    let pkt = build_ack_packet("203.0.113.7", 51820);
    match relay_udp::parse(&pkt).unwrap() {
        RelayPacket::Ack { ip, port } => {
            assert_eq!(ip, "203.0.113.7");
            assert_eq!(port, 51820);
        }
        _ => panic!("wrong variant"),
    }
    // Payload variant matches the TCP Ack body layout.
    assert_eq!(build_ack_payload("1.2.3.4", 99), {
        let mut v = vec![7];
        v.extend_from_slice(b"1.2.3.4");
        v.extend_from_slice(&99u16.to_le_bytes());
        v
    });
}

#[test]
fn error_round_trip_and_truncation() {
    let short = build_error_packet("boom");
    match relay_udp::parse(&short).unwrap() {
        RelayPacket::Error { msg } => assert_eq!(msg, "boom"),
        _ => panic!(),
    }
    let long = build_error_packet(&"x".repeat(300));
    assert_eq!(long.len(), 4 + 200);
}

#[test]
fn magic_range_assertion() {
    // Discrimination design: both magics live in 0x04..=0x13 and differ.
    assert!((0x04..=0x13).contains(&WIRE_MAGIC));
    assert!((0x04..=0x13).contains(&RELAY_MAGIC));
    assert_ne!(WIRE_MAGIC, RELAY_MAGIC);
}

#[test]
fn reasons_are_cut_between_characters() {
    let reason = format!("a{}", "é".repeat(100));
    let payload = build_opened_fail(&reason);
    assert_eq!(usize::from(payload[0]), payload.len() - 1);
    let kept = std::str::from_utf8(&payload[1..]).unwrap();
    assert_eq!(kept, format!("a{}", "é".repeat((REASON_MAX - 1) / 2)));
    assert!(reason.starts_with(kept));
    assert_eq!(build_opened_fail("no"), [2, b'n', b'o']);
    assert_eq!(build_opened_fail(""), [0]);
}

#[test]
fn errors_are_cut_between_characters() {
    let msg = format!("a{}", "é".repeat(100));
    let packet = build_error_packet(&msg);
    assert_eq!(usize::from(packet[3]), packet.len() - 4);
    match relay_udp::parse(&packet).unwrap() {
        RelayPacket::Error { msg } => assert_eq!(msg, format!("a{}", "é".repeat(99))),
        _ => panic!(),
    }
}
