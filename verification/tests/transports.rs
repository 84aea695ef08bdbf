use starskiff::addr::{parse_socket, SocketAddr};
use starskiff::protocol::relay_tcp::{FrameReassembler, CMD_TCP_FRAME, CMD_TCP_KEEPALIVE, CMD_TCP_KEEPALIVE_RESP};
use starskiff::protocol::relay_tcp::{encode_cmd, parse as parse_cmd, RelayTcpMsg};
use starskiff::protocol::relay_udp::{self, CMD_ERROR, CMD_REGISTER};
use starskiff::transport::peer_tcp;
use starskiff::transport::relay_tcp::{
    keepalive_message, on_message, register_message, send_message, RelayAction, RelayTcpClient,
};
use starskiff::transport::udp_mesh::{classify, BindFailure, ErrorLog, UdpInbound, UdpMesh};

fn addr(s: &str) -> SocketAddr {
    parse_socket(s).unwrap()
}

/// 中继转发的内层 wire 帧（0x0A 头）：来自中继地址 → RelayFrame。
#[test]
fn relayed_wire_frame_from_relay_is_relay() {
    let relay = addr("203.0.113.1:24931");
    let frame = [0x0Au8, 2, 0, 0, 0, 0, 0, 0, 0, 0, 0, 7, 7, 7, 7];
    assert!(relay_udp::parse(&frame).is_none(), "前提：内层帧不是中继协议");
    match classify(&relay, &Some(relay), &frame) {
        UdpInbound::RelayFrame(f) => assert_eq!(f, frame),
        other => panic!("中继地址来的 wire 帧必须是 RelayFrame: {other:?}"),
    }
}

/// 同样的 wire 帧来自陌生地址 → Direct（对端直发）。
#[test]
fn wire_frame_from_stranger_is_direct() {
    let frame = [0x0Au8, 2, 0, 0, 0, 0, 0, 0, 0, 0, 0, 1, 2, 3];
    match classify(&addr("10.0.0.2:5000"), &Some(addr("203.0.113.1:24931")), &frame) {
        UdpInbound::Direct(f) => assert_eq!(f, frame),
        other => panic!("陌生地址来的 wire 帧必须是 Direct: {other:?}"),
    }
}

/// ACK 只信任中继来源：中继来的 ACK → 观测端点（IPv6 加方括号）。
#[test]
fn ack_from_relay_is_observed_endpoint() {
    let relay = addr("203.0.113.1:24931");
    let pkt = relay_udp::build_ack_packet("2001:db8::1", 41234);
    match classify(&relay, &Some(relay), &pkt) {
        UdpInbound::ObservedEndpoint(ep) => assert_eq!(ep, "[2001:db8::1]:41234"),
        other => panic!("中继 ACK 必须是 ObservedEndpoint: {other:?}"),
    }
    let pkt = relay_udp::build_ack_packet("198.51.100.9", 24933);
    match classify(&relay, &Some(relay), &pkt) {
        UdpInbound::ObservedEndpoint(ep) => assert_eq!(ep, "198.51.100.9:24933"),
        other => panic!("中继 ACK 必须是 ObservedEndpoint: {other:?}"),
    }
}

/// 伪造的 ACK（非中继来源）→ 丢弃。
#[test]
fn ack_from_stranger_is_ignored() {
    let pkt = relay_udp::build_ack_packet("6.6.6.6", 6666);
    assert!(matches!(
        classify(&addr("10.0.0.2:5000"), &Some(addr("203.0.113.1:24931")), &pkt),
        UdpInbound::Ignore
    ));
}

/// RELAY 壳来自中继（真实服务器不发送，防御性）→ 取内层帧。
#[test]
fn relay_shell_from_relay_unwraps_inner_frame() {
    let relay = addr("203.0.113.1:24931");
    let pkt = relay_udp::build_relay(7, 8, b"inner");
    match classify(&relay, &Some(relay), &pkt) {
        UdpInbound::RelayFrame(f) => assert_eq!(f, b"inner".to_vec()),
        other => panic!("RELAY 壳必须是 RelayFrame: {other:?}"),
    }
}

/// 中继 ERROR / REGISTER 出现在中继地址上 → 丢弃。
#[test]
fn error_from_relay_is_ignored() {
    let relay = addr("203.0.113.1:24931");
    let pkt = relay_udp::build_error_packet("unknown device or bad auth");
    assert!(matches!(classify(&relay, &Some(relay), &pkt), UdpInbound::Ignore));
}

/// 中继未配置（None）时：wire 帧按直连处理。
#[test]
fn unconfigured_relay_defaults_to_direct() {
    let frame = [0x0Au8, 2, 0, 0, 0, 0, 0, 0, 0, 0, 0, 9, 9];
    assert!(matches!(classify(&addr("10.0.0.2:5000"), &None, &frame), UdpInbound::Direct(_)));
}

#[test]
fn bind_failures_are_told_apart() {
    let mut mesh = UdpMesh::new();
    let any = addr("0.0.0.0:24933");
    let any6 = addr("[::]:24933");
    assert!(mesh.wants(&any));
    match mesh.on_failure(&any) {
        BindFailure::Fallback(at) => assert_eq!(at, addr("0.0.0.0:0")),
        other => panic!("{other:?}"),
    }
    match mesh.on_failure(&any6) {
        BindFailure::Fallback(at) => assert_eq!(at, addr("[::]:0")),
        other => panic!("{other:?}"),
    }
    assert!(matches!(mesh.on_failure(&addr("10.0.0.1:24933")), BindFailure::Fatal));
    assert!(matches!(mesh.on_failure(&addr("[fe80::1]:24933")), BindFailure::Fatal));
    assert!(matches!(mesh.on_failure(&addr("0.0.0.0:0")), BindFailure::Fatal));
    mesh.on_bound(any, false);
    assert!(!mesh.used_fallback_port);
    assert!(matches!(mesh.on_failure(&addr("0.0.0.0:0")), BindFailure::Skip));
    assert!(!mesh.wants(&any));
    mesh.on_bound(addr("[::]:40000"), true);
    assert!(mesh.used_fallback_port);
    assert_eq!(mesh.writer_for(&addr("[::]:40000")), 1);
    assert_eq!(mesh.writer_for(&addr("1.2.3.4:5")), 0);
}

#[test]
fn send_errors_are_logged_once_a_minute() {
    let mut log = ErrorLog::new();
    assert_eq!(log.on_error(100_000), Some(1));
    assert_eq!(log.on_error(160_000), None);
    assert_eq!(log.on_error(160_001), Some(3));
}

#[test]
fn relay_connection_speaks_its_protocol() {
    let key = relay_udp::relay_key_from_token("skd_x");
    let mut r = FrameReassembler::new();
    let frames = r.feed(&register_message(77, &[5; 16], &key)).unwrap();
    match parse_cmd(&frames[0]).unwrap() {
        RelayTcpMsg::Register { body } => {
            assert!(relay_udp::verify_register_body(body, 77, &key));
            assert_eq!(relay_udp::register_body_nonce(body), Some([5; 16]));
        }
        _ => panic!(),
    }
    let frames = r.feed(&send_message(9, b"abc")).unwrap();
    match parse_cmd(&frames[0]).unwrap() {
        RelayTcpMsg::Send { dst, frame } => {
            assert_eq!(dst, 9);
            assert_eq!(frame, b"abc");
        }
        _ => panic!(),
    }
    let frames = r.feed(&keepalive_message()).unwrap();
    assert_eq!(frames[0], encode_cmd(CMD_TCP_KEEPALIVE, b""));
}

#[test]
fn relay_messages_lead_to_actions() {
    match on_message(&encode_cmd(CMD_TCP_FRAME, b"frame")) {
        RelayAction::Deliver(f) => assert_eq!(f, b"frame"),
        other => panic!("{other:?}"),
    }
    match on_message(&encode_cmd(CMD_TCP_KEEPALIVE, b"")) {
        RelayAction::Answer(m) => {
            let frames = FrameReassembler::new().feed(&m).unwrap();
            assert_eq!(frames[0], encode_cmd(CMD_TCP_KEEPALIVE_RESP, b""));
        }
        other => panic!("{other:?}"),
    }
    assert!(matches!(on_message(&encode_cmd(CMD_TCP_KEEPALIVE_RESP, b"")), RelayAction::Nothing));
    match on_message(&encode_cmd(CMD_ERROR, b"denied")) {
        RelayAction::Drop(Some(line)) => assert_eq!(line, "中继 TCP 错误: denied"),
        other => panic!("{other:?}"),
    }
    assert!(matches!(on_message(&encode_cmd(CMD_REGISTER, b"x")), RelayAction::Drop(None)));
    assert!(matches!(on_message(b"garbage"), RelayAction::Drop(None)));
}

#[test]
fn relay_connection_is_made_once_and_again_after_a_loss() {
    let key = [9; 32];
    let mut client = RelayTcpClient::new(77, &key);
    assert_eq!(client.begin(), None);
    client.configure(addr("203.0.113.1:24931"));
    assert!(client.send(1, b"x").is_none());
    assert!(client.keepalive().is_none());
    assert_eq!(client.begin(), Some(addr("203.0.113.1:24931")));
    assert_eq!(client.begin(), None);
    client.finish(false);
    assert!(!client.is_connected());
    assert!(client.begin().is_some());
    client.finish(true);
    assert!(client.is_connected());
    assert_eq!(client.begin(), None);
    assert_eq!(client.send(1, b"x").unwrap(), send_message(1, b"x"));
    assert_eq!(client.keepalive().unwrap(), keepalive_message());
    client.lost();
    assert!(client.begin().is_some());
}

#[test]
fn relay_connections_register_with_fresh_nonces() {
    let key = [9; 32];
    let client = RelayTcpClient::new(77, &key);
    let mut r = FrameReassembler::new();
    let mut nonces = Vec::new();
    for _ in 0..2 {
        let frames = r.feed(&client.register()).unwrap();
        match parse_cmd(&frames[0]).unwrap() {
            RelayTcpMsg::Register { body } => {
                assert!(relay_udp::verify_register_body(body, 77, &key));
                nonces.push(relay_udp::register_body_nonce(body).unwrap());
            }
            _ => panic!(),
        }
    }
    assert_ne!(nonces[0], nonces[1]);
}

#[test]
fn udp_relay_is_used_once_it_is_known() {
    let key = [9; 32];
    let mut mesh = UdpMesh::new();
    assert!(mesh.send_register().is_none());
    assert!(mesh.send_relay(1, 2, b"f").is_none());
    mesh.configure_relay(addr("203.0.113.1:24931"), 77, &key);
    let sent = mesh.send_register().unwrap();
    assert_eq!(sent.to, addr("203.0.113.1:24931"));
    assert!(relay_udp::verify_register(&sent.packet, &key));
    assert_ne!(sent.packet, mesh.send_register().unwrap().packet);
    let sent = mesh.send_relay(1, 2, b"f").unwrap();
    assert_eq!(sent.packet, relay_udp::build_relay(1, 2, b"f"));
    mesh.on_bound(addr("0.0.0.0:5"), false);
    assert_eq!(mesh.local_binds().len(), 1);
}

#[test]
fn first_frame_names_the_peer() {
    let mut frame = vec![0u8; 60];
    frame[0] = starskiff::protocol::wire::WIRE_MAGIC;
    frame[1] = starskiff::protocol::wire::WIRE_VERSION;
    frame[2] = 41;
    frame[10] = starskiff::protocol::wire::FRAME_PING;
    assert_eq!(peer_tcp::identify(0, b"noise"), 0);
    assert_eq!(peer_tcp::identify(0, &frame), 41);
    assert_eq!(peer_tcp::identify(7, &frame), 7);
    assert_eq!(peer_tcp::framed(b"ab"), vec![2, 0, 0, 0, b'a', b'b']);
}
