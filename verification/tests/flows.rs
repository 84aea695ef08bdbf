use starskiff::addr::SocketAddr;
use starskiff::consts::FLOW_MAX_DATAGRAM;
use starskiff::flows::{datagram_frame, flow_frame, open_frame, FlowAction, FlowManager, FlowMessage};
use starskiff::models::{ExposeRule, NetId};
use starskiff::protocol::flow::{
    build_datagram, build_open, build_opened_fail, decode, encode, FLAG_CLOSE, FLAG_DATA, FLAG_DATAGRAM, FLAG_OPEN,
    FLAG_OPENED_FAIL, FLAG_OPENED_OK, PROTO_TCP, PROTO_UDP,
};

const NET: NetId = NetId([3; 16]);

fn flags_of(m: &Option<FlowMessage>) -> (u32, u8) {
    let m = m.as_ref().unwrap();
    let msg = decode(&m.payload).unwrap();
    (msg.flow_id, msg.flags)
}

fn rule(port: u16, proto: &str, dest: &str) -> ExposeRule {
    ExposeRule { port, proto: proto.to_string(), dest: dest.to_string() }
}

/// close_peer 只关指定网络的 flow：同一 peer 在另一网络的流不受影响。
#[test]
fn close_peer_is_scoped_to_network() {
    let mut mgr = FlowManager::new();
    let net_a = NetId([1; 16]);
    let net_b = NetId([2; 16]);
    let (flow_a, _) = mgr.open_udp(&net_a, 42, "10.0.0.2:53").unwrap();
    let (flow_b, _) = mgr.open_udp(&net_b, 42, "10.1.0.2:53").unwrap();

    let closed = mgr.close_peer(&net_a, 42);

    assert!(!mgr.has_flow(flow_a));
    assert!(mgr.has_flow(flow_b));
    assert_eq!(closed.len(), 1);
    assert_eq!(closed[0].0, flow_a);
    let notice = closed[0].1.as_ref().unwrap();
    assert_eq!(notice.network, net_a);
    assert_eq!(notice.peer, 42);
    assert_eq!(flags_of(&closed[0].1), (flow_a, FLAG_CLOSE));
}

/// 重复 OPEN（连接进行中 + 已建立后）都不得重复连接本地服务。
#[test]
fn duplicate_tcp_open_is_idempotent() {
    let mut mgr = FlowManager::new();
    mgr.set_exposes(&NET, vec![rule(8080, "tcp", "127.0.0.1:8080")]);
    let open = encode(777, FLAG_OPEN, &build_open(PROTO_TCP, "10.3.0.5:8080"));
    let mut connects = 0;
    // 首次 OPEN：开始连接本地服务
    match mgr.on_frame(&NET, 42, &open, None) {
        FlowAction::Connect { flow_id, service } => {
            connects += 1;
            assert_eq!(flow_id, 777);
            assert_eq!(service, "127.0.0.1:8080");
        }
        other => panic!("{other:?}"),
    }
    // 本地服务连接中的重复 OPEN
    assert!(matches!(mgr.on_frame(&NET, 42, &open, None), FlowAction::Nothing));
    assert_eq!(flags_of(&mgr.connected(&NET, 42, 777)), (777, FLAG_OPENED_OK), "首次应答缺失");
    // 已建立后的重复 OPEN
    match mgr.on_frame(&NET, 42, &open, None) {
        FlowAction::Send { message } => assert_eq!(flags_of(&message), (777, FLAG_OPENED_OK)),
        other => panic!("重复 OPEN 未补发应答: {other:?}"),
    }
    assert_eq!(connects, 1, "重复 OPEN 导致了多余的本地连接");
}

#[test]
fn open_without_service_is_refused_with_a_reason() {
    let mut mgr = FlowManager::new();
    mgr.set_exposes(&NET, vec![rule(80, "udp", "127.0.0.1:80")]);
    let open = encode(5, FLAG_OPEN, &build_open(PROTO_TCP, "10.3.0.5:80"));
    match mgr.on_frame(&NET, 42, &open, None) {
        FlowAction::Send { message } => {
            let m = message.unwrap();
            assert_eq!(m.payload, encode(5, FLAG_OPENED_FAIL, &build_opened_fail("no tcp service on port 80")));
        }
        other => panic!("{other:?}"),
    }
    // A port that cannot be read is passed over.
    let open = encode(5, FLAG_OPEN, &build_open(PROTO_TCP, "10.3.0.5:none"));
    assert!(matches!(mgr.on_frame(&NET, 42, &open, None), FlowAction::Nothing));
}

#[test]
fn failed_connect_is_told_and_may_be_tried_again() {
    let mut mgr = FlowManager::new();
    mgr.set_exposes(&NET, vec![rule(80, "tcp", "127.0.0.1:1")]);
    let open = encode(6, FLAG_OPEN, &build_open(PROTO_TCP, "10.3.0.5:80"));
    assert!(matches!(mgr.on_frame(&NET, 42, &open, None), FlowAction::Connect { .. }));
    let m = mgr.connect_failed(&NET, 42, 6).unwrap();
    assert_eq!(m.payload, encode(6, FLAG_OPENED_FAIL, &build_opened_fail("local service unreachable")));
    assert!(!mgr.has_flow(6));
    assert!(matches!(mgr.on_frame(&NET, 42, &open, None), FlowAction::Connect { .. }));
}

#[test]
fn answers_reach_the_initiator_once() {
    let mut mgr = FlowManager::new();
    let (id, open) = mgr.open_tcp(&NET, 42, "10.3.0.5:80").unwrap();
    assert_ne!(id, 0);
    assert_eq!(open.unwrap().payload, encode(id, FLAG_OPEN, &build_open(PROTO_TCP, "10.3.0.5:80")));
    assert!(mgr.awaits_answer(id));
    assert!(mgr.resends_open(id, 7, 8));
    assert!(!mgr.resends_open(id, 8, 8));
    match mgr.on_frame(&NET, 42, &encode(id, FLAG_OPENED_OK, b""), None) {
        FlowAction::Answered { flow_id, failure } => {
            assert_eq!(flow_id, id);
            assert!(failure.is_none());
        }
        other => panic!("{other:?}"),
    }
    assert!(!mgr.awaits_answer(id));
    assert!(!mgr.resends_open(id, 0, 8));
    assert!(matches!(mgr.on_frame(&NET, 42, &encode(id, FLAG_OPENED_OK, b""), None), FlowAction::Nothing));
    match mgr.on_frame(&NET, 42, &encode(id, FLAG_DATA, b"hello"), None) {
        FlowAction::Deliver { flow_id, data } => {
            assert_eq!(flow_id, id);
            assert_eq!(data, b"hello");
        }
        other => panic!("{other:?}"),
    }
    match mgr.on_frame(&NET, 42, &encode(id, FLAG_CLOSE, b""), None) {
        FlowAction::Closed { flow_id, notice } => {
            assert_eq!(flow_id, id);
            assert!(notice.is_none());
        }
        other => panic!("{other:?}"),
    }
    assert!(!mgr.has_flow(id));
}

#[test]
fn refusal_carries_its_reason_even_if_it_is_no_utf8() {
    let mut mgr = FlowManager::new();
    assert!(mgr.open_as(9, &NET, 42, false, "10.3.0.5:80").is_some());
    assert!(mgr.open_as(9, &NET, 42, false, "10.3.0.5:80").is_none());
    assert!(mgr.open_as(0, &NET, 42, false, "10.3.0.5:80").is_none());
    match mgr.on_frame(&NET, 42, &encode(9, FLAG_OPENED_FAIL, &[b'n', 0xff, b'o']), None) {
        FlowAction::Answered { failure, .. } => assert_eq!(failure.as_deref(), Some("n\u{fffd}o")),
        other => panic!("{other:?}"),
    }
}

#[test]
fn first_drawn_id_that_may_be_had_is_taken() {
    let mut mgr = FlowManager::new();
    assert_eq!(mgr.new_flow_id(&[0, 7, 9]), Some(7));
    let (id, message) = mgr.open_from(&[0, 7, 9], &NET, 42, false, "10.3.0.5:80").unwrap();
    assert_eq!(id, 7);
    assert_eq!(flags_of(&message), (7, FLAG_OPEN));
    assert_eq!(mgr.open_from(&[7, 0, 9], &NET, 42, true, "10.3.0.5:53").unwrap().0, 9);
    assert!(mgr.open_from(&[7, 0, 9, 7], &NET, 42, true, "10.3.0.5:53").is_none());
    assert_eq!(mgr.new_flow_id(&[]), None);
    assert!(mgr.awaits_answer(7));
    assert!(mgr.open_tcp(&NET, 42, "10.3.0.5:80").is_some());
}

#[test]
fn datagram_flows_answer_and_end() {
    let mut mgr = FlowManager::new();
    mgr.set_exposes(&NET, vec![rule(53, "udp", "127.0.0.1:5353"), rule(54, "udp", "nonsense")]);
    let open = encode(11, FLAG_OPEN, &build_open(PROTO_UDP, "10.3.0.5:53"));
    for _ in 0..2 {
        match mgr.on_frame(&NET, 42, &open, None) {
            FlowAction::Send { message } => assert_eq!(flags_of(&message), (11, FLAG_OPENED_OK)),
            other => panic!("{other:?}"),
        }
    }
    let query = encode(11, FLAG_DATAGRAM, &build_datagram("10.3.0.5:53", b"q"));
    match mgr.on_frame(&NET, 42, &query, Some(0x0a030005)) {
        FlowAction::Local { flow_id, port, dest, reply, data } => {
            assert_eq!(flow_id, 11);
            assert_eq!(port, 53);
            assert_eq!(dest, SocketAddr::V4 { ip: 0x7f000001, port: 5353 });
            assert_eq!(reply, "10.3.0.5:53");
            assert_eq!(data, b"q");
        }
        other => panic!("{other:?}"),
    }
    // A service whose address cannot be read is on this machine.
    let query = encode(11, FLAG_DATAGRAM, &build_datagram("10.3.0.5:54", b"q"));
    match mgr.on_frame(&NET, 42, &query, Some(0x0a030005)) {
        FlowAction::Local { dest, .. } => assert_eq!(dest, SocketAddr::V4 { ip: 0x7f000001, port: 54 }),
        other => panic!("{other:?}"),
    }
    // Without an own address in the network there is nothing to answer with.
    assert!(matches!(mgr.on_frame(&NET, 42, &query, None), FlowAction::Nothing));
    // A stream message ends a flow of datagrams.
    match mgr.on_frame(&NET, 42, &encode(11, FLAG_DATA, b"x"), None) {
        FlowAction::Closed { flow_id, notice } => {
            assert_eq!(flow_id, 11);
            assert_eq!(flags_of(&notice), (11, FLAG_CLOSE));
        }
        other => panic!("{other:?}"),
    }
}

#[test]
fn datagrams_come_back_to_whoever_asked() {
    let mut mgr = FlowManager::new();
    let (id, _) = mgr.open_udp(&NET, 42, "10.3.0.5:53").unwrap();
    let answer = encode(id, FLAG_DATAGRAM, &build_datagram("10.3.0.5:53", b"a"));
    match mgr.on_frame(&NET, 42, &answer, Some(1)) {
        FlowAction::Hand { flow_id, source, data } => {
            assert_eq!(flow_id, id);
            assert_eq!(source, "10.3.0.5:53");
            assert_eq!(data, b"a");
        }
        other => panic!("{other:?}"),
    }
}

#[test]
fn oversize_datagrams_are_not_sent() {
    let big = vec![0u8; FLOW_MAX_DATAGRAM + 1];
    assert!(flow_frame(&NET, 1, 2, FLAG_DATA, &big).is_none());
    assert!(flow_frame(&NET, 1, 2, FLAG_DATA, &big[1..]).is_some());
    assert!(datagram_frame(&NET, 1, 2, "10.0.0.1:1", &big).is_none());
    let m = datagram_frame(&NET, 1, 2, "10.0.0.1:1", b"d").unwrap();
    assert_eq!(m.payload, encode(2, FLAG_DATAGRAM, &build_datagram("10.0.0.1:1", b"d")));
    let m = open_frame(&NET, 1, 2, true, "10.0.0.1:1").unwrap();
    assert_eq!(m.payload, encode(2, FLAG_OPEN, &build_open(PROTO_UDP, "10.0.0.1:1")));
}

#[test]
fn garbage_asks_for_nothing() {
    let mut mgr = FlowManager::new();
    assert!(matches!(mgr.on_frame(&NET, 1, b"", None), FlowAction::Nothing));
    assert!(matches!(mgr.on_frame(&NET, 1, &encode(1, FLAG_OPEN, b"x"), None), FlowAction::Nothing));
    assert!(matches!(mgr.on_frame(&NET, 1, &encode(1, FLAG_DATA, b"x"), None), FlowAction::Nothing));
    assert!(matches!(mgr.close_flow(1, true), FlowAction::Nothing));
}
