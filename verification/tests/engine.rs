use std::collections::HashMap;

use starskiff::addr::{parse_socket, SocketAddr};
use starskiff::consts::{FLOW_CHUNK, FLOW_CHUNK_UDP};
use starskiff::crypto::node_keys::NodeKeys;
use starskiff::engine::{InboundEvent, Mesh};
use starskiff::flows::FlowManager;
use starskiff::heartbeat::{heartbeat_request, Heartbeat};
use starskiff::ipam::{subnets_overlap, Cidr};
use starskiff::models::{
    ClientMode, DeviceSettings, ExposeRule, ForwardRule, HeartbeatResponse, NetId, NetworkExposes, PathPolicy,
    PeerInfo, PeerPolicy,
};
use starskiff::node::Node;
use starskiff::protocol::wire::{RawFrame, FRAME_DATA};
use starskiff::runtime::{
    check_networks, default_listen, effective_listen_addrs, packet_destination, parse_listen_url, react, relay_host,
    Applied, Reaction, RefreshGate, RelayHost, Runtime, StopReason, StopState,
};
use starskiff::session::{Arrival, DropReason, PathKind, Route, TcpProbe};
use starskiff::status::{network_status, no_peers_line, overlap_warnings, stats_line, status_report, uptime_secs};
use starskiff::ws_events;

const NET: NetId = NetId([4; 16]);
const OTHER: NetId = NetId([5; 16]);
const NOW: i64 = 1_700_000_000_000;

fn addr(s: &str) -> SocketAddr {
    parse_socket(s).unwrap()
}

fn info(network: NetId, device_id: u64, ip: &str, keys: &NodeKeys) -> PeerInfo {
    PeerInfo {
        device_id,
        name: format!("peer-{device_id}"),
        network_id: network,
        ip: ip.to_string(),
        sign_pubkey: keys.sign_public_hex(),
        dh_pubkey: keys.dh_public_hex(),
        udp_endpoints: vec!["203.0.113.9:4000".to_string(), "0.0.0.0:1".to_string(), "junk".to_string()],
        tcp_listen_port: Some(24933),
        online: true,
    }
}

/// Two nodes that know each other, as devices 1 and 2.
fn pair() -> (Mesh, Mesh) {
    let ka = NodeKeys::generate();
    let kb = NodeKeys::generate();
    let mut a = Mesh::new(1, ka.dh_secret, ka.dh_public);
    let mut b = Mesh::new(2, kb.dh_secret, kb.dh_public);
    a.set_network(&NET, "net", "10.0.0.0/24", "10.0.0.1");
    b.set_network(&NET, "net", "10.0.0.0/24", "10.0.0.2");
    let r = a.refresh_network(&NET, &vec![info(NET, 2, "10.0.0.2", &kb)]);
    assert_eq!(r.joined, vec![2]);
    b.refresh_network(&NET, &vec![info(NET, 1, "10.0.0.1", &ka)]);
    (a, b)
}

#[test]
fn frames_travel_between_nodes() {
    let (mut a, mut b) = pair();
    let out = a.send(&NET, 2, FRAME_DATA, b"packet", false, NOW).unwrap();
    assert!(matches!(out.route, Route::RelayUdp));
    let got = b.handle_frame(Arrival::RelayUdp, &out.frame, NOW).unwrap();
    assert_eq!(got.peer, 1);
    assert_eq!(got.network, NET);
    match got.event {
        InboundEvent::Data { payload } => assert_eq!(payload, b"packet"),
        other => panic!("{other:?}"),
    }
    // A frame is taken once.
    assert!(b.handle_frame(Arrival::RelayUdp, &out.frame, NOW).is_none());
    let out = a.send_flow_payload(&NET, 2, b"flow", false, NOW).unwrap();
    match b.handle_frame(Arrival::RelayUdp, &out.frame, NOW).unwrap().event {
        InboundEvent::Flow { payload } => assert_eq!(payload, b"flow"),
        other => panic!("{other:?}"),
    }
    assert!(a.send(&NET, 3, FRAME_DATA, b"x", false, NOW).is_none());
    assert!(a.send(&OTHER, 2, FRAME_DATA, b"x", false, NOW).is_none());
    a.stop();
    assert!(a.send(&NET, 2, FRAME_DATA, b"x", false, NOW).is_none());
    // A node that stops still looks for direct paths, but sends nothing else.
    let plan = a.probe(&NET, 2, false, NOW).unwrap();
    assert!(plan.route.is_none());
    assert!(!plan.udp_targets.is_empty());
}

#[test]
fn frames_are_sealed_while_the_node_stops() {
    let (mut a, _) = pair();
    let counter = |frame: &[u8]| RawFrame::try_parse(frame).unwrap().counter();
    let first = a.send(&NET, 2, FRAME_DATA, b"x", false, NOW).unwrap();
    a.stop();
    // What is sealed goes nowhere, and its counter is used up.
    assert!(a.send(&NET, 2, FRAME_DATA, b"x", false, NOW).is_none());
    let plan = a.probe(&NET, 2, false, NOW).unwrap();
    assert_eq!(counter(&plan.ping), counter(&first.frame) + 2);
}

#[test]
fn networks_are_apart() {
    let ka = NodeKeys::generate();
    let kb = NodeKeys::generate();
    let mut a = Mesh::new(1, ka.dh_secret, ka.dh_public);
    let mut b = Mesh::new(2, kb.dh_secret, kb.dh_public);
    for net in [NET, OTHER] {
        a.set_network(&net, "net", "10.0.0.0/24", "10.0.0.1");
        b.set_network(&net, "net", "10.0.0.0/24", "10.0.0.2");
        a.refresh_network(&net, &vec![info(net, 2, "10.0.0.2", &kb)]);
        b.refresh_network(&net, &vec![info(net, 1, "10.0.0.1", &ka)]);
    }
    for net in [NET, OTHER, NET] {
        let out = a.send(&net, 2, FRAME_DATA, b"packet", false, NOW).unwrap();
        assert_eq!(b.handle_frame(Arrival::RelayUdp, &out.frame, NOW).unwrap().network, net);
        // It does not come again, in this network or in the other.
        assert!(b.handle_frame(Arrival::RelayUdp, &out.frame, NOW).is_none());
    }
    // Without the network that it belongs to, a frame opens nowhere.
    let out = a.send(&NET, 2, FRAME_DATA, b"packet", false, NOW).unwrap();
    b.refresh_network(&NET, &Vec::new());
    assert!(b.handle_frame(Arrival::RelayUdp, &out.frame, NOW).is_none());
}

#[test]
fn list_that_comes_again_changes_nothing() {
    let (ka, kb, kc) = (NodeKeys::generate(), NodeKeys::generate(), NodeKeys::generate());
    let mut a = Mesh::new(1, ka.dh_secret, ka.dh_public);
    let mut b = Mesh::new(2, kb.dh_secret, kb.dh_public);
    a.set_network(&NET, "net", "10.0.0.0/24", "10.0.0.1");
    b.set_network(&NET, "net", "10.0.0.0/24", "10.0.0.2");
    let list = vec![info(NET, 2, "10.0.0.2", &kb), info(NET, 3, "10.0.0.3", &kc)];
    b.refresh_network(&NET, &vec![info(NET, 1, "10.0.0.1", &ka)]);
    assert_eq!(a.refresh_network(&NET, &list).joined, vec![2, 3]);
    let first = a.send(&NET, 2, FRAME_DATA, b"one", false, NOW).unwrap();
    let again = a.refresh_network(&NET, &list);
    assert!(again.joined.is_empty());
    assert!(again.left.is_empty());
    // The session goes on: frames from before and after open at the peer.
    let second = a.send(&NET, 2, FRAME_DATA, b"two", false, NOW).unwrap();
    assert!(b.handle_frame(Arrival::RelayUdp, &second.frame, NOW).is_some());
    assert!(b.handle_frame(Arrival::RelayUdp, &first.frame, NOW).is_some());
}

#[test]
fn answered_probe_brings_the_direct_path_up() {
    let (mut a, mut b) = pair();
    let plan = a.probe(&NET, 2, false, NOW).unwrap();
    assert_eq!(plan.udp_targets[0], addr("203.0.113.9:4000"));
    assert_eq!(plan.udp_targets.len(), 9);
    assert_eq!(plan.route, Some(Route::RelayUdp));
    match plan.tcp {
        Some(TcpProbe::Connect { targets }) => assert_eq!(targets, vec![addr("203.0.113.9:24933")]),
        other => panic!("{other:?}"),
    }
    let from = addr("198.51.100.1:5");
    let local = addr("0.0.0.0:24933");
    let pong = match b
        .handle_frame(Arrival::DirectUdp { from: local, local: from }, &plan.ping, NOW)
        .unwrap()
        .event
    {
        InboundEvent::Reply { frame } => frame,
        other => panic!("{other:?}"),
    };
    let got = a.handle_frame(Arrival::DirectUdp { from, local }, &pong, NOW + 20).unwrap();
    assert!(matches!(got.event, InboundEvent::Pong { .. }));
    let status = a.peer_status(&NET, 2, None).unwrap();
    assert_eq!(status.path, "DirectUdp");
    assert_eq!(status.rtt_ms, 20);
    assert_eq!(status.endpoint, "relay");
    assert_eq!(a.learned_endpoint(&NET, 2), Some(from));
    let out = a.send(&NET, 2, FRAME_DATA, b"x", false, NOW + 30).unwrap();
    assert_eq!(out.route, Route::DirectFrom { local, to: from });
    assert_eq!(a.flow_chunk_for(&NET, 2), FLOW_CHUNK_UDP);
    // Half a minute of silence, and the relay takes over again.
    let plan = a.probe(&NET, 2, false, NOW + 20 + 30_001).unwrap();
    assert_eq!(plan.lost, Some(PathKind::DirectUdp));
    assert_eq!(a.peer_status(&NET, 2, None).unwrap().path, "RelayUdp");
}

#[test]
fn links_carry_frames_once_attached() {
    let (mut a, mut b) = pair();
    assert!(a.attach_peer_tcp(&NET, 2, 7));
    assert!(!a.attach_peer_tcp(&NET, 2, 7));
    assert!(!a.attach_peer_tcp(&NET, 9, 7));
    assert_eq!(a.link_of(&NET, 2), Some(7));
    assert_eq!(a.flow_chunk_for(&NET, 2), FLOW_CHUNK);
    let out = a.send(&NET, 2, FRAME_DATA, b"x", true, NOW).unwrap();
    assert_eq!(out.route, Route::Link { conn: 7 });
    assert_eq!(a.link_sent(&NET, 2, true, out.frame.len(), NOW), None);
    assert_eq!(a.link_sent(&NET, 2, false, out.frame.len(), NOW), Some(1));
    // A closed link leaves the relay to an automatic policy.
    let out = a.send(&NET, 2, FRAME_DATA, b"x", false, NOW).unwrap();
    assert_eq!(out.route, Route::RelayUdp);
    let ping = a.link_ping(&NET, 2, NOW).unwrap();
    let got = b.handle_frame(Arrival::DirectTcp { conn: 3 }, &ping, NOW).unwrap();
    assert!(got.link_risen);
    assert!(matches!(got.event, InboundEvent::Reply { .. }));
    assert!(a.link_ping(&NET, 9, NOW).is_none());
}

#[test]
fn policies_bind_the_routes() {
    let (mut a, _) = pair();
    let over = |p: PathPolicy| vec![PeerPolicy { device_id: "2".to_string(), policy: p }];
    let (skipped, warm) = a.set_policies(
        PathPolicy::Auto,
        &vec![
            PeerPolicy { device_id: "x".to_string(), policy: PathPolicy::RelayTcp },
            PeerPolicy { device_id: "2".to_string(), policy: PathPolicy::RelayTcp },
        ],
    );
    assert_eq!(skipped, vec!["x"]);
    assert!(warm);
    assert_eq!(a.policy_for(2), PathPolicy::RelayTcp);
    assert_eq!(a.policy_for(3), PathPolicy::Auto);
    let out = a.send(&NET, 2, FRAME_DATA, b"x", false, NOW).unwrap();
    assert_eq!(out.route, Route::RelayTcp { fallback: false });
    a.set_policies(PathPolicy::Auto, &over(PathPolicy::DirectTcp));
    let out = a.send(&NET, 2, FRAME_DATA, b"x", false, NOW).unwrap();
    assert_eq!(out.route, Route::Drop { reason: DropReason::DirectTcpNoConn });
    assert_eq!(out.logged, Some(1));
    a.set_policies(PathPolicy::DirectAny, &vec![]);
    let out = a.send(&NET, 2, FRAME_DATA, b"x", false, NOW).unwrap();
    assert!(matches!(out.route, Route::Direct { .. } | Route::Drop { .. }));
    assert!(out.logged.is_none());
    let (_, warm) = a.set_policies(PathPolicy::RelayUdp, &vec![]);
    assert!(!warm);
    let out = a.send(&NET, 2, FRAME_DATA, b"x", true, NOW).unwrap();
    assert_eq!(out.route, Route::RelayUdp);
}

#[test]
fn refresh_follows_the_list_and_prune_the_roster() {
    let ka = NodeKeys::generate();
    let kb = NodeKeys::generate();
    let mut node = Node {
        mesh: Mesh::new(1, ka.dh_secret, ka.dh_public),
        flows: FlowManager::new(),
        runtime: Runtime::start(&DeviceSettings::default()),
        heartbeat: Heartbeat::new(),
        stop: StopState::new(),
    };
    node.mesh.set_network(&NET, "one", "10.0.0.0/24", "10.0.0.1");
    node.mesh.set_network(&OTHER, "two", "10.0.0.0/16", "bad");
    let mut bad = info(NET, 8, "10.0.0.8", &kb);
    bad.dh_pubkey = "zz".to_string();
    node.refresh(&NET, &vec![info(NET, 2, "10.0.0.2", &kb), info(NET, 3, "10.0.0.3", &kb), bad]);
    node.refresh(&OTHER, &vec![info(OTHER, 2, "10.0.1.2", &kb)]);
    assert_eq!(node.mesh.peer_list().len(), 3);
    assert_eq!(node.mesh.peer_by_ip(0x0a000003), Some((NET, 3)));
    assert_eq!(node.mesh.peer_by_ip(0x0a000102), Some((OTHER, 2)));
    assert_eq!(node.mesh.peer_by_ip(0x0a000008), None);
    let (gone, _) = node.flows.open_udp(&NET, 3, "10.0.0.3:1").unwrap();
    let (kept, _) = node.flows.open_udp(&OTHER, 2, "10.0.1.2:1").unwrap();
    let (report, closed) = node.refresh(&NET, &vec![info(NET, 2, "10.0.0.22", &kb)]);
    assert!(report.joined.is_empty());
    assert_eq!(report.left, vec![(3, None)]);
    assert_eq!(closed.len(), 1);
    assert_eq!(closed[0].0, gone);
    assert!(node.flows.has_flow(kept));
    assert_eq!(node.mesh.peer_by_ip(0x0a000016), Some((NET, 2)));
    assert_eq!(node.mesh.peer_by_ip(0x0a000002), None);

    let warnings = overlap_warnings(&node.mesh.network_list());
    assert_eq!(warnings.len(), 1);
    assert!(warnings[0].ends_with("网段重叠，虚拟 IP 解析将取先命中者"));
    assert_eq!(node.mesh.self_ip_of(&NET), Some(0x0a000001));
    assert_eq!(node.mesh.self_ip_of(&OTHER), None);

    assert!(node.runtime.reconcile(vec![NET.number()]));
    assert!(!node.runtime.reconcile(vec![NET.number(), NET.number()]));
    assert!(node.runtime.restart_pending);
    let ended = node.prune();
    assert_eq!(ended.len(), 1);
    assert_eq!(ended[0].0.name, "two");
    assert_eq!(ended[0].1[0].0, kept);
    assert!(!node.flows.has_flow(kept));
    assert!(node.mesh.has_network(&NET));
    assert!(!node.mesh.has_network(&OTHER));
    assert_eq!(node.mesh.peer_list().len(), 1);
    assert_eq!(node.mesh.network_name(&NET), "one");
    assert_eq!(node.mesh.network_name(&OTHER), OTHER.to_hex());
}

#[test]
fn settings_are_applied_once_and_restarts_are_not_acknowledged() {
    let k = NodeKeys::generate();
    let mut node = Node {
        mesh: Mesh::new(1, k.dh_secret, k.dh_public),
        flows: FlowManager::new(),
        runtime: Runtime::start(&DeviceSettings { revision: 4, ..DeviceSettings::default() }),
        heartbeat: Heartbeat::new(),
        stop: StopState::new(),
    };
    node.mesh.set_network(&NET, "one", "10.0.0.0/24", "10.0.0.1");
    assert_eq!(node.runtime.applied_revision, 4);
    let old = DeviceSettings { revision: 4, mtu: Some(1), ..DeviceSettings::default() };
    assert_eq!(node.apply_settings(&old).applied, Applied::Known);
    let hot = DeviceSettings {
        revision: 5,
        path_policy: Some(PathPolicy::RelayTcp),
        mtu: Some(1300),
        socks_listen: Some("127.0.0.1:1080".to_string()),
        exposes: Some(vec![
            NetworkExposes {
                network_id: NET,
                rules: vec![ExposeRule { port: 80, proto: "tcp".to_string(), dest: "127.0.0.1:80".to_string() }],
            },
            NetworkExposes { network_id: OTHER, rules: vec![] },
        ]),
        ..DeviceSettings::default()
    };
    let report = node.apply_settings(&hot);
    assert_eq!(report.applied, Applied::InForce);
    assert!(report.relay_tcp);
    assert_eq!(node.runtime.applied_revision, 5);
    assert!(!node.stop.stopping);
    for change in [
        DeviceSettings { mtu: Some(1400), ..DeviceSettings::default() },
        DeviceSettings { socks_listen: Some(String::new()), ..DeviceSettings::default() },
        DeviceSettings { mode: Some(ClientMode::Tun), ..DeviceSettings::default() },
        DeviceSettings { listen: Some(vec!["udp://0.0.0.0:1".to_string()]), ..DeviceSettings::default() },
        DeviceSettings {
            forwards: Some(vec![ForwardRule {
                listen: "127.0.0.1:1".to_string(),
                proto: "tcp".to_string(),
                dest: "10.0.0.1:1".to_string(),
            }]),
            ..DeviceSettings::default()
        },
    ] {
        let mut r = Runtime::start(&DeviceSettings::default());
        assert_eq!(r.apply(&DeviceSettings { revision: 1, ..change }), Applied::Restart);
        assert!(r.restart_pending);
        assert_eq!(r.applied_revision, 0);
    }
    // An empty list of listen addresses asks for the default ones, as before.
    let mut r = Runtime::start(&DeviceSettings::default());
    let same = DeviceSettings { revision: 1, listen: Some(vec![]), ..DeviceSettings::default() };
    assert_eq!(r.apply(&same), Applied::InForce);
    assert!(!r.restart_pending);
    assert_eq!(r.applied_revision, 1);
    // A node on addresses of its own goes back to the default ones.
    let own = DeviceSettings { listen: Some(vec!["udp://10.0.0.1:5000".to_string()]), ..DeviceSettings::default() };
    let mut r = Runtime::start(&own);
    let same = DeviceSettings { revision: 1, listen: Some(vec![]), ..DeviceSettings::default() };
    assert_eq!(r.apply(&same), Applied::Restart);
    assert!(r.restart_pending);
    assert_eq!(r.applied_revision, 0);
    let cold = DeviceSettings { revision: 6, mtu: Some(1400), ..DeviceSettings::default() };
    assert_eq!(node.apply_settings(&cold).applied, Applied::Restart);
    assert_eq!(node.runtime.applied_revision, 5);
    assert!(node.stop.stopping);
    assert_eq!(node.stop.exit_code(), 3);
}

#[test]
fn first_stop_reason_stands() {
    let mut s = StopState::new();
    assert!(s.request_stop(StopReason::Stopped));
    assert!(!s.request_stop(StopReason::Restart));
    assert_eq!(s.exit_code(), 0);
}

#[test]
fn one_refresh_runs_at_a_time() {
    let mut g = RefreshGate::new();
    assert!(g.ask());
    assert!(g.next_round());
    assert!(!g.ask());
    assert!(g.next_round());
    assert!(!g.next_round());
    assert!(g.ask());
}

#[test]
fn listen_addresses_are_grouped() {
    assert_eq!(default_listen(), vec!["udp://0.0.0.0:24933", "tcp://0.0.0.0:24933"]);
    let with = |list: &[&str]| DeviceSettings {
        listen: Some(list.iter().map(|s| s.to_string()).collect()),
        ..DeviceSettings::default()
    };
    let l = effective_listen_addrs(&with(&["tcp://1.2.3.4:5", "udp://[::]:6", "udp://1.2.3.4:7"])).unwrap();
    assert_eq!(l.udp, vec![addr("[::]:6"), addr("1.2.3.4:7")]);
    assert_eq!(l.tcp, vec![addr("1.2.3.4:5")]);
    assert_eq!(l.raw.len(), 3);
    assert_eq!(effective_listen_addrs(&with(&[])).unwrap().raw, default_listen());
    assert_eq!(effective_listen_addrs(&with(&["tcp://1.2.3.4:5"])).unwrap_err(), "监听列表中没有任何 UDP 地址");
    assert!(effective_listen_addrs(&with(&["udp://1.2.3.4:5", "x"])).unwrap_err().contains("（x）"));
    assert!(parse_listen_url("http://1.2.3.4:5").is_err());
    assert!(check_networks(ClientMode::Proxy, 3).is_ok());
    assert!(check_networks(ClientMode::Tun, 1).is_ok());
    assert!(check_networks(ClientMode::Tun, 2).unwrap_err().contains("包含 2 个网络"));
    assert_eq!(check_networks(ClientMode::Proxy, 0).unwrap_err(), "配置中没有网络");
}

#[test]
fn identity_errors_are_told_apart() {
    let keys = NodeKeys::generate();
    let settings = DeviceSettings::default();
    let answer = starskiff::models::EnrollResponse {
        device_id: 1,
        device_token: "t".to_string(),
        network_id: NET,
        network_name: "n".to_string(),
        cidr: String::new(),
        ip: String::new(),
        mtu: 1300,
    };
    let cfg = || starskiff::enroll::enrolled_config("http://h", "n", &answer, &keys, None);
    let why = |c: &starskiff::models::NodeConfig| match starskiff::runtime::plan_startup(c, &settings) {
        Ok(_) => String::new(),
        Err(e) => e,
    };
    assert_eq!(why(&cfg()), "");
    let mut c = cfg();
    c.server = " \t".to_string();
    assert_eq!(why(&c), "配置缺少 server");
    let mut c = cfg();
    c.identity.dh_private_key = starskiff::secret::Secret::new("zz".to_string());
    assert_eq!(why(&c), "身份中的 DH 私钥无效");
    let mut c = cfg();
    c.identity.dh_private_key = starskiff::secret::Secret::new("aa".to_string());
    assert_eq!(why(&c), "身份中的 DH 私钥不是 32 字节");
    let mut c = cfg();
    c.identity.dh_public_key = "a".to_string();
    assert_eq!(why(&c), "身份中的 DH 公钥无效");
    let mut c = cfg();
    c.identity.dh_public_key = "aa".to_string();
    assert_eq!(why(&c), "身份中的 DH 公钥不是 32 字节");
}

#[test]
fn events_lead_to_reactions() {
    assert_eq!(react(ws_events::CONNECTED), Reaction::CatchUp);
    assert_eq!(react(ws_events::PEERS_CHANGED), Reaction::RefreshPeers);
    assert_eq!(react(ws_events::DEVICE_ONLINE), Reaction::RefreshPeers);
    assert_eq!(react(ws_events::DEVICE_OFFLINE), Reaction::RefreshPeers);
    assert_eq!(react(ws_events::SETTINGS_CHANGED), Reaction::TakeSettings);
    assert_eq!(react(ws_events::RECONNECT_REQUESTED), Reaction::Reconnect);
    assert_eq!(react(ws_events::NETWORKS_CHANGED), Reaction::TakeRoster);
    assert_eq!(react(ws_events::RESTART_REQUESTED), Reaction::Restart);
    assert_eq!(react(ws_events::CONFIG_CHANGED), Reaction::TakeConfig);
    assert_eq!(react("else"), Reaction::Nothing);
}

#[test]
fn relay_is_found_in_the_server_address() {
    let host = |s: &str| match relay_host(s) {
        RelayHost::Address(ip) => format!("{ip:08x}"),
        RelayHost::Name(n) => n,
    };
    assert_eq!(host("https://10.0.0.1:24930/x"), "0a000001");
    assert_eq!(host("http://0.0.0.0:1"), "7f000001");
    assert_eq!(host("https://vpn.example.com/a:b"), "vpn.example.com");
    assert_eq!(host("https://https://a"), "a");
    assert_eq!(host("http://"), "");
}

#[test]
fn packets_have_destinations() {
    let mut p = vec![0u8; 20];
    assert_eq!(packet_destination(&p), None);
    p[0] = 0x45;
    p[16] = 10;
    p[19] = 7;
    assert_eq!(packet_destination(&p), Some(0x0a000007));
    assert_eq!(packet_destination(&p[..19]), None);
}

#[test]
fn heartbeats_follow_the_server() {
    let mut hb = Heartbeat::new();
    assert_eq!(hb.interval(), 15);
    let answer = |secs: u32| HeartbeatResponse { observed_udp_endpoint: None, heartbeat_secs: secs };
    let c = hb.on_response(answer(1));
    assert_eq!(c.interval, Some((15, 5)));
    assert_eq!(c.recovered, None);
    let c = hb.on_response(HeartbeatResponse {
        observed_udp_endpoint: Some("1.2.3.4:5".to_string()),
        heartbeat_secs: 5,
    });
    assert_eq!(c.interval, None);
    assert_eq!(hb.observed_endpoint.as_deref(), Some("1.2.3.4:5"));
    assert_eq!(hb.on_error(NOW), Some(1));
    assert_eq!(hb.on_error(NOW + 60_000), None);
    assert_eq!(hb.on_error(NOW + 60_001), Some(3));
    let c = hb.on_response(answer(1000));
    assert_eq!(c.recovered, Some(3));
    assert_eq!(hb.interval(), 60);
    let req = heartbeat_request(vec![], 24933, 0, vec![], 7, true, ClientMode::Proxy, "v".to_string());
    assert_eq!(req.listen_udp_port, Some(24933));
    assert_eq!(req.listen_tcp_port, None);
    assert_eq!(req.settings_revision, Some(7));
    assert_eq!(req.proto_version, Some(1));
}

#[test]
fn reports_cover_the_peers_that_answered() {
    let (mut a, mut b) = pair();
    let (paths, next) = a.path_reports(&HashMap::new(), None);
    assert!(paths.is_empty());
    assert!(next.is_empty());
    let plan = a.probe(&NET, 2, false, NOW).unwrap();
    let pong = match b.handle_frame(Arrival::RelayUdp, &plan.ping, NOW).unwrap().event {
        InboundEvent::Reply { frame } => frame,
        other => panic!("{other:?}"),
    };
    a.handle_frame(Arrival::RelayUdp, &pong, NOW + 5).unwrap();
    let (paths, next) = a.path_reports(&HashMap::new(), None);
    assert_eq!(paths.len(), 1);
    assert_eq!(paths[0].device_id, 2);
    assert_eq!(paths[0].path, "RelayUdp");
    assert_eq!(paths[0].rtt_ms, Some(5));
    assert_eq!(paths[0].tx_bps, None);
    assert_eq!(paths[0].rx_loss, None);
    let c = next[&2];
    assert_eq!((c.rx_seen, c.rx_lost), (1, 0));
    let sent = a.send(&NET, 2, FRAME_DATA, &[0; 100], false, NOW).unwrap().frame.len() as u64;
    let (paths, _) = a.path_reports(&next, Some(2_000));
    assert_eq!(paths[0].tx_bps, Some(sent * 1000 / 2000));
    assert_eq!(paths[0].rx_bps, Some(0));
}

#[test]
fn status_is_put_into_words() {
    let (mut a, _) = pair();
    let p = a.peer_status(&NET, 2, Some("1.2.3.4:5".to_string())).unwrap();
    assert_eq!(
        stats_line(&p, 61),
        "STATS peer=peer-2 net=net ip=10.0.0.2 online=true path=RelayUdp ep=1.2.3.4:5 rtt_ms=-1 tx=0 rx=0 tx_pkts=0 rx_pkts=0 uptime_s=61"
    );
    assert_eq!(no_peers_line(-3), "STATS peers=0 uptime_s=-3");
    assert_eq!(uptime_secs(1_000, 62_999), 61);
    assert_eq!(uptime_secs(62_999, 1_000), -61);
    let n = network_status("net", Some(0x0a000001), &Some(Cidr::parse("10.0.0.0/24").unwrap()));
    assert_eq!((n.ip.as_str(), n.cidr.as_str()), ("10.0.0.1", "10.0.0.0/24"));
    let rules = vec![ForwardRule {
        listen: "127.0.0.1:1".to_string(),
        proto: "udp".to_string(),
        dest: "10.0.0.2:2".to_string(),
    }];
    let r = status_report(7, 1, 2, "http://h", "proxy", vec![n], 24933, None, 1080, &rules, vec![p]);
    assert!(r.running);
    assert_eq!(r.socks.as_deref(), Some("127.0.0.1:1080"));
    assert_eq!(r.forwards, vec!["udp 127.0.0.1:1->10.0.0.2:2"]);
    let c = |s: &str| Cidr::parse(s).unwrap();
    assert!(subnets_overlap(&c("10.0.0.0/8"), &c("10.1.0.0/16")));
    assert!(!subnets_overlap(&c("10.0.0.0/16"), &c("10.1.0.0/16")));
}
