use starskiff::addr::{parse_socket, SocketAddr};
use starskiff::models::{ForwardRule, NetId};
use starskiff::proxy::forwarders::{plan_rule, virtual_target, ClientTable, UDP_IDLE_MS};
use starskiff::proxy::socks5::{
    command_of, greeting_reply, method_count, parse_listen, parse_socks_udp_header, read_ip, read_port, reply,
    target_form, wrap_datagram, SocksCommand, TargetForm, UdpAssociation, REPLY_OK, REPLY_UNSUPPORTED,
};

fn addr(s: &str) -> SocketAddr {
    parse_socket(s).unwrap()
}

#[test]
fn socks_listen_forms() {
    assert_eq!(parse_listen("127.0.0.1:1080").unwrap(), addr("127.0.0.1:1080"));
    assert_eq!(parse_listen("[::1]:1080").unwrap(), addr("[::1]:1080"));
    assert_eq!(parse_listen("0").unwrap(), addr("127.0.0.1:0"));
    assert_eq!(parse_listen("1080").unwrap(), addr("127.0.0.1:1080"));
    assert_eq!(parse_listen("x").unwrap_err(), "无效的 SOCKS 监听地址 x");
    assert!(parse_listen("65536").is_err());
}

#[test]
fn socks_handshake() {
    assert_eq!(method_count(&[5, 3]).unwrap(), 3);
    assert_eq!(method_count(&[4, 3]).unwrap_err(), "not socks5");
    assert_eq!(greeting_reply(), vec![5, 0]);
    assert_eq!(target_form(&[5, 1, 0, 1]).unwrap(), TargetForm::Address);
    assert_eq!(target_form(&[5, 1, 0, 3]).unwrap(), TargetForm::Name);
    assert_eq!(target_form(&[5, 1, 0, 4]).unwrap_err(), "IPv6 targets unsupported");
    assert_eq!(target_form(&[5, 1, 0, 9]).unwrap_err(), "bad atyp");
    assert_eq!(command_of(&[5, 1, 0, 1]), SocksCommand::Connect);
    assert_eq!(command_of(&[5, 3, 0, 1]), SocksCommand::UdpAssociate);
    assert_eq!(command_of(&[5, 2, 0, 1]), SocksCommand::Unsupported);
    assert_eq!(reply(REPLY_OK, 0x0a0b0c0d, 0x1234), vec![5, 0, 0, 1, 10, 11, 12, 13, 0x12, 0x34]);
    assert_eq!(reply(REPLY_UNSUPPORTED, 0, 0), vec![5, 7, 0, 1, 0, 0, 0, 0, 0, 0]);
    assert_eq!(read_ip(&[10, 11, 12, 13]), 0x0a0b0c0d);
    assert_eq!(read_port(&[0x12, 0x34]), 0x1234);
}

#[test]
fn socks_datagram_round_trip() {
    let packet = wrap_datagram("10.11.12.13:4660", b"data").unwrap();
    assert_eq!(&packet[..10], &[0, 0, 0, 1, 10, 11, 12, 13, 0x12, 0x34]);
    let (ip, port, data) = parse_socks_udp_header(&packet).unwrap();
    assert_eq!((ip, port, data), (0x0a0b0c0d, 4660, &b"data"[..]));
    assert!(wrap_datagram("[::1]:5", b"").is_none());
    assert!(wrap_datagram("name:5", b"").is_none());
    // Fragments, names and short packets are not taken.
    assert!(parse_socks_udp_header(&[0, 0, 1, 1, 1, 2, 3, 4, 0, 5]).is_none());
    assert!(parse_socks_udp_header(&[0, 0, 0, 3, 1, b'a', 0, 5, 0, 0]).is_none());
    assert!(parse_socks_udp_header(&[0, 0, 0, 1, 1, 2, 3, 4, 0]).is_none());
}

#[test]
fn associations_keep_one_flow_per_peer_and_network() {
    let a = NetId([1; 16]);
    let b = NetId([2; 16]);
    let mut assoc = UdpAssociation::new();
    let packet = wrap_datagram("10.0.0.1:53", b"q").unwrap();
    assert!(assoc.on_datagram(&addr("127.0.0.1:4000"), &packet).is_some());
    assert!(assoc.on_datagram(&addr("127.0.0.1:5000"), b"junk").is_none());
    assert_eq!(assoc.client, Some(addr("127.0.0.1:4000")));
    assert_eq!(assoc.flow_for(&a, 7), None);
    assoc.add_flow(&a, 7, 100);
    assoc.add_flow(&b, 7, 200);
    assert_eq!(assoc.flow_for(&a, 7), Some(100));
    assert_eq!(assoc.flow_for(&b, 7), Some(200));
    assert_eq!(assoc.flow_for(&b, 8), None);
}

#[test]
fn silent_clients_lose_their_flow() {
    let mut t = ClientTable::new();
    assert_eq!(t.touch(&addr("1.1.1.1:1"), 0), None);
    t.insert(&addr("1.1.1.1:1"), 10, 1_000);
    t.insert(&addr("1.1.1.1:2"), 20, 1_000);
    assert_eq!(t.touch(&addr("1.1.1.1:2"), 2_000), Some(20));
    assert!(t.sweep(1_000 + UDP_IDLE_MS - 1).is_empty());
    assert_eq!(t.sweep(1_000 + UDP_IDLE_MS), vec![10]);
    assert_eq!(t.touch(&addr("1.1.1.1:1"), 0), None);
    assert_eq!(t.touch(&addr("1.1.1.1:2"), 0), Some(20));
    // Addresses that look alike are apart.
    t.insert(&addr("[::1]:2"), 30, 0);
    t.insert(&addr("[::1:0]:2"), 40, 0);
    assert_eq!(t.touch(&addr("[::1]:2"), UDP_IDLE_MS), Some(30));
    assert_eq!(t.touch(&addr("0.0.0.1:2"), 0), None);
    let mut ended = t.sweep(UDP_IDLE_MS);
    ended.sort();
    assert_eq!(ended, vec![20, 40]);
    // A client that comes again takes the place of its older entry.
    t.insert(&addr("[::1]:2"), 50, UDP_IDLE_MS);
    assert_eq!(t.touch(&addr("[::1]:2"), UDP_IDLE_MS), Some(50));
    assert_eq!(t.sweep(2 * UDP_IDLE_MS), vec![50]);
}

#[test]
fn forward_rules_are_read() {
    let rule = |proto: &str, listen: &str, dest: &str| ForwardRule {
        listen: listen.to_string(),
        proto: proto.to_string(),
        dest: dest.to_string(),
    };
    let p = plan_rule(&rule("udp", "127.0.0.1:1", "10.0.0.1:2")).unwrap();
    assert!(p.udp);
    assert_eq!(virtual_target(&p.dest), Some(0x0a000001));
    let p = plan_rule(&rule("tcp", "127.0.0.1:1", "[::1]:2")).unwrap();
    assert!(!p.udp);
    assert_eq!(virtual_target(&p.dest), None);
    assert!(plan_rule(&rule("tcp", "127.0.0.1", "10.0.0.1:2")).is_none());
}
