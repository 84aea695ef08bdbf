use starskiff::addr::{ipv4_to_text, parse_ipv4, parse_socket, parse_u64, signed_text, socket_v4_to_text, SocketAddr};
use starskiff::crypto::session_keys::{precedes, session_info, SessionKeys};
use starskiff::crypto::tokens::{make_admin_token, make_device_token, sha256_hex, token_of, with_fingerprint};
use starskiff::ipam::{Cidr, IpPool};
use starskiff::logging::{
    clock_ms, days_from_civil, log_cutoff_days, log_file_for, log_file_is_stale, log_file_prefix, log_file_suffix,
    millis_of, time_prefix, unix_ms, utc_date_string, utc_time_prefix,
};
use starskiff::models::{
    default_listen_port, default_mode, default_mtu, default_proto, parse_virtual_dest, ClientMode, DeviceSettings,
    ExposeRule, ForwardRule, Identity, NetId, NetworkExposes, NodeConfig,
};
use starskiff::protocol::relay_udp::{build_register_with, relay_key_from_token};
use starskiff::protocol::wire::{PacketCodec, FRAME_DATA};
use starskiff::secret::{decode, sealed_blob, sealed_text, Secret};
use starskiff::secretbox::is_sealed;
use starskiff::text::{split_words, trim};

fn forward(listen: &str, proto: &str, dest: &str) -> ForwardRule {
    ForwardRule { listen: listen.to_string(), proto: proto.to_string(), dest: dest.to_string() }
}

fn expose(net: NetId, port: u16, proto: &str, dest: &str) -> NetworkExposes {
    NetworkExposes {
        network_id: net,
        rules: vec![ExposeRule { port, proto: proto.to_string(), dest: dest.to_string() }],
    }
}

fn example_net() -> NetId {
    NetId::from_hex("0102030405060708090a0b0c0d0e0f10").unwrap()
}

#[test]
fn device_settings_camel_case_and_defaults() {
    let s = DeviceSettings {
        revision: 3,
        force_relay: Some(true),
        socks_listen: Some(String::new()),
        exposes: Some(vec![expose(example_net(), 8080, "tcp", "127.0.0.1:9090")]),
        ..DeviceSettings::default()
    };
    assert_eq!(s.revision, 3);
    assert_eq!(s.force_relay, Some(true));
    assert_eq!(s.socks_listen.as_deref(), Some(""));
    assert_eq!(s.exposes.as_ref().unwrap()[0].rules.len(), 1);
    assert!(s.validate().is_ok());
    assert!(!s.is_empty());

    // 未托管字段缺省（None）。
    let minimal = DeviceSettings::default();
    assert!(minimal.is_empty());

    // 校验规则。
    let bad = DeviceSettings { force_relay: Some(true), force_direct: Some(true), ..DeviceSettings::default() };
    assert!(bad.validate().is_err());
    let bad = DeviceSettings { socks_listen: Some("not-an-addr".to_string()), ..DeviceSettings::default() };
    assert!(bad.validate().is_err());
    let bad = DeviceSettings {
        forwards: Some(vec![forward("1.2.3.4:x", "tcp", "10.0.0.2:80")]),
        ..DeviceSettings::default()
    };
    assert!(bad.validate().is_err());
    let bad = DeviceSettings {
        exposes: Some(vec![expose(example_net(), 80, "sctp", "127.0.0.1:80")]),
        ..DeviceSettings::default()
    };
    assert!(bad.validate().is_err());
}

fn config(server: &str) -> NodeConfig {
    NodeConfig {
        server: server.to_string(),
        mode: default_mode(),
        mtu: default_mtu(),
        data_dir: String::new(),
        listen_udp_port: default_listen_port(),
        listen_tcp_port: default_listen_port(),
        log_file: None,
        identity: Identity {
            device_id: 7,
            name: "n".to_string(),
            device_token: Secret::new("skd_t".to_string()),
            sign_public_key: "aa".to_string(),
            sign_private_key: Secret::new("bb".to_string()),
            dh_public_key: "cc".to_string(),
            dh_private_key: Secret::new("dd".to_string()),
            server_cert_pin: None,
        },
    }
}

#[test]
fn node_config_defaults_validation_and_secret_form() {
    let cfg = config("http://127.0.0.1:24930");
    assert_eq!(cfg.mode, ClientMode::Proxy);
    assert_eq!(cfg.listen_udp_port, 24933);
    assert_eq!(cfg.mtu, 1300);
    assert!(cfg.validate().is_ok());
    assert!(config("http://x").validate().is_ok());
    assert!(config("").validate().is_err());
    assert_eq!(default_proto(), "tcp");
    assert_eq!(cfg.identity.device_token.expose(), "skd_t");
    assert_eq!(cfg.identity.dh_private_key.expose(), "dd");
}

#[test]
fn every_settings_error_has_its_text() {
    let err = |s: DeviceSettings| s.validate().unwrap_err();
    let d = DeviceSettings::default;
    assert_eq!(
        err(DeviceSettings { force_relay: Some(true), force_direct: Some(true), ..d() }),
        "forceRelay 与 forceDirect 不能同时开启"
    );
    assert_eq!(err(DeviceSettings { mtu: Some(575), ..d() }), "mtu 必须在 576–65500 之间");
    assert!(DeviceSettings { mtu: Some(576), ..d() }.validate().is_ok());
    assert!(DeviceSettings { mtu: Some(65500), ..d() }.validate().is_ok());
    assert_eq!(err(DeviceSettings { mtu: Some(65501), ..d() }), "mtu 必须在 576–65500 之间");
    assert_eq!(
        err(DeviceSettings { socks_listen: Some("x".to_string()), ..d() }),
        "socksListen 不是合法的 ip:port（x）"
    );
    let many = (0..65).map(|_| forward("127.0.0.1:1", "tcp", "10.0.0.1:1")).collect();
    assert_eq!(err(DeviceSettings { forwards: Some(many), ..d() }), "forwards 最多 64 条");
    assert!(err(DeviceSettings { forwards: Some(vec![forward("127.0.0.1:1", "x", "10.0.0.1:1")]), ..d() })
        .contains("forwards[0].proto 必须是 tcp 或 udp"));
    assert!(DeviceSettings { forwards: Some(vec![forward("127.0.0.1:1", "tcp", "10.0.0.1:0")]), ..d() }.validate().is_err());
    let nets: Vec<NetworkExposes> = (0..33).map(|i| expose(NetId([i; 16]), 1, "tcp", "127.0.0.1:1")).collect();
    assert_eq!(err(DeviceSettings { exposes: Some(nets), ..d() }), "exposes 最多覆盖 32 个网络");
    let twice = vec![expose(example_net(), 1, "tcp", "127.0.0.1:1"), expose(example_net(), 2, "tcp", "127.0.0.1:1")];
    assert_eq!(err(DeviceSettings { exposes: Some(twice), ..d() }), "exposes 中存在重复的 networkId");
}

#[test]
fn virtual_destinations() {
    assert_eq!(parse_virtual_dest("10.0.0.2:80"), Some(("10.0.0.2".to_string(), 80)));
    assert_eq!(parse_virtual_dest("10.0.0.2:0"), None);
    assert_eq!(parse_virtual_dest(":80"), None);
    assert_eq!(parse_virtual_dest("10.0.0.2"), None);
}

#[test]
fn addresses_are_read_and_written() {
    assert_eq!(parse_ipv4("10.0.0.1"), Some(0x0a000001));
    assert_eq!(parse_ipv4("010.0.0.1"), None);
    assert_eq!(parse_ipv4("256.0.0.1"), None);
    assert_eq!(parse_ipv4("1.2.3"), None);
    assert_eq!(ipv4_to_text(0xc0a80164), "192.168.1.100");
    assert_eq!(parse_socket("1.2.3.4:65535"), Some(SocketAddr::V4 { ip: 0x01020304, port: 65535 }));
    assert_eq!(parse_socket("1.2.3.4:65536"), None);
    assert_eq!(
        parse_socket("[2001:db8::1]:80"),
        Some(SocketAddr::V6 { groups: [0x2001, 0xdb8, 0, 0, 0, 0, 0, 1], scope: 0, port: 80 })
    );
    assert_eq!(
        parse_socket("[::ffff:1.2.3.4%7]:80"),
        Some(SocketAddr::V6 { groups: [0, 0, 0, 0, 0, 0xffff, 0x0102, 0x0304], scope: 7, port: 80 })
    );
    assert_eq!(parse_socket("::1:80"), None);
    assert_eq!(socket_v4_to_text(0x01020304, 5), "1.2.3.4:5");
    assert_eq!(signed_text(i64::MIN), "-9223372036854775808");
    assert_eq!(signed_text(0), "0");
    assert_eq!(parse_u64("18446744073709551615"), Some(u64::MAX));
    assert_eq!(parse_u64("18446744073709551616"), None);
    assert_eq!(parse_u64("+5"), Some(5));
    assert_eq!(parse_u64(""), None);
}

#[test]
fn subnets_keep_their_edges() {
    let all = Cidr::parse("1.2.3.4/0").unwrap();
    assert_eq!((all.network, all.prefix), (0, 0));
    assert_eq!(all.broadcast(), u32::MAX);
    assert!(all.contains(12345));
    let one = Cidr::parse("1.2.3.4/32").unwrap();
    assert_eq!(one.to_string(), "1.2.3.4/32");
    assert_eq!(one.network_addr(), one.broadcast());
    assert_eq!(Cidr::mask_of(8), 0xff000000);
    assert_eq!(Cidr::new(0x0a0b0c0d, 16).to_string(), "10.11.0.0/16");
    let got = IpPool::allocate(&Cidr::parse("10.0.0.0/30").unwrap(), &std::collections::HashSet::new()).unwrap();
    assert!(IpPool::validate_manual(
        &ipv4_to_text(got),
        &Cidr::parse("10.0.0.0/30").unwrap(),
        &std::collections::HashSet::new(),
        None
    )
    .is_ok());
}

#[test]
fn dates_and_log_names() {
    assert_eq!(utc_date_string(0), "19700101");
    assert_eq!(utc_date_string(20_709 * 86_400 + 5), "20260913");
    assert_eq!(time_prefix(86_399), "[23:59:59]");
    assert_eq!(millis_of(2, 5_999_999), 2005);
    assert_eq!(clock_ms(Some((2, 5_999_999))), 2005);
    assert_eq!(clock_ms(None), 0);
    assert!(unix_ms() > 1_600_000_000_000);
    assert_eq!(utc_time_prefix().len(), 10);
    assert_eq!(log_file_suffix("20260913"), ".20260913.log");
    let cutoff = log_cutoff_days(20_709 * 86_400, 14);
    assert!(log_file_is_stale("service.20200101.log", "service.", cutoff));
    assert!(!log_file_is_stale("service.20260913.log", "service.", cutoff));
    assert!(!log_file_is_stale("service.20260830.log", "service.", cutoff));
    assert!(log_file_is_stale("service.20260829.log", "service.", cutoff));
    assert!(!log_file_is_stale("service.txt", "service.", cutoff));
    assert!(!log_file_is_stale("service.2020x101.log", "service.", cutoff));
    assert!(!log_file_is_stale("service.lo.log", "service.", cutoff));
}

#[test]
fn the_date_goes_before_the_extension() {
    let path = "/var/log/starskiff/node.log";
    assert_eq!(log_file_for(path, "20260912"), "/var/log/starskiff/node.20260912.log");
    assert_eq!(log_file_prefix(path), "node.");
    assert_eq!(log_file_for("C:\\logs\\service.log", "20260912"), "C:\\logs\\service.20260912.log");
    assert_eq!(log_file_prefix("C:\\logs\\service.log"), "service.");
    assert_eq!(log_file_for("service", "20260912"), "service.20260912.log");
    assert_eq!(log_file_for("/a.b/service", "20260912"), "/a.b/service.20260912.log");
    assert_eq!(log_file_prefix("/a.b/service"), "service.");
    assert_eq!(log_file_for("/a/.hidden", "20260912"), "/a/.hidden.20260912.log");
    let cutoff = log_cutoff_days(20_709 * 86_400, 14);
    assert!(log_file_is_stale("node.20200101.log", &log_file_prefix(path), cutoff));
    assert!(!log_file_is_stale("node.20260912.log", &log_file_prefix(path), cutoff));
}

#[test]
fn days_are_counted_in_far_years() {
    assert_eq!(days_from_civil(1970, 1, 1), 0);
    assert_eq!(days_from_civil(2026, 9, 13), 20_709);
    assert_eq!(days_from_civil(0, 1, 1), -719528);
    assert_eq!(days_from_civil(-400, 3, 1), -865565);
    assert_eq!(days_from_civil(1_000_000_000_000, 3, 1), 365242499280532);
    assert_eq!(days_from_civil(-1_000_000_000_000, 3, 1), -365242500719468);
    assert_eq!(days_from_civil(25_000_000_000_000_000, 3, 1), 9131062499999280532);
}

#[test]
fn known_digests_come_out() {
    assert_eq!(sha256_hex("abc"), "ba7816bf8f01cfea414140de5dae2223b00361a396177a9cb410ff61f20015ad");
    assert_eq!(
        hex::encode(relay_key_from_token("abc")),
        "ba7816bf8f01cfea414140de5dae2223b00361a396177a9cb410ff61f20015ad"
    );
    // 24 zero bytes in URL-safe base64.
    assert_eq!(token_of("skk_", &[0; 24]), format!("skk_{}", "A".repeat(32)));
    assert_eq!(token_of("p", &[0xff; 24]), format!("p{}", "_".repeat(32)));
    let raw: Vec<u8> = (0..24u8).map(|i| i.wrapping_mul(37).wrapping_add(251)).collect();
    let raw: [u8; 24] = raw.try_into().unwrap();
    assert_eq!(token_of("p", &raw), "p-yBFao-02f4jSG2St9wBJktwlbrfBClO");
    assert_ne!(make_device_token(), make_device_token());
    assert!(make_admin_token().starts_with("ska_"));
    assert_eq!(with_fingerprint("a", "b"), "a.b");
}

#[test]
fn register_is_bound_to_its_nonce() {
    let key = [7u8; 32];
    let a = build_register_with(5, &[1; 16], &key);
    let b = build_register_with(5, &[2; 16], &key);
    assert_ne!(a[27..], b[27..]);
    assert_eq!(a, build_register_with(5, &[1; 16], &key));
}

#[test]
fn key_halves_are_given_by_order() {
    let mut okm = [0u8; 64];
    okm[32..].copy_from_slice(&[1; 32]);
    let low = SessionKeys::from_okm(&okm, true);
    let high = SessionKeys::from_okm(&okm, false);
    assert_eq!(low.send_key, [0; 32]);
    assert_eq!(low.recv_key, [1; 32]);
    assert_eq!(high.send_key, low.recv_key);
    assert_eq!(high.recv_key, low.send_key);
    assert!(precedes(&[0; 32], &[1; 32]));
    assert!(!precedes(&[1; 32], &[1; 32]));
    assert_eq!(session_info(&[1; 32], &[2; 32]).0, session_info(&[2; 32], &[1; 32]).0);
}

#[test]
fn low_order_keys_give_no_session() {
    let keys = starskiff::crypto::node_keys::NodeKeys::generate();
    assert!(SessionKeys::derive(&keys.dh_secret, &keys.dh_public, &[0; 32], &[1; 16]).is_err());
}

#[test]
fn sealing_hides_the_content() {
    let okm = [9u8; 64];
    let mut a = PacketCodec::with_boot_nonce(SessionKeys::from_okm(&okm, true), [3; 16]);
    let frame = a.seal(1, FRAME_DATA, b"content-content");
    assert!(!frame.windows(7).any(|w| w == b"content"));
    assert_eq!(frame.len(), 15 + 35 + 16);
    assert!(a.can_seal());
    assert_eq!(a.checked_stats(), Some((0, 0)));
}

#[test]
fn sealed_values_are_recognised() {
    assert!(is_sealed(b"SKF1x"));
    assert!(!is_sealed(b"SKF1"));
    assert_eq!(sealed_blob("plain").unwrap(), None);
    // base64 of "SKF1x".
    assert_eq!(sealed_blob("sealed:U0tGMXg=").unwrap(), Some(b"SKF1x".to_vec()));
    assert!(sealed_blob("sealed:@@").unwrap_err().starts_with("sealed 字段 base64 无效: "));
    assert_eq!(sealed_blob("sealed:QUFBQQ==").unwrap_err(), "sealed 字段不是有效的 SKF1 密封块");
    assert!(decode("sealed:U0tGMXg=").is_err());
    assert_eq!(sealed_text(b"SKF1x"), "sealed:U0tGMXg=");
    assert_eq!(sealed_text(b"Man"), "sealed:TWFu");
    assert_eq!(sealed_text(&[0xfb, 0xef, 0xff, 0xfe]), "sealed:++///g==");
    assert_eq!(sealed_blob(&sealed_text(b"SKF1\x00\xff")).unwrap(), Some(b"SKF1\x00\xff".to_vec()));
}

#[test]
fn words_and_edges() {
    assert_eq!(split_words("  a bc\t\nd "), vec!["a", "bc", "d"]);
    assert!(split_words(" \u{3000}").is_empty());
    assert_eq!(trim(" \t a b \n"), "a b");
    assert_eq!(trim("  "), "");
}
