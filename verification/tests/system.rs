use starskiff::control::{
    config_url, events_url, paths_report, peers_url, refusal, refusal_in, server_base, server_scheme, status_refusal,
    status_refusal_in, urlencode, ChannelInput, ChannelStep, ChannelWatch, Reconnect, Scheme, SECOND_NS,
};
use starskiff::crypto::node_keys::NodeKeys;
use starskiff::enroll::{
    chosen_pin, enroll_request, enrolled_config, first_contact, has_identity, log_target, tun_network,
    windows_service_name, LogTarget,
};
use starskiff::models::{EnrollResponse, MembershipInfo, NetId};
use starskiff::net_if::{announced_addrs, is_link_local, local_ipv4_addrs};
use starskiff::node_config::{
    data_dir_in, listed_networks, master_log_target, master_log_target_of, windows_service_name_in,
};
use starskiff::platform::{
    choose_tool, linux_firewall_add, linux_firewall_check, linux_firewall_remove, resident_pages, rules_to_add,
    tool_failure, tool_name, tool_outcome, FirewallTool, PortProto, PortRule, ToolCommand,
};
use starskiff::service_install::{
    cleanup_runtime_firewall, config_in_unit, dedup_ports, ensure_runtime_firewall, linux_install_commands,
    rule_failed_line, rule_updated_line, windows_rule_change, windows_rule_name, windows_rule_removal,
    service_name, synced_line, unit_path, unit_text, windows_install_commands, FirewallState, LINUX_SERVICE_NAME,
};
use starskiff::supervisor::{
    action_for_exit, named_dir, Supervisor, WorkerExitAction, EXIT_ERROR, EXIT_OK, EXIT_RESTART, STABLE_AFTER,
};
use starskiff::tls_verifier::{fingerprint_of, shorten, TrustState};

#[test]
fn clean_stop_ends_master() {
    assert_eq!(action_for_exit(EXIT_OK, 0, 1), WorkerExitAction::Stop);
    assert_eq!(action_for_exit(EXIT_OK, 9, 0), WorkerExitAction::Stop);
}

#[test]
fn restart_backoff_ladder() {
    // 首次重启（此前稳定运行）不等待。
    assert_eq!(action_for_exit(EXIT_RESTART, 0, 120), WorkerExitAction::Restart { backoff: 1 });
    // 连续快速失败逐级退避。
    assert_eq!(action_for_exit(EXIT_ERROR, 1, 2), WorkerExitAction::Restart { backoff: 2 });
    assert_eq!(action_for_exit(EXIT_ERROR, 3, 3), WorkerExitAction::Restart { backoff: 10 });
    // 封顶 30s。
    assert_eq!(action_for_exit(EXIT_ERROR, 99, 4), WorkerExitAction::Restart { backoff: 30 });
    // 稳定运行满 STABLE_AFTER 后计数清零（新的一轮）。
    assert_eq!(action_for_exit(EXIT_ERROR, 5, STABLE_AFTER), WorkerExitAction::Restart { backoff: 1 });
}

#[test]
fn supervisor_counts_restarts() {
    let mut s = Supervisor::new();
    let waits: Vec<WorkerExitAction> = (0..6).map(|_| s.on_exit(EXIT_ERROR, 3)).collect();
    let want: Vec<WorkerExitAction> = [1, 2, 5, 10, 30, 30]
        .iter()
        .map(|b| WorkerExitAction::Restart { backoff: *b })
        .collect();
    assert_eq!(waits, want);
    assert_eq!(s.consecutive, 6);
    assert_eq!(s.on_exit(EXIT_RESTART, 60), WorkerExitAction::Restart { backoff: 1 });
    assert_eq!(s.consecutive, 1);
    assert_eq!(s.on_exit(EXIT_OK, 0), WorkerExitAction::Stop);
    s.consecutive = u32::MAX;
    assert_eq!(s.on_exit(EXIT_ERROR, 0), WorkerExitAction::Restart { backoff: 30 });
    assert_eq!(s.consecutive, u32::MAX);
}

#[test]
fn data_dir_is_the_named_one() {
    assert_eq!(named_dir(Some("DATA_DIR_PLACEHOLDER")), Some("DATA_DIR_PLACEHOLDER"));
    assert_eq!(named_dir(Some("")), None);
    assert_eq!(named_dir(None), None);
}

fn lines(list: &[ToolCommand]) -> Vec<String> {
    list.iter()
        .map(|c| format!("{} {}{}", c.program, c.args.join(" "), if c.fatal { "" } else { " ?" }))
        .collect()
}

#[test]
fn firewall_tools_get_their_arguments() {
    let ports = vec![
        PortRule { port: 24933, proto: PortProto::Udp },
        PortRule { port: 80, proto: PortProto::Tcp },
    ];
    assert_eq!(
        lines(&linux_firewall_add(FirewallTool::Ufw, "node", &ports)),
        vec!["ufw allow 24933/udp comment starskiff node", "ufw allow 80/tcp comment starskiff node"]
    );
    assert_eq!(
        lines(&linux_firewall_remove(FirewallTool::Ufw, "node", &ports)),
        vec!["ufw delete allow 24933/udp", "ufw delete allow 80/tcp"]
    );
    assert_eq!(
        lines(&linux_firewall_add(FirewallTool::Firewalld, "node", &ports[..1].to_vec())),
        vec!["firewall-cmd --permanent --add-port 24933/udp", "firewall-cmd --reload ?"]
    );
    assert_eq!(
        lines(&linux_firewall_remove(FirewallTool::Firewalld, "node", &ports[..1].to_vec())),
        vec!["firewall-cmd --permanent --remove-port 24933/udp", "firewall-cmd --reload ?"]
    );
    assert_eq!(
        lines(&linux_firewall_add(FirewallTool::Iptables, "node", &ports[..1].to_vec())),
        vec!["iptables -I INPUT 1 -p udp --dport=24933 -j ACCEPT -m comment --comment starskiff-node-udp"]
    );
    assert_eq!(
        lines(&linux_firewall_remove(FirewallTool::Iptables, "node", &ports[..1].to_vec())),
        vec!["iptables -D INPUT -p udp --dport=24933 -j ACCEPT -m comment --comment starskiff-node-udp"]
    );
    assert_eq!(choose_tool(true, true, true).unwrap(), FirewallTool::Ufw);
    assert_eq!(choose_tool(false, true, true).unwrap(), FirewallTool::Firewalld);
    assert_eq!(choose_tool(false, false, true).unwrap(), FirewallTool::Iptables);
    assert!(choose_tool(false, false, false).unwrap_err().starts_with("未找到"));
    assert_eq!(tool_name(FirewallTool::Firewalld), "firewalld");
}

#[test]
fn tool_failures_are_told() {
    assert_eq!(tool_failure("ufw", 2, " bad \n", "  "), "ufw 退出码 2：bad");
    assert_eq!(tool_failure("ufw", -1, "bad", " out "), "ufw 退出码 -1：bad / out");
    assert_eq!(tool_outcome("ufw", 0, " done \n", "bad"), Ok("done".to_string()));
    assert_eq!(tool_outcome("ufw", 1, " out ", "bad"), Err("ufw 退出码 1：bad / out".to_string()));
    assert_eq!(tool_outcome("ufw", -1, "", "bad"), Err("ufw 退出码 -1：bad".to_string()));
    assert_eq!(resident_pages("100 25 3"), Some(25));
    assert_eq!(resident_pages("100"), None);
    assert_eq!(resident_pages("100 x"), None);
}

#[test]
fn ports_are_compared_with_what_was_open() {
    assert_eq!(dedup_ports(&[5, 0, 3, 5, 1]), vec![1, 3, 5]);
    let before = FirewallState { udp: vec![1, 2], tcp: vec![3] };
    let sync = ensure_runtime_firewall(&before, &[2, 0, 9], &[]);
    assert_eq!(sync.state.udp, vec![2, 9]);
    assert!(sync.state.tcp.is_empty());
    assert_eq!(
        sync.stale,
        vec![PortRule { port: 1, proto: PortProto::Udp }, PortRule { port: 3, proto: PortProto::Tcp }]
    );
    assert_eq!(
        sync.want,
        vec![PortRule { port: 2, proto: PortProto::Udp }, PortRule { port: 9, proto: PortProto::Udp }]
    );
    assert_eq!(cleanup_runtime_firewall(&before).len(), 3);
    assert_eq!(synced_line(&sync.state), "防火墙：Linux 运行时规则已同步（udp=[2, 9] tcp=[]）");
}

#[test]
fn opening_ports_again_adds_nothing() {
    let sync = ensure_runtime_firewall(&FirewallState { udp: vec![], tcp: vec![] }, &[7, 9, 7], &[9]);
    let check = |port: &PortRule| linux_firewall_check(FirewallTool::Iptables, "node", port).unwrap();
    assert_eq!(
        lines(&[check(&sync.want[0])]),
        vec!["iptables -C INPUT -p udp --dport=7 -j ACCEPT -m comment --comment starskiff-node-udp ?"]
    );
    assert!(linux_firewall_check(FirewallTool::Ufw, "node", &sync.want[0]).is_none());
    assert!(linux_firewall_check(FirewallTool::Firewalld, "node", &sync.want[0]).is_none());
    // One rule is there from an earlier start; the others go in.
    let mut held = vec![sync.want[1]];
    let present = |held: &Vec<PortRule>| sync.want.iter().map(|r| held.contains(r)).collect::<Vec<bool>>();
    let add = rules_to_add(&sync.want, &present(&held));
    assert_eq!(add, vec![sync.want[0], sync.want[2]]);
    held.extend(add);
    let add = rules_to_add(&sync.want, &present(&held));
    assert!(add.is_empty());
    assert!(linux_firewall_add(FirewallTool::Iptables, "node", &add).is_empty());
    assert_eq!(held.len(), 3);
    assert_eq!(rules_to_add(&sync.want, &vec![]), sync.want);
}

#[test]
fn unit_names_its_config() {
    let unit = unit_text("/usr/bin/starskiff", "/etc/s.json", Some("/var/s.log"), false);
    assert_eq!(
        unit,
        "[Unit]\nDescription=Starskiff mesh VPN node\nAfter=network-online.target\nWants=network-online.target\n\n[Service]\nType=simple\nExecStart=/usr/bin/starskiff service run -c /etc/s.json --log-file /var/s.log\nRestart=always\nRestartSec=5\n\n[Install]\nWantedBy=multi-user.target\n"
    );
    assert_eq!(config_in_unit(&unit).as_deref(), Some("/etc/s.json"));
    let unit = unit_text("/x", "c", None, true);
    assert!(unit.contains("ExecStart=/x service run -c c\nRestart=no\n"));
    assert_eq!(config_in_unit(&unit).as_deref(), Some("c"));
    assert_eq!(config_in_unit("ExecStart=/x run -c"), None);
    assert_eq!(config_in_unit("nothing"), None);
    assert_eq!(unit_path("a"), "/etc/systemd/system/a.service");
    assert_eq!(service_name(None, LINUX_SERVICE_NAME), "starskiff");
    assert_eq!(service_name(Some("x"), LINUX_SERVICE_NAME), "x");
    assert_eq!(lines(&linux_install_commands("n")), vec!["systemctl daemon-reload", "systemctl enable n"]);
}

#[test]
fn windows_services_are_installed_in_two_steps() {
    let list = windows_install_commands("S", "C:\\s.exe", "C:\\s.json", Some("C:\\s.log"), "delayed", None, false).unwrap();
    assert_eq!(
        lines(&list),
        vec![
            "sc create S binpath= C:\\s.exe start= delayed-auto",
            "reg add HKLM\\SYSTEM\\CurrentControlSet\\Services\\S /v ImagePath /t REG_EXPAND_SZ /d C:\\s.exe service run -c C:\\s.json --log-file C:\\s.log /f",
            "sc description S Starskiff mesh VPN node (S) ?",
            "sc failure S reset= 86400 actions= restart/5000/restart/5000/restart/30000 ?",
        ]
    );
    let list = windows_install_commands("S", "e", "c", None, "demand", Some("D"), true).unwrap();
    assert_eq!(list.len(), 3);
    assert_eq!(list[0].args[4], "demand");
    assert_eq!(list[1].args[7], "e service run -c c");
    assert_eq!(list[2].args[2], "Starskiff mesh VPN node (D)");
    assert!(windows_install_commands("S", "a b", "c", None, "auto", None, true).unwrap_err().starts_with("程序路径含空格"));
    assert!(windows_install_commands("S", "a", "c d", None, "auto", None, true).unwrap_err().starts_with("配置路径含空格"));
    assert!(windows_install_commands("S", "a", "c", Some("l g"), "auto", None, true).unwrap_err().starts_with("日志路径含空格"));
    assert_eq!(windows_service_name(&vec![]), "Starskiff");
    assert_eq!(windows_service_name(&vec!["a".to_string(), "b".to_string()]), "Starskiff-a+b");
}

#[test]
fn urls_are_built() {
    assert_eq!(urlencode("a b/ü~"), "a%20b%2F%C3%BC~");
    assert_eq!(server_base("https://h:1//"), "https://h:1");
    assert_eq!(server_scheme("https://h"), Scheme::Secure);
    assert_eq!(server_scheme("http://h"), Scheme::Plain);
    assert_eq!(server_scheme("ftp://h"), Scheme::Other);
    assert_eq!(config_url("http://h", "n 1"), "http://h/api/config?network=n%201");
    assert_eq!(peers_url("http://h", "n"), "http://h/api/peers?network=n");
    assert_eq!(events_url("https://h", "n", "t=1"), "wss://h/api/events?network=n&token=t%3D1");
    assert_eq!(events_url("http://h", "n", "t"), "ws://h/api/events?network=n&token=t");
    assert!(paths_report(vec![]).paths.unwrap().is_empty());
}

#[test]
fn refusals_are_told() {
    assert_eq!(refusal(Some("no"), "f"), "no");
    assert_eq!(refusal(Some(""), "f"), "");
    assert_eq!(refusal(None, "f"), "f");
    assert_eq!(refusal_in(r#"{"error":"令牌无效"}"#, "f"), "令牌无效");
    assert_eq!(refusal_in(r#"{"error":3}"#, "f"), "f");
    assert_eq!(refusal_in("<html>", "f"), "f");
    assert_eq!(status_refusal("403 Forbidden", Some("no")), "HTTP 403 Forbidden: no");
    assert_eq!(status_refusal("403 Forbidden", None), "HTTP 403 Forbidden");
    assert_eq!(status_refusal_in("403 Forbidden", r#"{"error":"no"}"#), "HTTP 403 Forbidden: no");
    assert_eq!(status_refusal_in("502 Bad Gateway", ""), "HTTP 502 Bad Gateway");
}

#[test]
fn rounds_are_counted() {
    assert_eq!(starskiff::heartbeat::after_heartbeat(0), (1, false));
    assert_eq!(starskiff::heartbeat::after_heartbeat(1), (2, true));
    assert_eq!(starskiff::heartbeat::after_heartbeat(u64::MAX), (0, true));
    assert_eq!(starskiff::status::after_report(0), (1, true));
    assert_eq!(starskiff::status::after_report(59), (60, false));
    assert_eq!(starskiff::status::after_report(60), (61, true));
    assert_eq!(starskiff::status::after_report(u64::MAX).0, 0);
}

#[test]
fn reconnects_slow_down_and_recover() {
    let mut r = Reconnect::new();
    let waits: Vec<u64> = (0..8).map(|_| r.after_failure()).collect();
    let want: Vec<u64> = [3_000, 4_500, 6_750, 10_125]
        .iter()
        .map(|ms| ms * 1_000_000)
        .chain([15_187_500_000, 22_781_250_000, 30 * SECOND_NS, 30 * SECOND_NS])
        .collect();
    assert_eq!(waits, want);
    assert_eq!(r.after_close(), SECOND_NS);
    assert_eq!(r.after_failure(), SECOND_NS);
    assert_eq!(r.after_failure(), 1_500_000_000);
}

#[test]
fn local_addresses_are_sifted() {
    let ips = vec![0x0a000002, 0xa9fe0101, 0x7f000001, 0, 0x0a00000a, 0x0a000002, 0xc0a80001];
    assert_eq!(announced_addrs(&ips), vec!["10.0.0.10", "10.0.0.2", "192.168.0.1"]);
    let found = vec![(0x0a000002, true), (0xc0a80001, false), (0x7f000001, true), (0x0a00000a, true)];
    assert_eq!(local_ipv4_addrs(&found), vec!["10.0.0.10", "10.0.0.2"]);
    assert!(is_link_local(0xa9fe0000));
    assert!(!is_link_local(0xa9ff0000));
}

#[test]
fn certificates_are_judged() {
    let mut t = TrustState { pin: None, tofu_fingerprint: None };
    assert!(t.asks_authority());
    assert!(t.judge("aa11", true).is_ok());
    assert!(t.pin.is_none());
    assert!(t.judge("aa11", false).is_ok());
    assert_eq!(t.pin.as_deref(), Some("aa11"));
    assert_eq!(t.tofu_fingerprint.as_deref(), Some("aa11"));
    assert!(!t.asks_authority());
    assert!(t.judge("AA11", false).is_ok());
    let e = t.judge("0123456789abcdef", true).unwrap_err();
    assert_eq!(e, "服务器证书指纹不匹配（期望 aa11… 实际 0123456789ab…）；服务器已迁移或被劫持，请用新令牌重新 enroll");
    assert_eq!(shorten("ééééééé"), "éééééé");
}

#[test]
fn certificates_are_known_by_their_digest() {
    let known = "03d66dd08835c1ca3f128cceacd1f31ac94163096b20f445ae84285bc0832d72";
    assert_eq!(fingerprint_of(b"certificate"), known);
    let mut t = TrustState { pin: Some(known.to_string()), tofu_fingerprint: None };
    assert!(t.judge_certificate(b"certificate", false).is_ok());
    assert!(t.judge_certificate(b"another", true).is_err());
    let mut t = TrustState { pin: None, tofu_fingerprint: None };
    assert!(t.judge_certificate(b"certificate", false).is_ok());
    assert_eq!(t.tofu_fingerprint.as_deref(), Some(known));
}

#[test]
fn a_token_names_the_certificate_of_the_first_contact() {
    let fp = fingerprint_of(b"certificate");
    let mut t = first_contact(&format!("skk_t.{}", fp.to_uppercase()));
    assert_eq!(t.pin.as_deref(), Some(fp.as_str()));
    assert!(t.judge_certificate(b"another", true).is_err());
    assert!(t.tofu_fingerprint.is_none());
    assert!(t.judge_certificate(b"certificate", false).is_ok());
    // Without a fingerprint the first certificate is the one that counts.
    let mut t = first_contact("skk_t");
    assert!(t.pin.is_none());
    assert!(t.judge_certificate(b"another", false).is_ok());
    assert!(t.judge_certificate(b"certificate", true).is_err());
}

#[test]
fn data_dir_falls_back_to_default() {
    assert_eq!(
        data_dir_in(r#"{"dataDir":"DATA_DIR_PLACEHOLDER"}"#).as_deref(),
        Some("DATA_DIR_PLACEHOLDER")
    );
    assert_eq!(data_dir_in(r#"{}"#), None);
}

#[test]
fn a_config_is_read_as_far_as_it_goes() {
    assert_eq!(data_dir_in(r#"{"dataDir":"/var/s","server":7}"#).as_deref(), Some("/var/s"));
    assert_eq!(data_dir_in(r#"{"dataDir":""}"#), None);
    assert_eq!(data_dir_in(r#"{"dataDir":3}"#), None);
    assert_eq!(data_dir_in("[]"), None);
    assert_eq!(data_dir_in("not json"), None);
    let text = r#"{"logFile":"/l/n.log","dataDir":"/d"}"#;
    assert!(matches!(master_log_target(Some("a"), text, true), LogTarget::File(p) if p == "a"));
    assert!(matches!(master_log_target(None, text, false), LogTarget::File(p) if p == "/l/n.log"));
    let text = r#"{"logFile":"","dataDir":"/d"}"#;
    assert!(matches!(master_log_target(None, text, true), LogTarget::ServiceFile(Some(p)) if p == "/d"));
    assert!(matches!(master_log_target(None, text, false), LogTarget::Console));
    assert!(matches!(master_log_target(None, "", true), LogTarget::ServiceFile(None)));
    assert!(matches!(master_log_target_of(None, Some("l"), true, None), LogTarget::File(p) if p == "l"));
    assert!(matches!(master_log_target_of(None, Some(""), true, Some("")), LogTarget::ServiceFile(None)));
    assert_eq!(
        windows_service_name_in(r#"{"networks":[{"network":"a"},{"x":1},7,{"network":"b"}]}"#),
        "Starskiff-a+b"
    );
    assert_eq!(windows_service_name_in(r#"{"networks":[{}]}"#), "Starskiff");
    assert_eq!(windows_service_name_in(r#"{"networks":"a"}"#), "Starskiff");
    assert_eq!(windows_service_name_in(""), "Starskiff");
    let members = Some(vec![Some("a".to_string()), None, Some("b".to_string())]);
    assert_eq!(listed_networks(members), vec!["a", "b"]);
    assert!(listed_networks(None).is_empty());
}

#[test]
fn enrolling_makes_a_config_that_starts() {
    let keys = NodeKeys::generate();
    let req = enroll_request("skk_t", "n", &keys, None);
    assert_eq!(req.dh_pubkey, keys.dh_public_hex());
    assert_eq!(req.sign_pubkey, keys.sign_public_hex());
    let answer = EnrollResponse {
        device_id: 9,
        device_token: "skd_t".to_string(),
        network_id: NetId([1; 16]),
        network_name: "net".to_string(),
        cidr: "10.0.0.0/24".to_string(),
        ip: "10.0.0.5".to_string(),
        mtu: 1400,
    };
    let fp = "AB".repeat(32);
    let pin = chosen_pin(&format!("skk_t.{fp}"), Some("tofu".to_string()));
    assert_eq!(pin.as_deref(), Some(fp.to_lowercase().as_str()));
    assert_eq!(chosen_pin("skk_t", Some("tofu".to_string())).as_deref(), Some("tofu"));
    let cfg = enrolled_config("https://h/", "n", &answer, &keys, pin);
    assert_eq!(cfg.server, "https://h");
    assert_eq!(cfg.mtu, 1400);
    assert!(has_identity(&cfg));
    let plan = starskiff::runtime::plan_startup(&cfg, &starskiff::models::DeviceSettings::default()).unwrap();
    assert_eq!(plan.dh_priv, keys.dh_secret);
    assert_eq!(plan.dh_pub, keys.dh_public);
    assert_eq!(plan.listen.udp.len(), 1);
}

#[test]
fn log_goes_where_it_was_asked_to() {
    assert!(matches!(log_target(Some("a"), Some("b"), true, "d"), LogTarget::File(p) if p == "a"));
    assert!(matches!(log_target(None, Some("b"), true, "d"), LogTarget::File(p) if p == "b"));
    assert!(matches!(log_target(None, None, true, "d"), LogTarget::ServiceFile(Some(p)) if p == "d"));
    assert!(matches!(log_target(None, None, true, ""), LogTarget::ServiceFile(None)));
    assert!(matches!(log_target(None, None, false, "d"), LogTarget::Console));
}

#[test]
fn tun_takes_the_first_network() {
    let mut m = MembershipInfo {
        network_id: NetId([1; 16]),
        network_name: "n".to_string(),
        cidr: "10.0.0.0/24".to_string(),
        ip: "10.0.0.5".to_string(),
    };
    let (ip, cidr) = tun_network(&m).unwrap();
    assert_eq!(ip, 0x0a000005);
    assert_eq!(cidr.prefix, 24);
    m.ip = "x".to_string();
    assert_eq!(tun_network(&m).unwrap_err(), "网络 n 的 IP/网段无效: x/10.0.0.0/24");
}

#[test]
fn windows_rules_follow_the_ports() {
    let change = windows_rule_change(PortProto::Udp, "C:\\skiff.exe", &[0, 24933, 0, 7]);
    assert_eq!(change.ports, "24933,7");
    assert_eq!(change.remove.program, "netsh");
    assert_eq!(change.remove.args, ["advfirewall", "firewall", "delete", "rule", "name=Starskiff Node UDP"]);
    let add = change.add.unwrap();
    assert_eq!(add.program, "netsh");
    assert_eq!(
        add.args,
        [
            "advfirewall",
            "firewall",
            "add",
            "rule",
            "name=Starskiff Node UDP",
            "dir=in",
            "action=allow",
            "protocol=UDP",
            "program=C:\\skiff.exe",
            "localport=24933,7",
        ]
    );
    // Without a port there is no rule: one for the program alone would be too wide.
    let none = windows_rule_change(PortProto::Tcp, "x", &[0]);
    assert!(none.add.is_none());
    assert_eq!(none.ports, "");
    assert_eq!(none.remove.args[4], "name=Starskiff Node TCP");
    assert_eq!(windows_rule_removal(PortProto::Tcp).args, none.remove.args);
    assert_eq!(windows_rule_name(PortProto::Tcp), "Starskiff Node TCP");
    assert_eq!(rule_updated_line(PortProto::Udp, "7"), "防火墙：规则 Starskiff Node UDP 已按当期端口更新（7）");
    assert_eq!(rule_failed_line(PortProto::Tcp, "e"), "防火墙：规则 Starskiff Node TCP 更新失败（e）");
}

#[test]
fn silent_channel_is_left() {
    let mut w = ChannelWatch::new();
    assert_eq!(w.step(ChannelInput::PingDue, 60_000_000_000), ChannelStep::Ping);
    assert_eq!(w.step(ChannelInput::Other, 61_000_000_000), ChannelStep::Wait);
    assert_eq!(w.step(ChannelInput::PingDue, 121_000_000_000), ChannelStep::Ping);
    assert_eq!(w.step(ChannelInput::Text, 121_500_000_000), ChannelStep::Deliver);
    assert_eq!(w.step(ChannelInput::PingDue, 181_500_000_001), ChannelStep::Leave);
    assert_eq!(w.step(ChannelInput::End, 1), ChannelStep::Leave);
}
