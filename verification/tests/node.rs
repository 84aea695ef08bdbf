use std::collections::HashSet;

use starskiff::addr::parse_ipv4;
use starskiff::heartbeat::{loss_permille, rate_bps};
use starskiff::ipam::{Cidr, IpPool};
use starskiff::logging::{civil_from_days, days_from_civil};
use starskiff::models::{ClientMode, DeviceSettings, NetId};
use starskiff::runtime::effective_mode_of;
use starskiff::secret::{decode, Secret};
use starskiff::secretbox::{seal, unseal, SecretBoxError};
use starskiff::session::direct_path_dead;

fn ip(text: &str) -> u32 {
    parse_ipv4(text).unwrap()
}

fn ips(list: &[&str]) -> HashSet<u32> {
    list.iter()
        .map(|s| ip(s))
        .collect()
}

#[test]
fn parse_and_mask() {
    let c = Cidr::parse("10.10.0.77/24").unwrap();
    assert_eq!(c.network, ip("10.10.0.0"));
    assert_eq!(c.prefix, 24);
    assert!(Cidr::parse("10.10.0.77/33").is_err());
    assert!(Cidr::parse("300.1.1.1/8").is_err());
    assert!(Cidr::parse("10.0.0.0").is_err());
}

#[test]
fn boundaries() {
    let c = Cidr::parse("10.0.0.0/24").unwrap();
    assert_eq!(c.first_host(), ip("10.0.0.1"));
    assert_eq!(c.last_host(), ip("10.0.0.254"));
    assert_eq!(c.netmask(), ip("255.255.255.0"));
    assert_eq!(c.host_count(), 254);
    assert!(c.contains(ip("10.0.0.199")));
    assert!(!c.contains(ip("10.0.1.1")));
}

#[test]
fn sequential_allocation() {
    let cidr = Cidr::parse("10.99.0.0/24").unwrap();
    let used = HashSet::new();
    assert_eq!(
        IpPool::allocate(&cidr, &used),
        Some(ip("10.99.0.1"))
    );
    let used = ips(&["10.99.0.1"]);
    assert_eq!(
        IpPool::allocate(&cidr, &used),
        Some(ip("10.99.0.2"))
    );
    // /30: only .1 and .2 usable, exhaustion returns None.
    let small = Cidr::parse("192.168.4.0/30").unwrap();
    let used = ips(&["192.168.4.1", "192.168.4.2"]);
    assert_eq!(IpPool::allocate(&small, &used), None);
    // /31 and /32 never allocate.
    assert_eq!(
        IpPool::allocate(&Cidr::parse("1.2.3.4/31").unwrap(), &HashSet::new()),
        None
    );
}

#[test]
fn manual_validation() {
    let cidr = Cidr::parse("10.99.0.0/24").unwrap();
    let used = ips(&["10.99.0.1"]);
    assert!(IpPool::validate_manual("10.99.0.200", &cidr, &used, None).is_ok());
    // Own current IP may be re-requested.
    assert!(
        IpPool::validate_manual(
            "10.99.0.1",
            &cidr,
            &used,
            Some(ip("10.99.0.1"))
        )
        .is_ok()
    );
    assert!(IpPool::validate_manual("10.99.0.1", &cidr, &used, None).is_err());
    assert!(IpPool::validate_manual("10.99.0.0", &cidr, &used, None).is_err());
    assert!(IpPool::validate_manual("10.99.0.255", &cidr, &used, None).is_err());
    assert!(IpPool::validate_manual("10.100.0.5", &cidr, &used, None).is_err());
    assert!(IpPool::validate_manual("not-an-ip", &cidr, &used, None).is_err());
}

#[test]
fn civil_round_trip() {
    assert_eq!(civil_from_days(0), (1970, 1, 1));
    assert_eq!(civil_from_days(20_709), (2026, 9, 13));
    for z in [0i64, 100, 20_000, 50_000, 19_000] {
        let (y, m, d) = civil_from_days(z);
        assert_eq!(days_from_civil(y, m, d), z);
    }
}

#[test]
fn net_id_hex_round_trip() {
    let id = NetId::random();
    let hex = id.to_hex();
    assert_eq!(hex.len(), 32);
    assert_eq!(NetId::from_hex(&hex).unwrap(), id);
    assert!(NetId::from_hex("zz").is_none());
}

#[test]
fn plain_form_accepted() {
    let h = Secret::new(decode("skd_plain").unwrap());
    assert_eq!(h.expose(), "skd_plain");
}

#[test]
fn tampered_sealed_rejected() {
    assert!(decode("sealed:QUFBQQ==").is_err()); // garbage blob
}

#[test]
fn passthrough_and_refuse_sealed() {
    let plain = b"plain-bytes";
    assert_eq!(seal(plain).unwrap(), plain);
    assert_eq!(unseal(plain).unwrap(), plain);
    let mut sealed = b"SKF1".to_vec();
    sealed.extend_from_slice(b"dpapi-blob");
    assert!(matches!(unseal(&sealed), Err(SecretBoxError::UnsupportedPlatform)));
}

fn settings_with_mode(mode: Option<ClientMode>) -> DeviceSettings {
    DeviceSettings {
        mode,
        ..DeviceSettings::default()
    }
}

#[test]
fn managed_proxy_overrides_file_tun() {
    assert_eq!(
        effective_mode_of(&settings_with_mode(Some(ClientMode::Proxy))),
        ClientMode::Proxy
    );
}

#[test]
fn managed_tun_overrides_file_proxy() {
    assert_eq!(
        effective_mode_of(&settings_with_mode(Some(ClientMode::Tun))),
        ClientMode::Tun
    );
}

#[test]
fn unmanaged_mode_falls_back_to_default() {
    assert_eq!(effective_mode_of(&settings_with_mode(None)), ClientMode::Proxy);
}

#[test]
fn rate_bps_math_and_guards() {
    let dt5 = 5_000;
    // 无基线（首个窗口）→ 两侧缺省。
    assert_eq!(rate_bps(None, (100, 200), dt5), (None, None));
    // 5s 窗口 500B/1000B → 100/200 B/s；零增量侧为 Some(0)。
    assert_eq!(
        rate_bps(Some((1000, 2000)), (1500, 3000), dt5),
        (Some(100), Some(200))
    );
    assert_eq!(rate_bps(Some((100, 100)), (100, 100), dt5), (Some(0), Some(0)));
    // 窗口 <1s（相邻心跳贴得过近）→ 缺省，不除以近零时长。
    assert_eq!(rate_bps(Some((0, 0)), (10, 10), 999), (None, None));
    // 单侧计数回退：仅该侧缺省，另一侧照常计算。
    assert_eq!(rate_bps(Some((100, 100)), (50, 200), dt5), (None, Some(20)));
}

#[test]
fn loss_permille_math_and_guards() {
    // 无基线（首个窗口）→ 缺省。
    assert_eq!(loss_permille(None, (100, 5)), None);
    // 窗口内无帧：无样本 ≠ 0 丢包，缺省。
    assert_eq!(loss_permille(Some((100, 5)), (100, 5)), None);
    // 100 收 0 丢 → 0；100 收 1 丢 → 1%（万分比 100）。
    assert_eq!(loss_permille(Some((0, 0)), (100, 0)), Some(0));
    // 101 帧丢 1 → 10000/101 = 99（整除向下取整）。
    assert_eq!(loss_permille(Some((0, 0)), (100, 1)), Some(99));
    // 25% 丢包边界：300 收 100 丢 → 2500。
    assert_eq!(loss_permille(Some((0, 0)), (300, 100)), Some(2500));
    // 全丢：0 收 50 丢 → 10000（100.00%）。
    assert_eq!(loss_permille(Some((0, 0)), (0, 50)), Some(10_000));
    // 计数回退（防御，正常单调递增）→ 缺省。
    assert_eq!(loss_permille(Some((100, 5)), (90, 5)), None);
    assert_eq!(loss_permille(Some((100, 5)), (100, 3)), None);
}

#[test]
fn direct_path_dead_threshold() {
    let now = 1_000_000i64;
    assert!(!direct_path_dead(now, 0), "从未收到 PONG（从未直连成功）不判死");
    assert!(!direct_path_dead(now, now - 30_000), "恰在 30s 阈值上仍未死");
    assert!(direct_path_dead(now, now - 30_001), "超过 30s 无 PONG 判死");
    assert!(direct_path_dead(now, now - 15 * 60_000), "半开 15min 必死");
}
