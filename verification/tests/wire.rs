use starskiff::crypto::session_keys::SessionKeys;
use starskiff::protocol::wire::{
    PacketCodec, RawFrame, BOOT_NONCE_GENERATIONS, FRAME_DATA, FRAME_PING, FRAME_PONG, WIRE_MAGIC, WIRE_VERSION,
};

use rand_core::OsRng;
use x25519_dalek::{PublicKey, StaticSecret};

fn key_pair(net: [u8; 16]) -> (SessionKeys, SessionKeys) {
    let a = StaticSecret::random_from_rng(OsRng);
    let b = StaticSecret::random_from_rng(OsRng);
    let a_pub = PublicKey::from(&a);
    let b_pub = PublicKey::from(&b);
    let ka = SessionKeys::derive(&a.to_bytes(), &a_pub.to_bytes(), &b_pub.to_bytes(), &net).unwrap();
    let kb = SessionKeys::derive(&b.to_bytes(), &b_pub.to_bytes(), &a_pub.to_bytes(), &net).unwrap();
    (ka, kb)
}

fn codec_pair() -> (PacketCodec, PacketCodec) {
    let (ka, kb) = key_pair([42u8; 16]);
    (PacketCodec::new(ka), PacketCodec::new(kb))
}

#[test]
fn seal_open_round_trip() {
    let (mut a, mut b) = codec_pair();
    let payload: Vec<u8> = (0..1000u32).map(|i| (i % 251) as u8).collect();
    let sealed = a.seal(0xAABB, FRAME_DATA, &payload);
    let (sender, ty, plain) = b.try_open(&sealed).unwrap();
    assert_eq!(sender, 0xAABB);
    assert_eq!(ty, FRAME_DATA);
    assert_eq!(plain, payload);
}

#[test]
fn counter_starts_at_one() {
    let (mut a, mut b) = codec_pair();
    let sealed = a.seal(1, FRAME_PING, &[0u8; 8]);
    let f = RawFrame::try_parse(&sealed).unwrap();
    assert_eq!(f.counter(), 1);
    assert!(b.try_open(&sealed).is_some());
}

#[test]
fn replay_rejected() {
    let (mut a, mut b) = codec_pair();
    let sealed = a.seal(7, FRAME_DATA, b"hello");
    assert!(b.try_open(&sealed).is_some());
    assert!(b.try_open(&sealed).is_none());
}

#[test]
fn wrong_key_rejected() {
    let (mut a, _) = codec_pair();
    let (_, mut other) = codec_pair();
    let sealed = a.seal(7, FRAME_DATA, b"hello");
    assert!(other.try_open(&sealed).is_none());
}

#[test]
fn tampered_packet_rejected() {
    let (mut a, mut b) = codec_pair();
    let mut sealed = a.seal(7, FRAME_DATA, b"hello");
    let n = sealed.len();
    sealed[n - 1] ^= 1;
    assert!(b.try_open(&sealed).is_none());
}

#[test]
fn reorder_within_window_accepted() {
    let (mut a, mut b) = codec_pair();
    let f1 = a.seal(1, FRAME_PING, &[1; 8]);
    let f2 = a.seal(1, FRAME_PING, &[2; 8]);
    let f3 = a.seal(1, FRAME_PING, &[3; 8]);
    assert!(b.try_open(&f3).is_some());
    assert!(b.try_open(&f1).is_some());
    assert!(b.try_open(&f2).is_some());
    assert!(b.try_open(&f2).is_none()); // duplicate
}

#[test]
fn boot_nonce_change_resets_window() {
    // Two codecs sharing b's key material but with different boot nonces.
    let (ka, kb) = key_pair([3u8; 16]);
    let ka_restart = ka.clone();
    let mut a = PacketCodec::new(ka);
    let mut b = PacketCodec::new(kb);
    for i in 0..200u64 {
        let _ = b.try_open(&a.seal(9, FRAME_DATA, &i.to_le_bytes()));
    }
    // Peer restart: fresh codec (same keys, new boot nonce) reuses low
    // counters; the new generation gets a fresh window so those frames
    // are accepted.
    let mut a_restarted = PacketCodec::new(ka_restart);
    let early = a_restarted.seal(9, FRAME_DATA, b"early"); // counter 1
    assert!(b.try_open(&early).is_some());
}

#[test]
fn old_generation_frame_not_replayable_after_restart() {
    // 翻转攻击：持有两个 bootNonce 时代的抓包，对端重启后重放旧代帧。
    let (ka, kb) = key_pair([5u8; 16]);
    let ka_restart = ka.clone();
    let mut a_old = PacketCodec::new(ka);
    let mut b = PacketCodec::new(kb);
    let old1 = a_old.seal(9, FRAME_DATA, b"old-1");
    let old2 = a_old.seal(9, FRAME_DATA, b"old-2");
    assert!(b.try_open(&old1).is_some());

    // 对端重启，新代流量到来。
    let mut a_new = PacketCodec::new(ka_restart);
    let fresh1 = a_new.seal(9, FRAME_DATA, b"new-1");
    assert!(b.try_open(&fresh1).is_some());

    // 旧代帧重放必须被拒（旧代窗口保留水位）。
    assert!(b.try_open(&old1).is_none());
    // 旧代里未接收过的 counter 也被拒：该代已被超越，不接受新帧。
    assert!(b.try_open(&old2).is_none());

    // 新旧交替也不能翻转。
    let fresh2 = a_new.seal(9, FRAME_DATA, b"new-2");
    assert!(b.try_open(&fresh2).is_some());
    assert!(b.try_open(&old2).is_none());
}

#[test]
fn header_tamper_rejected() {
    // 明文头纳入 AAD：篡改 type/senderId 任一位认证失败。
    let (mut a, mut b) = codec_pair();
    let mut sealed = a.seal(7, FRAME_PING, &[0u8; 8]);
    sealed[10] = FRAME_PONG; // type: PING -> PONG
    assert!(b.try_open(&sealed).is_none());

    let mut sealed2 = a.seal(7, FRAME_PING, &[0u8; 8]);
    sealed2[2] ^= 1; // senderId 最低位
    assert!(b.try_open(&sealed2).is_none());

    let mut sealed3 = a.seal(7, FRAME_PING, &[0u8; 8]);
    sealed3[0] ^= 1; // magic
    assert!(RawFrame::try_parse(&sealed3).is_none());
    assert!(b.try_open(&sealed3).is_none());
}

#[test]
fn version_one_frame_rejected() {
    // 版本 2 起帧头进入 AAD，与版本 1 帧不互通：静默丢弃。
    let (mut a, mut b) = codec_pair();
    let mut sealed = a.seal(7, FRAME_DATA, b"hello");
    sealed[1] = 1;
    assert!(RawFrame::try_parse(&sealed).is_none());
    assert!(b.try_open(&sealed).is_none());
}

#[test]
fn wrong_key_probe_leaves_no_trace() {
    // Multi-network engines try several codecs for the same sender; a
    // failed decryption must not consume replay-window state.
    let (mut a, mut b) = codec_pair();
    let sealed = a.seal(7, FRAME_DATA, b"hello");
    let (_, mut other) = codec_pair();

    // Probe with the wrong codec first (must fail silently)...
    assert!(other.try_open(&sealed).is_none());
    // ...then the right codec must still accept counter=1.
    assert!(b.try_open(&sealed).is_some());
    // And the replay protection on the correct codec is intact.
    assert!(b.try_open(&sealed).is_none());
}

#[test]
fn garbage_rejected() {
    let (_, mut b) = codec_pair();
    assert!(b.try_open(&[]).is_none());
    assert!(b.try_open(&[0u8; 34]).is_none());
    let mut bad_magic = [0u8; 60];
    bad_magic[0] = WIRE_MAGIC;
    bad_magic[1] = WIRE_VERSION;
    bad_magic[10] = 99; // invalid type
    assert!(b.try_open(&bad_magic).is_none());
    let mut bad_ver = [0u8; 60];
    bad_ver[0] = WIRE_MAGIC;
    bad_ver[1] = WIRE_VERSION + 1;
    assert!(b.try_open(&bad_ver).is_none());
}

#[test]
fn gap_stats_reflect_dropped_frames() {
    // 帧流丢中间一帧（counter 跳号）计入缺口；迟到补位撤回。
    let (mut a, mut b) = codec_pair();
    let f1 = a.seal(7, FRAME_DATA, b"1");
    let f2 = a.seal(7, FRAME_DATA, b"2");
    let f3 = a.seal(7, FRAME_DATA, b"3");
    assert!(b.try_open(&f1).is_some());
    assert!(b.try_open(&f3).is_some()); // f2 "丢失"
    assert_eq!(b.stats(), (2, 1));
    assert!(b.try_open(&f2).is_some()); // 迟到补位
    assert_eq!(b.stats(), (3, 0));
}

#[test]
fn generation_switch_not_counted_as_gap() {
    // 对端重启换 bootNonce：新代首包成为新水位，不得计成大跳缺口。
    let (ka, kb) = key_pair([7u8; 16]);
    let ka_restart = ka.clone();
    let mut a1 = PacketCodec::new(ka);
    let mut b = PacketCodec::new(kb);
    for i in 1..=3u64 {
        assert!(b.try_open(&a1.seal(7, FRAME_DATA, &i.to_le_bytes())).is_some());
    }
    let mut a2 = PacketCodec::new(ka_restart); // 新代 counter 从 1 重新开始
    for i in 1..=2u64 {
        assert!(b.try_open(&a2.seal(7, FRAME_DATA, &i.to_le_bytes())).is_some());
    }
    assert_eq!(b.stats(), (5, 0));
}

#[test]
fn stats_survive_generation_eviction() {
    // 旧代（含缺口）被代数上限淘汰后，统计并入 retired，差分口径不丢历史。
    let (ka, kb) = key_pair([9u8; 16]);
    let mut a0 = PacketCodec::new(ka.clone());
    let mut b = PacketCodec::new(kb);
    let f1 = a0.seal(7, FRAME_DATA, b"1");
    a0.seal(7, FRAME_DATA, b"2"); // f2 不发送：制造缺口
    let f3 = a0.seal(7, FRAME_DATA, b"3");
    assert!(b.try_open(&f1).is_some());
    assert!(b.try_open(&f3).is_some()); // 缺口 1
    assert_eq!(b.stats(), (2, 1));

    // 超过 BOOT_NONCE_GENERATIONS 次重启，把首代淘汰出窗口。
    for _ in 0..BOOT_NONCE_GENERATIONS {
        let mut a = PacketCodec::new(ka.clone());
        assert!(b.try_open(&a.seal(7, FRAME_DATA, b"x")).is_some());
    }
    // 首代 (2,1) + 32 个新代各 1 帧。
    assert_eq!(b.stats(), (2 + BOOT_NONCE_GENERATIONS as u64, 1));
}

#[test]
fn a_run_opens_each_frame_once() {
    let okm = [5u8; 64];
    let sender = |boot: u8| PacketCodec::with_boot_nonce(SessionKeys::from_okm(&okm, true), [boot; 16]);
    let mut a = sender(1);
    let mut a2 = sender(2);
    let mut b = PacketCodec::with_boot_nonce(SessionKeys::from_okm(&okm, false), [3; 16]);
    let frames: Vec<Vec<u8>> = (0..200u8).map(|i| a.seal(7, FRAME_DATA, &[i])).collect();
    // In any order within the window, and only once.
    for k in [50usize, 3, 49, 0, 127, 3, 50, 0, 64] {
        let first = b.try_open(&frames[k]);
        assert!(b.try_open(&frames[k]).is_none());
        if let Some((sender, ty, plain)) = first {
            assert_eq!((sender, ty, plain), (7, FRAME_DATA, vec![k as u8]));
        }
    }
    assert_eq!(b.stats().0, 6);
    // A whole window behind is too late.
    assert!(b.try_open(&frames[130]).is_some());
    assert!(b.try_open(&frames[2]).is_none());
    assert!(b.try_open(&frames[4]).is_some());
    // A later start is heard from its first frame on, and ends the earlier one.
    assert!(b.try_open(&a2.seal(7, FRAME_DATA, b"new")).is_some());
    assert!(b.try_open(&frames[131]).is_none());
    assert!(b.try_open(&frames[199]).is_none());
    assert!(b.try_open(&a2.seal(7, FRAME_DATA, b"newer")).is_some());
}
