use starskiff::crypto::node_keys::NodeKeys;
use starskiff::crypto::replay::ReplayWindow;
use starskiff::crypto::session_keys::SessionKeys;
use starskiff::crypto::tokens::{make_admin_token, make_device_token, make_enroll_token, matches_pin, split_token};

use ed25519_dalek::SigningKey;
use rand_core::OsRng;
use x25519_dalek::{PublicKey, StaticSecret};

#[test]
fn sizes_and_hex_round_trip() {
    let k = NodeKeys::generate();
    assert_eq!(k.sign_public.len(), 32);
    assert_eq!(k.sign_secret.len(), 32);
    assert_eq!(k.dh_public.len(), 32);
    assert_eq!(k.dh_secret.len(), 32);
    assert_eq!(hex::decode(k.sign_public_hex()).unwrap(), k.sign_public);
    assert_eq!(hex::decode(k.dh_public_hex()).unwrap(), k.dh_public);
    // Seed expands to the matching public key.
    let signing = SigningKey::from_bytes(&k.sign_secret);
    assert_eq!(signing.verifying_key().to_bytes(), k.sign_public);
}

#[test]
fn dh_pair_is_valid() {
    let k = NodeKeys::generate();
    let secret = StaticSecret::from(k.dh_secret);
    assert_eq!(PublicKey::from(&secret).to_bytes(), k.dh_public);
}

#[test]
fn first_packet_accepted() {
    let mut w = ReplayWindow::new();
    assert!(w.check_and_set(1000));
    assert!(!w.check_and_set(1000));
}

#[test]
fn in_order_and_duplicates() {
    let mut w = ReplayWindow::new();
    assert!(w.check_and_set(1));
    assert!(w.check_and_set(2));
    assert!(w.check_and_set(3));
    assert!(!w.check_and_set(2));
    assert!(!w.check_and_set(3));
}

#[test]
fn reorder_within_window() {
    let mut w = ReplayWindow::new();
    assert!(w.check_and_set(3));
    assert!(w.check_and_set(1));
    assert!(w.check_and_set(2));
    assert!(!w.check_and_set(1));
}

#[test]
fn jump_beyond_window_clears() {
    let mut w = ReplayWindow::new();
    assert!(w.check_and_set(1000));
    assert!(!w.check_and_set(800)); // 200 behind: far past rejected
    assert!(w.check_and_set(1500)); // big jump accepted, window cleared
    assert!(w.check_and_set(1495)); // near-past of new mark accepted
}

#[test]
fn reset_forgets_everything() {
    let mut w = ReplayWindow::new();
    assert!(w.check_and_set(5));
    w.reset();
    assert!(w.check_and_set(5));
    assert_eq!(w.stats(), (1, 0));
}

#[test]
fn continuous_stream_has_zero_gap() {
    let mut w = ReplayWindow::new();
    for seq in 1..=100 {
        assert!(w.check_and_set(seq));
    }
    assert_eq!(w.stats(), (100, 0));
}

#[test]
fn skipped_counter_charged_as_gap() {
    let mut w = ReplayWindow::new();
    assert!(w.check_and_set(1));
    assert!(w.check_and_set(2));
    assert!(w.check_and_set(4)); // 3 丢失
    assert_eq!(w.stats(), (3, 1));
}

#[test]
fn late_fill_refunds_gap() {
    let mut w = ReplayWindow::new();
    assert!(w.check_and_set(1));
    assert!(w.check_and_set(3)); // 2 预记缺口
    assert_eq!(w.stats(), (2, 1));
    assert!(w.check_and_set(2)); // 迟到补位，撤回
    assert_eq!(w.stats(), (3, 0));
}

#[test]
fn replay_and_far_past_do_not_distort_stats() {
    let mut w = ReplayWindow::new();
    assert!(w.check_and_set(1000));
    assert!(w.check_and_set(1001));
    assert!(!w.check_and_set(1001)); // 重放
    assert!(!w.check_and_set(700)); // 超窗迟到（缺口已在推进时计入）
    assert_eq!(w.stats(), (2, 0));
}

#[test]
fn big_jump_accumulates_permanent_gap() {
    let mut w = ReplayWindow::new();
    assert!(w.check_and_set(1000));
    assert!(w.check_and_set(1500)); // 跳号 500，499 帧缺口永不可补
    assert_eq!(w.stats(), (2, 499));
    assert!(w.check_and_set(1495)); // 新水位近侧迟到帧补回 1
    assert_eq!(w.stats(), (3, 498));
}

fn keypair() -> ([u8; 32], [u8; 32]) {
    let secret = StaticSecret::random_from_rng(OsRng);
    let public = PublicKey::from(&secret);
    (secret.to_bytes(), public.to_bytes())
}

#[test]
fn symmetric_keys() {
    let (a_priv, a_pub) = keypair();
    let (b_priv, b_pub) = keypair();
    let net = [7u8; 16];
    let ka = SessionKeys::derive(&a_priv, &a_pub, &b_pub, &net).unwrap();
    let kb = SessionKeys::derive(&b_priv, &b_pub, &a_pub, &net).unwrap();
    assert_eq!(ka.send_key, kb.recv_key);
    assert_eq!(ka.recv_key, kb.send_key);
}

#[test]
fn different_networks_derive_different_keys() {
    let (a_priv, a_pub) = keypair();
    let (_b_priv, b_pub) = keypair();
    let k1 = SessionKeys::derive(&a_priv, &a_pub, &b_pub, &[1; 16]).unwrap();
    let k2 = SessionKeys::derive(&a_priv, &a_pub, &b_pub, &[2; 16]).unwrap();
    assert_ne!(k1.send_key, k2.send_key);
}

#[test]
fn self_session_takes_low_branch() {
    // Same key on both sides: the "mine is low" branch, so send and recv use
    // the two halves of the key material.
    let (priv1, pub1) = keypair();
    let k = SessionKeys::derive(&priv1, &pub1, &pub1, &[9; 16]).unwrap();
    assert_ne!(k.send_key, k.recv_key);
    assert!(k.send_key.iter().any(|&b| b != 0));
}

#[test]
fn token_shape() {
    let t = make_enroll_token();
    assert!(t.starts_with("skk_"));
    assert_eq!(t.len(), "skk_".len() + 32); // 24 bytes -> 32 base64 chars
    assert!(!t.contains('=') && !t.contains('+') && !t.contains('/'));
}

#[test]
fn fresh_tokens_are_bare() {
    for (token, prefix) in
        [(make_enroll_token(), "skk_"), (make_device_token(), "skd_"), (make_admin_token(), "ska_")]
    {
        assert!(token.starts_with(prefix));
        assert_eq!(token.len(), 36);
        assert!(token[4..].chars().all(|c| c.is_ascii_alphanumeric() || c == '-' || c == '_'));
        assert_eq!(split_token(&token), (token.clone(), None));
    }
}

#[test]
fn split_behaviour() {
    let fp = "ab".repeat(32);
    let (bare, got) = split_token(&format!("skk_abc.{fp}"));
    assert_eq!(bare, "skk_abc");
    assert_eq!(got.as_deref(), Some(fp.as_str()));

    // Non-hex or wrong-length suffixes are not fingerprints.
    let (bare, got) = split_token("skk_abc.xyz");
    assert_eq!(bare, "skk_abc.xyz");
    assert!(got.is_none());
    let (bare, got) = split_token(&format!("skk_abc.{}", "a".repeat(63)));
    assert!(got.is_none());
    assert_eq!(bare, format!("skk_abc.{}", "a".repeat(63)));
    // Uppercase hex still counts.
    let (_bare, got) = split_token(&format!("skk_abc.{}", "AB".repeat(32)));
    assert_eq!(got.as_deref(), Some("AB".repeat(32).as_str()));
    // Multiple dots: split at the last one.
    let (bare, got) = split_token(&format!("skk_a.b.{fp}"));
    assert_eq!(bare, "skk_a.b");
    assert!(got.is_some());
}

#[test]
fn pin_compare_case_insensitive() {
    assert!(matches_pin("abcdef", "ABCDEF"));
    assert!(!matches_pin("abcdef", "abcdeg"));
}
