//! Session keys from two static X25519 pairs.
//!
//! ```text
//! shared = X25519(my secret, peer public)             refused when all zero
//! okm    = HKDF-SHA256(ikm = shared, salt = network id,
//!                      info = "starskiff/session/v1" || low || high, 64 bytes)
//! ```
//!
//! `low` and `high` are the two public keys in lexicographic order. The lower
//! side sends with the first half of `okm` and receives with the second; the
//! higher side does the opposite. A session with oneself takes the lower side.

use vstd::prelude::*;
use vstd::utf8::encode_utf8;

use crate::crypto::primitives::{hkdf_expand, wipe, x25519_agree};
use crate::endec::{append_bytes, to_array};
use crate::crypto::primitives;

verus! {

/// What the info string of the key derivation starts with.
pub const KDF_INFO_PREFIX: &'static str = "starskiff/session/v1";

/// Bytes of output key material.
pub const OKM_LEN: usize = 64;

/// Why no session keys came out.
#[derive(Debug, Clone, Copy, PartialEq, Eq)]
pub enum KdfError {
    /// The peer's public key has small order.
    DegenerateSharedSecret,
}

impl KdfError {
    /// The error in words.
    pub fn message(&self) -> (text: &'static str)
        ensures
            text@ == "X25519 共享秘密无效（小阶公钥）"@,
    {
        "X25519 共享秘密无效（小阶公钥）"
    }
}

/// The two directions of a session.
pub struct SessionKeys {
    pub send_key: [u8; 32],
    pub recv_key: [u8; 32],
}

impl Clone for SessionKeys {
    fn clone(&self) -> (copy: Self)
        ensures
            copy == *self,
    {
        SessionKeys { send_key: self.send_key, recv_key: self.recv_key }
    }
}

/// Lexicographic order of byte strings of one length.
pub open spec fn lex_less(a: Seq<u8>, b: Seq<u8>) -> bool {
    exists|i: int|
        0 <= i < a.len() && i < b.len() && a.take(i) == b.take(i) && #[trigger] a[i] < b[i]
}

/// Of two byte strings of one length, neither both nor none precedes the other,
/// unless they are the same.
pub proof fn lemma_lex_total(a: Seq<u8>, b: Seq<u8>)
    requires
        a.len() == b.len(),
    ensures
        !(lex_less(a, b) && lex_less(b, a)),
        a != b ==> lex_less(a, b) || lex_less(b, a),
        a == b ==> !lex_less(a, b),
{
    if lex_less(a, b) && lex_less(b, a) {
        let i = choose|i: int|
            0 <= i < a.len() && i < b.len() && a.take(i) == b.take(i) && #[trigger] a[i] < b[i];
        let j = choose|j: int|
            0 <= j < b.len() && j < a.len() && b.take(j) == a.take(j) && #[trigger] b[j] < a[j];
        if i < j {
            assert(a[i] == a.take(j)[i]);
            assert(b[i] == b.take(j)[i]);
        } else if j < i {
            assert(a[j] == a.take(i)[j]);
            assert(b[j] == b.take(i)[j]);
        }
    }
    if a != b {
        lemma_first_difference(a, b, a.len());
    }
}

proof fn lemma_first_difference(a: Seq<u8>, b: Seq<u8>, n: nat)
    requires
        n <= a.len(),
        a.len() == b.len(),
        a.take(n as int) != b.take(n as int) || (n == a.len() && a != b),
    ensures
        lex_less(a, b) || lex_less(b, a),
    decreases n,
{
    assert(a.take(a.len() as int) =~= a);
    assert(b.take(b.len() as int) =~= b);
    if n == 0 {
        assert(a.take(0) =~= b.take(0));
    } else {
        let m = (n - 1) as nat;
        if a.take(m as int) != b.take(m as int) {
            lemma_first_difference(a, b, m);
        } else {
            if a[m as int] == b[m as int] {
                assert(a.take(n as int) =~= a.take(m as int).push(a[m as int]));
                assert(b.take(n as int) =~= b.take(m as int).push(b[m as int]));
            }
            assert(a[m as int] < b[m as int] || b[m as int] < a[m as int]);
        }
    }
}

/// The info string of a session between two public keys.
pub open spec fn session_info_spec(low: Seq<u8>, high: Seq<u8>) -> Seq<u8> {
    encode_utf8(KDF_INFO_PREFIX@) + low + high
}

/// Which side of a session `mine` is on: the lower one unless the peer's key
/// precedes it.
pub open spec fn mine_is_low(mine: Seq<u8>, peer: Seq<u8>) -> bool {
    !lex_less(peer, mine)
}

/// The info string for `mine` and `peer`, whichever is lower.
pub open spec fn pair_info(mine: Seq<u8>, peer: Seq<u8>) -> Seq<u8> {
    if mine_is_low(mine, peer) {
        session_info_spec(mine, peer)
    } else {
        session_info_spec(peer, mine)
    }
}

/// Send and receive key out of the output key material.
pub open spec fn split_okm(okm: Seq<u8>, low: bool) -> (Seq<u8>, Seq<u8>) {
    if low {
        (okm.take(32), okm.skip(32))
    } else {
        (okm.skip(32), okm.take(32))
    }
}

/// Send and receive key of a session, or nothing where the shared secret is
/// all zero.
pub open spec fn session_keys_of(
    secret: Seq<u8>,
    mine: Seq<u8>,
    peer: Seq<u8>,
    network: Seq<u8>,
) -> Option<(Seq<u8>, Seq<u8>)> {
    let shared = primitives::x25519_shared(secret, peer);
    if shared == Seq::new(32, |i: int| 0u8) {
        None
    } else {
        Some(
            split_okm(
                primitives::hkdf_okm(network, shared, pair_info(mine, peer)),
                mine_is_low(mine, peer),
            ),
        )
    }
}

/// Whether `a` comes before `b` in lexicographic order.
pub fn precedes(a: &[u8; 32], b: &[u8; 32]) -> (less: bool)
    ensures
        less == lex_less(a@, b@),
{
    proof {
        lemma_lex_total(a@, b@);
    }
    let mut i: usize = 0;
    while i < 32
        invariant
            i <= 32,
            a@.take(i as int) == b@.take(i as int),
            !(lex_less(a@, b@) && lex_less(b@, a@)),
            a@ == b@ ==> !lex_less(a@, b@),
        decreases 32 - i,
    {
        if a[i] < b[i] {
            assert(a@[i as int] < b@[i as int]);
            assert(lex_less(a@, b@));
            return true;
        }
        if b[i] < a[i] {
            assert(b@[i as int] < a@[i as int]);
            assert(lex_less(b@, a@));
            return false;
        }
        assert(a@.take(i + 1) =~= a@.take(i as int).push(a@[i as int]));
        assert(b@.take(i + 1) =~= b@.take(i as int).push(b@[i as int]));
        i += 1;
    }
    assert(a@ =~= a@.take(32));
    assert(b@ =~= b@.take(32));
    false
}

/// The info string of a session, and whether `mine` is the lower side.
pub fn session_info(mine: &[u8; 32], peer: &[u8; 32]) -> (info: (Vec<u8>, bool))
    ensures
        info.0@ == pair_info(mine@, peer@),
        info.1 == mine_is_low(mine@, peer@),
{
    let low = !precedes(peer, mine);
    let mut info: Vec<u8> = Vec::new();
    append_bytes(&mut info, KDF_INFO_PREFIX.as_bytes());
    if low {
        append_bytes(&mut info, mine.as_slice());
        append_bytes(&mut info, peer.as_slice());
    } else {
        append_bytes(&mut info, peer.as_slice());
        append_bytes(&mut info, mine.as_slice());
    }
    assert(info@ =~= pair_info(mine@, peer@));
    (info, low)
}

impl SessionKeys {
    /// The two keys as byte strings: send, then receive.
    pub open spec fn pair(&self) -> (Seq<u8>, Seq<u8>) {
        (self.send_key@, self.recv_key@)
    }

    /// Splits the output key material between the two directions.
    pub fn from_okm(okm: &[u8; 64], low: bool) -> (keys: SessionKeys)
        ensures
            keys.pair() == split_okm(okm@, low),
    {
        let front: [u8; 32] = to_array(vstd::slice::slice_subrange(okm.as_slice(), 0, 32));
        let back: [u8; 32] = to_array(vstd::slice::slice_subrange(okm.as_slice(), 32, 64));
        assert(front@ =~= okm@.take(32));
        assert(back@ =~= okm@.skip(32));
        if low {
            SessionKeys { send_key: front, recv_key: back }
        } else {
            SessionKeys { send_key: back, recv_key: front }
        }
    }

    /// Agrees on the keys of a session. What one side sends with, the other
    /// side receives with: that is the last clause, for a peer whose public key
    /// belongs to `other`.
    pub fn derive(
        my_dh_priv: &[u8; 32],
        my_dh_pub: &[u8; 32],
        peer_dh_pub: &[u8; 32],
        network_id: &[u8; 16],
    ) -> (keys: Result<SessionKeys, KdfError>)
        ensures
            match keys {
                Ok(k) => session_keys_of(my_dh_priv@, my_dh_pub@, peer_dh_pub@, network_id@)
                    == Some(k.pair()),
                Err(e) => e == KdfError::DegenerateSharedSecret && session_keys_of(
                    my_dh_priv@,
                    my_dh_pub@,
                    peer_dh_pub@,
                    network_id@,
                ) is None,
            },
            forall|other: Seq<u8>|
                #![trigger primitives::x25519_public(other)]
                other.len() == 32 && primitives::x25519_public(other) == peer_dh_pub@ && primitives::x25519_public(
                    my_dh_priv@,
                ) == my_dh_pub@ && my_dh_pub@ != peer_dh_pub@ ==> match keys {
                    Ok(k) => session_keys_of(other, peer_dh_pub@, my_dh_pub@, network_id@) == Some(
                        (k.recv_key@, k.send_key@),
                    ),
                    Err(_) => session_keys_of(other, peer_dh_pub@, my_dh_pub@, network_id@) is None,
                },
    {
        proof {
            lemma_lex_total(my_dh_pub@, peer_dh_pub@);
        }
        let (shared, contributory) = x25519_agree(my_dh_priv, peer_dh_pub);
        if !contributory {
            return Err(KdfError::DegenerateSharedSecret);
        }
        let (info, low) = session_info(my_dh_pub, peer_dh_pub);
        let mut okm = hkdf_expand(network_id.as_slice(), shared.as_slice(), info.as_slice());
        let keys = SessionKeys::from_okm(&okm, low);
        wipe(&mut okm);
        Ok(keys)
    }
}

/// The lower side of a session sends with the first half of what the two agree on, and
/// receives with the second; the higher side does the opposite. Both name the lower key
/// first when they ask for it, and the network decides it too.
pub proof fn lemma_lower_side_sends_first(
    secret: Seq<u8>,
    mine: Seq<u8>,
    peer: Seq<u8>,
    network: Seq<u8>,
)
    requires
        mine.len() == peer.len(),
        primitives::x25519_shared(secret, peer) != Seq::new(32, |i: int| 0u8),
    ensures
        ({
            let shared = primitives::x25519_shared(secret, peer);
            let label = encode_utf8("starskiff/session/v1"@);
            let lower = primitives::hkdf_okm(network, shared, label + mine + peer);
            let higher = primitives::hkdf_okm(network, shared, label + peer + mine);
            &&& lex_less(mine, peer) ==> session_keys_of(secret, mine, peer, network) == Some(
                (lower.take(32), lower.skip(32)),
            )
            &&& lex_less(peer, mine) ==> session_keys_of(secret, mine, peer, network) == Some(
                (higher.skip(32), higher.take(32)),
            )
        }),
{
    lemma_lex_total(mine, peer);
}

/// Two sides that share a secret agree on the keys: what one sends with, the other
/// receives with. Neither has a session where the secret is all zero.
pub proof fn lemma_directions_cross(
    a_secret: Seq<u8>,
    a: Seq<u8>,
    b_secret: Seq<u8>,
    b: Seq<u8>,
    network: Seq<u8>,
)
    requires
        a.len() == b.len(),
        a != b,
        primitives::x25519_shared(a_secret, b) == primitives::x25519_shared(b_secret, a),
    ensures
        session_keys_of(a_secret, a, b, network) is None <==> primitives::x25519_shared(a_secret, b)
            == Seq::new(32, |i: int| 0u8),
        session_keys_of(a_secret, a, b, network) is None <==> session_keys_of(b_secret, b, a, network) is None,
        session_keys_of(a_secret, a, b, network) matches Some(keys) ==> session_keys_of(
            b_secret,
            b,
            a,
            network,
        ) == Some((keys.1, keys.0)),
{
    lemma_lex_total(a, b);
}

/// Keys are compared byte by byte from the front.
pub proof fn lemma_first_difference_decides(a: Seq<u8>, b: Seq<u8>, i: int)
    requires
        a.len() == b.len(),
        0 <= i < a.len(),
        forall|j: int| 0 <= j < i ==> #[trigger] a[j] == b[j],
        a[i] < b[i],
    ensures
        lex_less(a, b),
        !lex_less(b, a),
{
    assert(a.take(i) =~= b.take(i));
    lemma_lex_total(a, b);
}

} // verus!
