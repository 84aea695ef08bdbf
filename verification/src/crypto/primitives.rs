//! The cryptographic primitives, each as one call into the crate that has it.
//!
//! Nothing here is proved: each function says what is believed of the call that
//! it makes. What a primitive computes has a name, and the contracts of the
//! library speak of these names.

use base64::Engine;
use chacha20poly1305::aead::{Aead, Payload};
use chacha20poly1305::{Key, KeyInit, XChaCha20Poly1305, XNonce};
use hmac::{Hmac, Mac};
use rand_core::{OsRng, RngCore};
use sha2::{Digest, Sha256};
use vstd::prelude::*;
use x25519_dalek::{PublicKey, StaticSecret};
use zeroize::Zeroize;

verus! {

/// What XChaCha20-Poly1305 makes of a message: ciphertext, then tag.
pub uninterp spec fn aead_sealed(key: Seq<u8>, nonce: Seq<u8>, aad: Seq<u8>, msg: Seq<u8>) -> Seq<
    u8,
>;

/// The message that XChaCha20-Poly1305 finds in a ciphertext, if it is authentic.
pub uninterp spec fn aead_opened(
    key: Seq<u8>,
    nonce: Seq<u8>,
    aad: Seq<u8>,
    sealed: Seq<u8>,
) -> Option<Seq<u8>>;

/// HKDF-SHA256: 64 bytes of output key material.
pub uninterp spec fn hkdf_okm(salt: Seq<u8>, ikm: Seq<u8>, info: Seq<u8>) -> Seq<u8>;

/// HMAC-SHA256.
pub uninterp spec fn hmac_tag(key: Seq<u8>, msg: Seq<u8>) -> Seq<u8>;

/// SHA-256.
pub uninterp spec fn sha256_digest(msg: Seq<u8>) -> Seq<u8>;

/// X25519 of a secret and a public key.
pub uninterp spec fn x25519_shared(secret: Seq<u8>, public: Seq<u8>) -> Seq<u8>;

/// The X25519 public key of a secret.
pub uninterp spec fn x25519_public(secret: Seq<u8>) -> Seq<u8>;

/// The Ed25519 public key of a seed.
pub uninterp spec fn ed25519_public(seed: Seq<u8>) -> Seq<u8>;

/// Longest message that one nonce of XChaCha20-Poly1305 can protect.
pub const AEAD_MAX_MESSAGE: u64 = 0x3f_ffff_ff80;

/// Length of `n` bytes in unpadded base64.
pub open spec fn base64_url_len(n: int) -> int {
    n / 3 * 4 + (if n % 3 == 0 {
        0int
    } else {
        n % 3 + 1
    })
}

/// The URL alphabet of base64.
pub open spec fn is_base64_url_char(c: char) -> bool {
    'A' <= c <= 'Z' || 'a' <= c <= 'z' || '0' <= c <= '9' || c == '-' || c == '_'
}

/// A byte, or zero past the end.
pub open spec fn byte_or_zero(raw: Seq<u8>, i: int) -> int {
    if i < raw.len() {
        raw[i] as int
    } else {
        0
    }
}

/// The six bits behind a digit of base64: three bytes make four digits, the highest
/// bits first.
pub open spec fn base64_value(raw: Seq<u8>, i: int) -> int {
    let at = i / 4 * 3;
    let word = byte_or_zero(raw, at) * 0x1_0000 + byte_or_zero(raw, at + 1) * 0x100 + byte_or_zero(
        raw,
        at + 2,
    );
    if i % 4 == 0 {
        word / 0x4_0000 % 64
    } else if i % 4 == 1 {
        word / 0x1000 % 64
    } else if i % 4 == 2 {
        word / 0x40 % 64
    } else {
        word % 64
    }
}

/// A digit of base64. The alphabets differ in the last two.
pub open spec fn base64_digit(v: int, last_two: (char, char)) -> char {
    if v < 26 {
        ('A' as u8 + v) as char
    } else if v < 52 {
        ('a' as u8 + (v - 26)) as char
    } else if v < 62 {
        ('0' as u8 + (v - 52)) as char
    } else if v == 62 {
        last_two.0
    } else {
        last_two.1
    }
}

/// Base64 with the URL alphabet and without padding.
pub open spec fn base64_url(raw: Seq<u8>) -> Seq<char> {
    Seq::new(
        base64_url_len(raw.len() as int) as nat,
        |i: int| base64_digit(base64_value(raw, i), ('-', '_')),
    )
}

/// Unpadded URL base64 has the length that the bytes ask for, and keeps to its
/// alphabet.
pub proof fn lemma_base64_url(raw: Seq<u8>)
    ensures
        base64_url(raw).len() == base64_url_len(raw.len() as int),
        forall|i: int|
            0 <= i < base64_url(raw).len() ==> is_base64_url_char(#[trigger] base64_url(raw)[i]),
{
    assert forall|i: int| 0 <= i < base64_url(raw).len() implies is_base64_url_char(
        #[trigger] base64_url(raw)[i],
    ) by {
        assert(0 <= base64_value(raw, i) < 64);
    }
}

/// A digit of lowercase hexadecimal.
pub open spec fn hex_digit(v: int) -> char {
    if v < 10 {
        ('0' as u8 + v) as char
    } else {
        ('a' as u8 + (v - 10)) as char
    }
}

/// Lowercase hexadecimal: two digits for each byte, the high half first.
pub open spec fn hex_text(bytes: Seq<u8>) -> Seq<char> {
    Seq::new(
        2 * bytes.len(),
        |i: int|
            if i % 2 == 0 {
                hex_digit(bytes[i / 2] as int / 16)
            } else {
                hex_digit(bytes[i / 2] as int % 16)
            },
    )
}

/// A hexadecimal digit of either case.
pub open spec fn is_hex_char(c: char) -> bool {
    '0' <= c <= '9' || 'a' <= c <= 'f' || 'A' <= c <= 'F'
}

/// What a hexadecimal digit stands for.
pub open spec fn hex_char_value(c: char) -> int {
    if '0' <= c <= '9' {
        c as int - '0' as int
    } else if 'a' <= c <= 'f' {
        c as int - 'a' as int + 10
    } else {
        c as int - 'A' as int + 10
    }
}

/// Whether a text is an even number of hexadecimal digits.
pub open spec fn is_hex_text(text: Seq<char>) -> bool {
    text.len() % 2 == 0 && forall|i: int| 0 <= i < text.len() ==> is_hex_char(#[trigger] text[i])
}

/// The bytes that a hexadecimal text stands for.
pub open spec fn hex_bytes(text: Seq<char>) -> Seq<u8> {
    Seq::new(
        (text.len() / 2) as nat,
        |i: int| (16 * hex_char_value(text[2 * i]) + hex_char_value(text[2 * i + 1])) as u8,
    )
}

/// `XChaCha20Poly1305::encrypt` with the header as associated data.
///
/// Believed: the result depends on key, nonce, associated data and message
/// alone, is 16 bytes longer than the message, and decrypts to the message
/// under the same key, nonce and associated data. Up to the stated length the
/// call does not fail.
#[verifier::external_body]
pub(crate) fn aead_seal(key: &[u8; 32], nonce: &[u8; 24], aad: &[u8], msg: &[u8]) -> (sealed: Vec<
    u8,
>)
    requires
        msg@.len() <= AEAD_MAX_MESSAGE,
    ensures
        sealed@ == aead_sealed(key@, nonce@, aad@, msg@),
        sealed@.len() == msg@.len() + 16,
        aead_opened(key@, nonce@, aad@, sealed@) == Some(msg@),
{
    XChaCha20Poly1305::new(Key::from_slice(key))
        .encrypt(XNonce::from_slice(nonce), Payload { msg, aad })
        .expect("message within the length limit")
}

/// `XChaCha20Poly1305::decrypt`.
///
/// Believed: whether it succeeds, and with what, depends on key, nonce,
/// associated data and ciphertext alone, and what comes out is 16 bytes shorter
/// than the ciphertext.
#[verifier::external_body]
pub(crate) fn aead_open(key: &[u8; 32], nonce: &[u8; 24], aad: &[u8], sealed: &[u8]) -> (msg: Option<
    Vec<u8>,
>)
    requires
        sealed@.len() <= AEAD_MAX_MESSAGE,
    ensures
        match msg {
            Some(plain) => aead_opened(key@, nonce@, aad@, sealed@) == Some(plain@),
            None => aead_opened(key@, nonce@, aad@, sealed@) is None,
        },
        msg matches Some(plain) ==> plain@.len() + 16 == sealed@.len(),
{
    XChaCha20Poly1305::new(Key::from_slice(key))
        .decrypt(XNonce::from_slice(nonce), Payload { msg: sealed, aad })
        .ok()
}

/// `Hkdf::<Sha256>::new` and `expand` to 64 bytes, a length that `expand`
/// always accepts.
///
/// Believed: the output depends on salt, key material and info alone.
#[verifier::external_body]
pub(crate) fn hkdf_expand(salt: &[u8], ikm: &[u8], info: &[u8]) -> (okm: [u8; 64])
    ensures
        okm@ == hkdf_okm(salt@, ikm@, info@),
{
    let mut okm = [0u8; 64];
    hkdf::Hkdf::<Sha256>::new(Some(salt), ikm)
        .expand(info, &mut okm)
        .expect("64 bytes are within the limit");
    okm
}

/// `Hmac::<Sha256>` over one message, with a key of any length.
///
/// Believed: the tag depends on key and message alone.
#[verifier::external_body]
pub(crate) fn hmac_sha256(key: &[u8], msg: &[u8]) -> (tag: [u8; 32])
    ensures
        tag@ == hmac_tag(key@, msg@),
{
    let mut mac = <Hmac<Sha256> as Mac>::new_from_slice(key).expect("any key length is accepted");
    mac.update(msg);
    mac.finalize().into_bytes().into()
}

/// `Sha256::digest`.
///
/// Believed: the digest depends on the message alone.
#[verifier::external_body]
pub(crate) fn sha256(msg: &[u8]) -> (digest: [u8; 32])
    ensures
        digest@ == sha256_digest(msg@),
{
    Sha256::digest(msg).into()
}

/// `StaticSecret::diffie_hellman`, with `SharedSecret::was_contributory`.
///
/// Believed: the shared secret depends on the two keys alone; it counts as
/// contributory exactly when it is not all zero; and where the other side's
/// public key belongs to a secret, that secret and this side's public key give
/// the same shared secret.
#[verifier::external_body]
pub(crate) fn x25519_agree(secret: &[u8; 32], public: &[u8; 32]) -> (agreed: ([u8; 32], bool))
    ensures
        agreed.0@ == x25519_shared(secret@, public@),
        agreed.1 == (agreed.0@ != Seq::new(32, |i: int| 0u8)),
        forall|other: Seq<u8>|
            #![trigger x25519_public(other)]
            other.len() == 32 && x25519_public(other) == public@ ==> agreed.0@ == x25519_shared(
                other,
                x25519_public(secret@),
            ),
{
    let shared = StaticSecret::from(*secret).diffie_hellman(&PublicKey::from(*public));
    (shared.to_bytes(), shared.was_contributory())
}

/// `StaticSecret::random_from_rng` and `PublicKey::from`.
///
/// Believed: the second array is the public key of the first. Which secret
/// comes out is left to chance.
#[verifier::external_body]
pub(crate) fn x25519_generate() -> (pair: ([u8; 32], [u8; 32]))
    ensures
        pair.1@ == x25519_public(pair.0@),
{
    let secret = StaticSecret::random_from_rng(OsRng);
    (secret.to_bytes(), PublicKey::from(&secret).to_bytes())
}

/// `SigningKey::generate` of Ed25519.
///
/// Believed: the second array is the public key of the seed in the first. Which
/// seed comes out is left to chance.
#[verifier::external_body]
pub(crate) fn ed25519_generate() -> (pair: ([u8; 32], [u8; 32]))
    ensures
        pair.1@ == ed25519_public(pair.0@),
{
    let signing = ed25519_dalek::SigningKey::generate(&mut OsRng);
    (signing.to_bytes(), signing.verifying_key().to_bytes())
}

/// `OsRng::next_u32`: a number from the operating system's source of randomness.
///
/// Nothing is promised of the number.
#[verifier::external_body]
pub(crate) fn random_u32() -> (n: u32) {
    OsRng.next_u32()
}

/// `OsRng::fill_bytes`. Which bytes come out is left to chance.
#[verifier::external_body]
pub(crate) fn random_bytes<const N: usize>() -> (raw: [u8; N]) {
    let mut raw = [0u8; N];
    OsRng.fill_bytes(&mut raw);
    raw
}

/// `Zeroize::zeroize` on 64 bytes of key material.
///
/// Believed: every byte is zero afterwards.
#[verifier::external_body]
pub(crate) fn wipe(okm: &mut [u8; 64])
    ensures
        final(okm)@ == Seq::new(64, |i: int| 0u8),
{
    okm.zeroize();
}

/// `hex::encode`.
///
/// Believed: two lowercase digits for each byte.
#[verifier::external_body]
pub(crate) fn hex_encode(bytes: &[u8]) -> (text: String)
    requires
        2 * bytes@.len() <= isize::MAX,
    ensures
        text@ == hex_text(bytes@),
{
    hex::encode(bytes)
}

/// `hex::decode`.
///
/// Believed: it succeeds exactly on an even number of digits of either case,
/// and each pair of digits gives one byte.
#[verifier::external_body]
pub(crate) fn hex_decode(text: &str) -> (bytes: Option<Vec<u8>>)
    ensures
        bytes is Some == is_hex_text(text@),
        bytes matches Some(raw) ==> raw@ == hex_bytes(text@),
{
    hex::decode(text).ok()
}

/// `URL_SAFE_NO_PAD.encode` of base64.
///
/// Believed: the text is the unpadded encoding with the URL alphabet.
#[verifier::external_body]
pub(crate) fn base64_url_encode(raw: &[u8]) -> (text: String)
    requires
        base64_url_len(raw@.len() as int) <= isize::MAX,
    ensures
        text@ == base64_url(raw@),
{
    base64::engine::general_purpose::URL_SAFE_NO_PAD.encode(raw)
}

/// What a digit of base64 stands for, in the URL alphabet.
pub open spec fn base64_url_value(c: char) -> int {
    if 'A' <= c <= 'Z' {
        c as int - 'A' as int
    } else if 'a' <= c <= 'z' {
        c as int - 'a' as int + 26
    } else if '0' <= c <= '9' {
        c as int - '0' as int + 52
    } else if c == '-' {
        62
    } else {
        63
    }
}

/// Four digits of base64 give back the three bytes that they stand for.
pub proof fn lemma_base64_url_gives_back(raw: Seq<u8>, k: int)
    requires
        0 <= k,
        3 * k + 2 < raw.len(),
    ensures
        4 * k + 3 < base64_url(raw).len(),
        base64_url_value(base64_url(raw)[4 * k]) * 0x4_0000 + base64_url_value(base64_url(raw)[4 * k + 1])
            * 0x1000 + base64_url_value(base64_url(raw)[4 * k + 2]) * 0x40 + base64_url_value(
            base64_url(raw)[4 * k + 3],
        ) == raw[3 * k] * 0x1_0000 + raw[3 * k + 1] * 0x100 + raw[3 * k + 2],
{
    let word = raw[3 * k] as int * 0x1_0000 + raw[3 * k + 1] as int * 0x100 + raw[3 * k + 2] as int;
    let text = base64_url(raw);
    assert(raw.len() as int / 3 >= k + 1);
    assert(base64_value(raw, 4 * k) == word / 0x4_0000 % 64) by {
        assert(4 * k / 4 == k && 4 * k % 4 == 0);
    }
    assert(base64_value(raw, 4 * k + 1) == word / 0x1000 % 64) by {
        assert((4 * k + 1) / 4 == k && (4 * k + 1) % 4 == 1);
    }
    assert(base64_value(raw, 4 * k + 2) == word / 0x40 % 64) by {
        assert((4 * k + 2) / 4 == k && (4 * k + 2) % 4 == 2);
    }
    assert(base64_value(raw, 4 * k + 3) == word % 64) by {
        assert((4 * k + 3) / 4 == k && (4 * k + 3) % 4 == 3);
    }
    lemma_base64_digit(word / 0x4_0000 % 64);
    lemma_base64_digit(word / 0x1000 % 64);
    lemma_base64_digit(word / 0x40 % 64);
    lemma_base64_digit(word % 64);
    lemma_four_digits(word);
    assert(text[4 * k] == base64_digit(word / 0x4_0000 % 64, ('-', '_')));
    assert(text[4 * k + 1] == base64_digit(word / 0x1000 % 64, ('-', '_')));
    assert(text[4 * k + 2] == base64_digit(word / 0x40 % 64, ('-', '_')));
    assert(text[4 * k + 3] == base64_digit(word % 64, ('-', '_')));
}

proof fn lemma_base64_digit(v: int)
    requires
        0 <= v < 64,
    ensures
        base64_url_value(base64_digit(v, ('-', '_'))) == v,
{
}

proof fn lemma_four_digits(word: int)
    requires
        0 <= word < 0x100_0000,
    ensures
        word / 0x4_0000 % 64 * 0x4_0000 + word / 0x1000 % 64 * 0x1000 + word / 0x40 % 64 * 0x40 + word % 64
            == word,
{
    assert(word / 0x40 / 64 == word / 0x1000);
    assert(word / 0x1000 / 64 == word / 0x4_0000);
    assert(word / 0x4_0000 < 64);
}

/// A byte in hexadecimal is two digits, the high one first, and reads back as the byte.
pub proof fn lemma_hex_is_two_digits_a_byte(bytes: Seq<u8>, i: int)
    requires
        0 <= i < bytes.len(),
    ensures
        hex_text(bytes).len() == 2 * bytes.len(),
        hex_char_value(hex_text(bytes)[2 * i]) * 16 + hex_char_value(hex_text(bytes)[2 * i + 1]) == bytes[i],
        '0' <= hex_text(bytes)[2 * i] <= '9' || 'a' <= hex_text(bytes)[2 * i] <= 'f',
        '0' <= hex_text(bytes)[2 * i + 1] <= '9' || 'a' <= hex_text(bytes)[2 * i + 1] <= 'f',
        hex_bytes(hex_text(bytes)) == bytes,
{
    assert((2 * i) / 2 == i && (2 * i + 1) / 2 == i);
    assert forall|j: int| 0 <= j < bytes.len() implies #[trigger] hex_bytes(hex_text(bytes))[j] == bytes[j] by {
        assert((2 * j) / 2 == j && (2 * j + 1) / 2 == j);
        let t = hex_text(bytes);
        assert(t[2 * j] == hex_digit(bytes[j] as int / 16));
        assert(t[2 * j + 1] == hex_digit(bytes[j] as int % 16));
        assert(hex_char_value(hex_digit(bytes[j] as int / 16)) == bytes[j] as int / 16);
        assert(hex_char_value(hex_digit(bytes[j] as int % 16)) == bytes[j] as int % 16);
    }
    assert(hex_bytes(hex_text(bytes)) =~= bytes);
}

/// Hexadecimal may be written in either case: digits stand for themselves, and the six
/// letters for ten to fifteen.
pub proof fn lemma_hex_digits(v: int)
    requires
        0 <= v < 16,
    ensures
        v < 10 ==> hex_char_value((48 + v) as char) == v && is_hex_char((48 + v) as char),
        v >= 10 ==> hex_char_value((87 + v) as char) == v && is_hex_char((87 + v) as char),
        v >= 10 ==> hex_char_value((55 + v) as char) == v && is_hex_char((55 + v) as char),
        !is_hex_char('g') && !is_hex_char('G') && !is_hex_char('/') && !is_hex_char(':') && !is_hex_char('@')
            && !is_hex_char('`'),
{
}

} // verus!
