//! Tokens, and the fingerprint that a token can carry.
//!
//! A token is a prefix and 24 random bytes in unpadded URL base64. Enroll and
//! admin tokens may end in a dot and 64 hexadecimal digits: the SHA-256
//! fingerprint of the server's certificate, so that the token itself is the
//! channel of trust for the first contact.

use vstd::prelude::*;
use vstd::utf8::encode_utf8;

use crate::addr::find_last_char;
use crate::consts::{
    ADMIN_TOKEN_PREFIX, DEVICE_TOKEN_PREFIX, ENROLL_TOKEN_PREFIX, TOKEN_RANDOM_BYTES,
};
use crate::crypto::primitives::{base64_url_encode, hex_encode, random_bytes, sha256};
use crate::text::{chars_of, join, owned, string_of};
use crate::addr;
use crate::crypto::primitives;

verus! {

/// Whether a text is a token with this prefix.
pub open spec fn is_token(text: Seq<char>, prefix: Seq<char>) -> bool {
    exists|raw: Seq<u8>|
        raw.len() == TOKEN_RANDOM_BYTES && text == prefix + #[trigger] primitives::base64_url(raw)
}

/// The token that `raw` makes.
pub fn token_of(prefix: &str, raw: &[u8; TOKEN_RANDOM_BYTES]) -> (token: String)
    ensures
        token@ == prefix@ + primitives::base64_url(raw@),
        token@.len() == prefix@.len() + 32,
        forall|i: int|
            prefix@.len() <= i < token@.len() ==> primitives::is_base64_url_char(#[trigger] token@[i]),
{
    let body = base64_url_encode(raw.as_slice());
    proof {
        primitives::lemma_base64_url(raw@);
    }
    join(prefix, body.as_str())
}

/// A fresh token with this prefix.
pub fn make_token(prefix: &str) -> (token: String)
    ensures
        is_token(token@, prefix@),
        token@.len() == prefix@.len() + 32,
        token@.take(prefix@.len() as int) == prefix@,
        forall|i: int|
            prefix@.len() <= i < token@.len() ==> primitives::is_base64_url_char(#[trigger] token@[i]),
{
    let raw: [u8; TOKEN_RANDOM_BYTES] = random_bytes::<TOKEN_RANDOM_BYTES>();
    let token = token_of(prefix, &raw);
    assert(token@.take(prefix@.len() as int) =~= prefix@);
    token
}

/// A fresh device token.
pub fn make_device_token() -> (token: String)
    ensures
        is_token(token@, DEVICE_TOKEN_PREFIX@),
        token@.len() == DEVICE_TOKEN_PREFIX@.len() + 32,
        token@.take(DEVICE_TOKEN_PREFIX@.len() as int) == DEVICE_TOKEN_PREFIX@,
        forall|i: int|
            DEVICE_TOKEN_PREFIX@.len() <= i < token@.len() ==> primitives::is_base64_url_char(
                #[trigger] token@[i],
            ),
        token@.len() == 36,
        !token@.contains('.'),
        split_spec(token@) == (token@, None::<Seq<char>>),
{
    let token = make_token(DEVICE_TOKEN_PREFIX);
    proof {
        reveal_strlit("skd_");
        lemma_fresh_token_is_bare(token@, DEVICE_TOKEN_PREFIX@);
    }
    token
}

/// A fresh admin token.
pub fn make_admin_token() -> (token: String)
    ensures
        is_token(token@, ADMIN_TOKEN_PREFIX@),
        token@.len() == ADMIN_TOKEN_PREFIX@.len() + 32,
        token@.take(ADMIN_TOKEN_PREFIX@.len() as int) == ADMIN_TOKEN_PREFIX@,
        forall|i: int|
            ADMIN_TOKEN_PREFIX@.len() <= i < token@.len() ==> primitives::is_base64_url_char(
                #[trigger] token@[i],
            ),
        token@.len() == 36,
        !token@.contains('.'),
        split_spec(token@) == (token@, None::<Seq<char>>),
{
    let token = make_token(ADMIN_TOKEN_PREFIX);
    proof {
        reveal_strlit("ska_");
        lemma_fresh_token_is_bare(token@, ADMIN_TOKEN_PREFIX@);
    }
    token
}

/// A fresh enroll token.
pub fn make_enroll_token() -> (token: String)
    ensures
        is_token(token@, ENROLL_TOKEN_PREFIX@),
        token@.len() == ENROLL_TOKEN_PREFIX@.len() + 32,
        token@.take(ENROLL_TOKEN_PREFIX@.len() as int) == ENROLL_TOKEN_PREFIX@,
        forall|i: int|
            ENROLL_TOKEN_PREFIX@.len() <= i < token@.len() ==> primitives::is_base64_url_char(
                #[trigger] token@[i],
            ),
        token@.len() == 36,
        !token@.contains('.'),
        split_spec(token@) == (token@, None::<Seq<char>>),
{
    let token = make_token(ENROLL_TOKEN_PREFIX);
    proof {
        reveal_strlit("skk_");
        lemma_fresh_token_is_bare(token@, ENROLL_TOKEN_PREFIX@);
    }
    token
}

/// A fresh token carries no fingerprint: it splits into itself and nothing.
pub proof fn lemma_fresh_token_is_bare(token: Seq<char>, prefix: Seq<char>)
    requires
        prefix.len() <= token.len(),
        token.take(prefix.len() as int) == prefix,
        !prefix.contains('.'),
        forall|i: int|
            prefix.len() <= i < token.len() ==> primitives::is_base64_url_char(#[trigger] token[i]),
    ensures
        !token.contains('.'),
        split_spec(token) == (token, None::<Seq<char>>),
{
    assert forall|i: int| 0 <= i < token.len() implies token[i] != '.' by {
        if i < prefix.len() {
            assert(token.take(prefix.len() as int)[i] == token[i]);
            assert(prefix.contains(prefix[i]));
        } else {
            assert(primitives::is_base64_url_char(token[i]));
        }
    }
    addr::lemma_last_of(token, '.', -1);
}

/// SHA-256 over the UTF-8 bytes of `s`, in lowercase hexadecimal.
pub fn sha256_hex(s: &str) -> (text: String)
    ensures
        text@ == primitives::hex_text(primitives::sha256_digest(encode_utf8(s@))),
{
    let digest = sha256(s.as_bytes());
    hex_encode(digest.as_slice())
}

/// A token with a fingerprint behind a dot.
pub fn with_fingerprint(bare: &str, fingerprint: &str) -> (token: String)
    ensures
        token@ == bare@.push('.') + fingerprint@,
{
    let mut token = owned(bare);
    token.push('.');
    token.append(fingerprint);
    token
}

/// Whether a text is a fingerprint: 64 hexadecimal digits.
pub open spec fn is_fingerprint(text: Seq<char>) -> bool {
    text.len() == 64 && forall|i: int| 0 <= i < text.len() ==> primitives::is_hex_char(#[trigger] text[i])
}

/// A token and the fingerprint behind its last dot. Where what follows the last
/// dot is no fingerprint, the whole text is the token.
pub open spec fn split_spec(token: Seq<char>) -> (Seq<char>, Option<Seq<char>>) {
    let dot = addr::last_of(token, '.');
    if dot >= 0 && is_fingerprint(token.skip(dot + 1)) {
        (token.take(dot), Some(token.skip(dot + 1)))
    } else {
        (token, None)
    }
}

fn is_hex64(chars: &[char], from: usize) -> (is: bool)
    requires
        from <= chars@.len(),
    ensures
        is == is_fingerprint(chars@.skip(from as int)),
{
    if chars.len() - from != 64 {
        return false;
    }
    let ghost suffix = chars@.skip(from as int);
    let mut i: usize = from;
    while i < chars.len()
        invariant
            from <= i <= chars@.len(),
            suffix == chars@.skip(from as int),
            forall|j: int| 0 <= j < i - from ==> primitives::is_hex_char(#[trigger] suffix[j]),
        decreases chars@.len() - i,
    {
        let c = chars[i];
        if !(('0' <= c && c <= '9') || ('a' <= c && c <= 'f') || ('A' <= c && c <= 'F')) {
            assert(!primitives::is_hex_char(suffix[i - from]));
            return false;
        }
        i += 1;
    }
    true
}

/// Splits a token into its bare form and its fingerprint.
pub fn split_token(token: &str) -> (parts: (String, Option<String>))
    ensures
        parts.0@ == split_spec(token@).0,
        match parts.1 {
            Some(fp) => split_spec(token@).1 == Some(fp@),
            None => split_spec(token@).1 is None,
        },
{
    let chars = chars_of(token);
    let n = chars.len();
    let dot: usize = match find_last_char(chars.as_slice(), '.') {
        Some(dot) => dot,
        None => {
            return (owned(token), None);
        },
    };
    let pos: usize = dot + 1;
    if is_hex64(chars.as_slice(), pos) {
        let bare = string_of(chars.as_slice(), 0, dot);
        let fp = string_of(chars.as_slice(), pos, n);
        assert(bare@ =~= token@.take(dot as int));
        assert(fp@ =~= token@.skip(pos as int));
        (bare, Some(fp))
    } else {
        (owned(token), None)
    }
}

/// A token gives back the fingerprint that was put on it.
pub proof fn lemma_split_undoes_with_fingerprint(bare: Seq<char>, fingerprint: Seq<char>)
    requires
        is_fingerprint(fingerprint),
    ensures
        split_spec(bare.push('.') + fingerprint) == (bare, Some(fingerprint)),
{
    let token = bare.push('.') + fingerprint;
    let dot = bare.len() as int;
    assert forall|j: int| dot < j < token.len() implies token[j] != '.' by {
        assert(token[j] == fingerprint[j - dot - 1]);
    }
    addr::lemma_last_of(token, '.', dot);
    assert(token.take(dot) =~= bare);
    assert(token.skip(dot + 1) =~= fingerprint);
}

/// A character in lowercase, ASCII letters only.
pub open spec fn ascii_lower(c: char) -> char {
    if 'A' <= c <= 'Z' {
        (c as u8 + 32) as char
    } else {
        c
    }
}

/// Equality that ignores the case of ASCII letters.
pub open spec fn same_ignoring_case(a: Seq<char>, b: Seq<char>) -> bool {
    a.len() == b.len() && forall|i: int|
        0 <= i < a.len() ==> ascii_lower(#[trigger] a[i]) == ascii_lower(b[i])
}

/// An ASCII letter in lowercase; any other character as it is.
pub fn lower(c: char) -> (l: char)
    ensures
        l == ascii_lower(c),
{
    if 'A' <= c && c <= 'Z' {
        (c as u8 + 32) as char
    } else {
        c
    }
}

/// Whether a certificate fingerprint is the pinned one, in either case.
pub fn matches_pin(actual_hex: &str, pin: &str) -> (matches: bool)
    ensures
        matches == same_ignoring_case(actual_hex@, pin@),
{
    let a = chars_of(actual_hex);
    let b = chars_of(pin);
    if a.len() != b.len() {
        return false;
    }
    let mut i: usize = 0;
    while i < a.len()
        invariant
            i <= a@.len(),
            a@.len() == b@.len(),
            a@ == actual_hex@,
            b@ == pin@,
            forall|j: int| 0 <= j < i ==> ascii_lower(#[trigger] a@[j]) == ascii_lower(b@[j]),
        decreases a@.len() - i,
    {
        if lower(a[i]) != lower(b[i]) {
            return false;
        }
        i += 1;
    }
    true
}

/// A token falls apart at its last dot, and only where 64 hexadecimal digits are all that
/// follows it. Put together again, the parts are the token.
pub proof fn lemma_token_falls_apart(token: Seq<char>, bare: Seq<char>, fingerprint: Seq<char>)
    ensures
        split_spec(token).1 is None ==> split_spec(token).0 == token,
        split_spec(token).1 matches Some(fp) ==> token == split_spec(token).0.push('.') + fp && fp.len() == 64,
        token == bare.push('.') + fingerprint && fingerprint.len() == 64 && (forall|i: int|
            0 <= i < 64 ==> '0' <= #[trigger] fingerprint[i] <= '9' || 'a' <= fingerprint[i] <= 'f' || 'A'
                <= fingerprint[i] <= 'F') ==> split_spec(token) == (bare, Some(fingerprint)),
        split_spec(token).1 matches Some(fp) ==> forall|i: int|
            0 <= i < 64 ==> '0' <= #[trigger] fp[i] <= '9' || 'a' <= fp[i] <= 'f' || 'A' <= fp[i] <= 'F',
{
    let dot = addr::last_of(token, '.');
    lemma_last_dot(token);
    if split_spec(token).1 is Some {
        assert(token =~= token.take(dot).push('.') + token.skip(dot + 1));
    }
    if is_fingerprint(fingerprint) && token == bare.push('.') + fingerprint {
        lemma_split_undoes_with_fingerprint(bare, fingerprint);
    }
}

proof fn lemma_last_dot(token: Seq<char>)
    ensures
        -1 <= addr::last_of(token, '.') < token.len(),
        addr::last_of(token, '.') >= 0 ==> token[addr::last_of(token, '.')] == '.',
    decreases token.len(),
{
    if token.len() > 0 && token.last() != '.' {
        lemma_last_dot(token.drop_last());
    }
}

/// Two characters count as the same if they are, or if they are the same ASCII letter in
/// either case.
pub proof fn lemma_case_alone_is_ignored(c: char, d: char)
    ensures
        ascii_lower(c) == ascii_lower(d) <==> c == d || ('A' <= c <= 'Z' && d as int == c as int + 32) || ('A'
            <= d <= 'Z' && c as int == d as int + 32),
{
}

/// Fingerprints match if and only if they are as long and match at every place.
pub proof fn lemma_match_is_at_every_place(a: Seq<char>, b: Seq<char>, i: int)
    ensures
        a == b ==> same_ignoring_case(a, b),
        same_ignoring_case(a, b) ==> a.len() == b.len() && same_ignoring_case(b, a),
        same_ignoring_case(a, b) && 0 <= i < a.len() && !('a' <= a[i] <= 'z') && !('A' <= a[i] <= 'Z')
            ==> a[i] == b[i],
        0 <= i < a.len() && i < b.len() && '0' <= a[i] <= '9' && a[i] != b[i] ==> !same_ignoring_case(a, b),
{
    if same_ignoring_case(a, b) {
        assert forall|j: int| 0 <= j < b.len() implies ascii_lower(#[trigger] b[j]) == ascii_lower(a[j]) by {
            assert(ascii_lower(a[j]) == ascii_lower(b[j]));
        }
        if 0 <= i < a.len() {
            assert(ascii_lower(a[i]) == ascii_lower(b[i]));
        }
    }
}

/// A token is its prefix and 32 characters of the URL alphabet of base64.
pub proof fn lemma_token_is_prefix_and_digits(token: Seq<char>, prefix: Seq<char>, i: int)
    requires
        is_token(token, prefix),
    ensures
        token.len() == prefix.len() + 32,
        token.take(prefix.len() as int) == prefix,
        prefix.len() <= i < token.len() ==> 'A' <= token[i] <= 'Z' || 'a' <= token[i] <= 'z' || '0' <= token[i]
            <= '9' || token[i] == '-' || token[i] == '_',
{
    let raw = choose|raw: Seq<u8>|
        raw.len() == TOKEN_RANDOM_BYTES && token == prefix + #[trigger] primitives::base64_url(raw);
    primitives::lemma_base64_url(raw);
    assert(token.take(prefix.len() as int) =~= prefix);
    if prefix.len() <= i < token.len() {
        assert(primitives::is_base64_url_char(primitives::base64_url(raw)[i - prefix.len()]));
    }
}

} // verus!
