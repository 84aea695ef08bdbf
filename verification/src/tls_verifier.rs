//! Whether the certificate of the server is trusted. A fingerprint that was fixed
//! is compared. Without one, a certificate that a public authority vouches for is
//! trusted as it is, and any other is trusted once and then fixed.

use vstd::prelude::*;

use crate::crypto::primitives;
use crate::crypto::primitives::{hex_encode, sha256};
use crate::crypto::tokens;
use crate::crypto::tokens::matches_pin;
use crate::text;
use crate::text::{head_of, owned};

verus! {

/// The beginning of a fingerprint, for people to read.
pub open spec fn short(s: Seq<char>) -> Seq<char> {
    text::fitted(s, 12)
}

/// The beginning of a fingerprint, for people to read.
pub fn shorten(s: &str) -> (head: String)
    ensures
        head@ == short(s@),
{
    head_of(s, 12)
}

/// What is said of a certificate that is not the one that was fixed.
pub open spec fn mismatch(pin: Seq<char>, actual: Seq<char>) -> Seq<char> {
    "服务器证书指纹不匹配（期望 "@ + short(pin) + "… 实际 "@ + short(actual)
        + "…）；服务器已迁移或被劫持，请用新令牌重新 enroll"@
}

/// What is known of the server's certificate.
#[derive(Debug)]
pub struct TrustState {
    /// The fingerprint that is expected.
    pub pin: Option<String>,
    /// The fingerprint that was trusted without being known.
    pub tofu_fingerprint: Option<String>,
}

/// What is known of the server's certificate, as values.
pub ghost struct TrustView {
    pub pin: Option<Seq<char>>,
    pub tofu: Option<Seq<char>>,
}

impl View for TrustState {
    type V = TrustView;

    open spec fn view(&self) -> TrustView {
        TrustView {
            pin: match self.pin {
                Some(p) => Some(p@),
                None => None,
            },
            tofu: match self.tofu_fingerprint {
                Some(p) => Some(p@),
                None => None,
            },
        }
    }
}

impl TrustView {
    /// What is known after a certificate was shown, and what is wrong with it.
    pub open spec fn shown(self, actual: Seq<char>, authority: bool) -> (TrustView, Option<Seq<char>>) {
        match self.pin {
            Some(pin) => if tokens::same_ignoring_case(actual, pin) {
                (self, None)
            } else {
                (self, Some(mismatch(pin, actual)))
            },
            None => if authority {
                (self, None)
            } else {
                (TrustView { pin: Some(actual), tofu: Some(actual) }, None)
            },
        }
    }
}

impl TrustState {
    /// Whether the word of an authority counts: not where a fingerprint is fixed.
    pub fn asks_authority(&self) -> (asks: bool)
        ensures
            asks == (self@.pin is None),
    {
        self.pin.is_none()
    }

    /// Judges a certificate by its fingerprint. `authority` says whether a public
    /// authority vouches for it.
    pub fn judge(&mut self, actual: &str, authority: bool) -> (verdict: Result<(), String>)
        ensures
            final(self)@ == old(self)@.shown(actual@, authority).0,
            match verdict {
                Ok(()) => old(self)@.shown(actual@, authority).1 is None,
                Err(e) => old(self)@.shown(actual@, authority).1 == Some(e@),
            },
    {
        if let Some(pin) = &self.pin {
            if matches_pin(actual, pin.as_str()) {
                return Ok(());
            }
            let mut text = owned("服务器证书指纹不匹配（期望 ");
            text.append(shorten(pin.as_str()).as_str());
            text.append("… 实际 ");
            text.append(shorten(actual).as_str());
            text.append("…）；服务器已迁移或被劫持，请用新令牌重新 enroll");
            return Err(text);
        }
        if authority {
            return Ok(());
        }
        self.pin = Some(owned(actual));
        self.tofu_fingerprint = Some(owned(actual));
        Ok(())
    }
}

/// The fingerprint of a certificate: the SHA-256 of its bytes, in hexadecimal.
pub open spec fn fingerprint(cert: Seq<u8>) -> Seq<char> {
    primitives::hex_text(primitives::sha256_digest(cert))
}

/// The fingerprint of a certificate.
pub fn fingerprint_of(cert: &[u8]) -> (text: String)
    ensures
        text@ == primitives::hex_text(primitives::sha256_digest(cert@)),
{
    hex_encode(sha256(cert).as_slice())
}

impl TrustState {
    /// Judges a certificate. `authority` says whether a public authority vouches for
    /// it.
    pub fn judge_certificate(&mut self, cert: &[u8], authority: bool) -> (verdict: Result<(), String>)
        ensures
            final(self)@ == old(self)@.shown(fingerprint(cert@), authority).0,
            match verdict {
                Ok(()) => old(self)@.shown(fingerprint(cert@), authority).1 is None,
                Err(e) => old(self)@.shown(fingerprint(cert@), authority).1 == Some(e@),
            },
    {
        let actual = fingerprint_of(cert);
        self.judge(actual.as_str(), authority)
    }
}

/// Once a certificate was trusted without being known, it alone is trusted, and
/// no authority's word changes that.
pub proof fn lemma_first_use_is_fixed(t: TrustView, first: Seq<char>, next: Seq<char>, authority: bool)
    requires
        t.pin is None,
    ensures
        ({
            let fixed = t.shown(first, false).0;
            &&& t.shown(first, false).1 is None
            &&& fixed.shown(next, authority).1 is None <==> tokens::same_ignoring_case(next, first)
            &&& fixed.shown(next, authority).0 == fixed
        }),
{
}

/// A certificate is judged by the fingerprint that is fixed, and by nothing else where
/// there is one. Where there is none, it is trusted; only one that no authority vouches
/// for is fixed from then on.
pub proof fn lemma_fixed_fingerprint_decides(t: TrustView, actual: Seq<char>, authority: bool)
    ensures
        t.pin matches Some(pin) ==> {
            &&& t.shown(actual, authority).1 is None <==> tokens::same_ignoring_case(actual, pin)
            &&& t.shown(actual, authority).0 == t
            &&& t.shown(actual, true) == t.shown(actual, false)
        },
        t.pin is None ==> t.shown(actual, authority).1 is None,
        t.pin is None && authority ==> t.shown(actual, authority).0 == t,
        t.pin is None && !authority ==> t.shown(actual, authority).0.pin == Some(actual) && t.shown(
            actual,
            authority,
        ).0.tofu == Some(actual),
        t.shown(actual, authority).1 is Some ==> t.shown(actual, authority).0 == t,
{
}

/// The fingerprint of a certificate has 64 digits for the 32 bytes of its hash, and is
/// what a token can carry.
pub proof fn lemma_fingerprint_fits_a_token(cert: Seq<u8>)
    requires
        primitives::sha256_digest(cert).len() == 32,
    ensures
        fingerprint(cert).len() == 64,
        tokens::is_fingerprint(fingerprint(cert)),
        primitives::hex_bytes(fingerprint(cert)) == primitives::sha256_digest(cert),
{
    let digest = primitives::sha256_digest(cert);
    primitives::lemma_hex_is_two_digits_a_byte(digest, 0);
    assert forall|i: int| 0 <= i < 64 implies primitives::is_hex_char(#[trigger] fingerprint(cert)[i]) by {
        primitives::lemma_hex_is_two_digits_a_byte(digest, i / 2);
    }
}

/// A certificate that is refused is told of with the beginnings of both fingerprints, the
/// expected one first.
pub proof fn lemma_refusal_names_both(t: TrustView, pin: Seq<char>, actual: Seq<char>, authority: bool)
    requires
        t.pin == Some(pin),
        !tokens::same_ignoring_case(actual, pin),
    ensures
        t.shown(actual, authority).1 == Some(
            "服务器证书指纹不匹配（期望 "@ + text::fitted(pin, 12) + "… 实际 "@ + text::fitted(actual, 12)
                + "…）；服务器已迁移或被劫持，请用新令牌重新 enroll"@,
        ),
{
}

} // verus!
