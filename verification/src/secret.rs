//! Secret values inside the node configuration.
//!
//! A secret is stored as plain text, or as `sealed:` and the base64 text of a
//! sealed blob. Both forms are read.

use base64::Engine;
use vstd::prelude::*;

use crate::secretbox::{is_sealed, SecretBoxError};
use crate::text::{chars_of, join, owned, string_of};
use crate::crypto::primitives;
use crate::secretbox;

verus! {

/// What marks a sealed value.
pub const PREFIX: &'static str = "sealed:";

/// What base64 with the standard alphabet and padding makes of a text: the
/// bytes, or what is wrong with it.
pub uninterp spec fn base64_decoded(text: Seq<char>) -> Result<Seq<u8>, Seq<char>>;

/// `STANDARD.decode` of base64.
///
/// Believed: bytes and error message depend on the text alone.
#[verifier::external_body]
fn base64_decode(text: &str) -> (bytes: Result<Vec<u8>, String>)
    ensures
        match bytes {
            Ok(b) => base64_decoded(text@) == Ok::<Seq<u8>, Seq<char>>(b@),
            Err(e) => base64_decoded(text@) == Err::<Seq<u8>, Seq<char>>(e@),
        },
{
    base64::engine::general_purpose::STANDARD.decode(text).map_err(|e| e.to_string())
}

/// The length of a padded base64 text.
pub open spec fn base64_len(n: int) -> int {
    (n + 2) / 3 * 4
}

/// Base64 with the standard alphabet and padding.
pub open spec fn base64_text(raw: Seq<u8>) -> Seq<char> {
    Seq::new(
        base64_len(raw.len() as int) as nat,
        |i: int|
            if i < primitives::base64_url_len(raw.len() as int) {
                primitives::base64_digit(primitives::base64_value(raw, i), ('+', '/'))
            } else {
                '='
            },
    )
}

/// The text decodes, and to these bytes.
pub open spec fn decodes_to(text: Seq<char>, raw: Seq<u8>) -> bool {
    base64_decoded(text) == Ok::<Seq<u8>, Seq<char>>(raw)
}

/// `STANDARD.encode` of base64.
///
/// Believed: the text is the padded encoding with the standard alphabet, and decodes
/// to the bytes.
#[verifier::external_body]
fn base64_encode(raw: &[u8]) -> (text: String)
    requires
        base64_len(raw@.len() as int) <= isize::MAX,
    ensures
        text@ == base64_text(raw@),
        decodes_to(text@, raw@),
{
    base64::engine::general_purpose::STANDARD.encode(raw)
}

/// A secret text.
#[derive(Debug, Clone)]
pub struct Secret(pub String);

impl Default for Secret {
    fn default() -> (secret: Self)
        ensures
            secret.0@ == Seq::<char>::empty(),
    {
        Secret(String::new())
    }
}

impl Secret {
    /// Wraps a value.
    pub fn new(value: String) -> (secret: Secret)
        ensures
            secret.0@ == value@,
    {
        Secret(value)
    }

    /// The value.
    pub fn expose(&self) -> (value: &str)
        ensures
            value@ == self.0@,
    {
        self.0.as_str()
    }
}

/// Whether a stored value is sealed.
pub open spec fn has_prefix(text: Seq<char>) -> bool {
    text.len() >= PREFIX@.len() && text.take(PREFIX@.len() as int) == PREFIX@
}

/// What is behind the mark of a stored value: nothing for a plain value, the
/// sealed blob for a sealed one, or what is wrong with it.
pub open spec fn stored_blob(text: Seq<char>) -> Result<Option<Seq<u8>>, Seq<char>> {
    if !has_prefix(text) {
        Ok(None)
    } else {
        blob_checked(base64_decoded(text.skip(PREFIX@.len() as int)))
    }
}

/// Decoded bytes, if they are a sealed blob. Anything else behind the mark is
/// damage, not plain text.
pub open spec fn blob_checked(decoded: Result<Seq<u8>, Seq<char>>) -> Result<
    Option<Seq<u8>>,
    Seq<char>,
> {
    match decoded {
        Err(e) => Err("sealed 字段 base64 无效: "@ + e),
        Ok(blob) => if secretbox::is_sealed_blob(blob) {
            Ok(Some(blob))
        } else {
            Err("sealed 字段不是有效的 SKF1 密封块"@)
        },
    }
}

/// A result of byte vectors and strings, as values.
pub open spec fn blob_view(r: Result<Option<Vec<u8>>, String>) -> Result<Option<Seq<u8>>, Seq<char>> {
    match r {
        Ok(Some(b)) => Ok(Some(b@)),
        Ok(None) => Ok(None),
        Err(e) => Err(e@),
    }
}

/// Checks what base64 made of the text behind the mark.
pub fn check_blob(decoded: Result<Vec<u8>, String>) -> (blob: Result<Option<Vec<u8>>, String>)
    ensures
        blob_view(blob) == blob_checked(
            match decoded {
                Ok(b) => Ok::<Seq<u8>, Seq<char>>(b@),
                Err(e) => Err(e@),
            },
        ),
{
    match decoded {
        Err(e) => Err(join("sealed 字段 base64 无效: ", e.as_str())),
        Ok(b) => {
            if is_sealed(b.as_slice()) {
                Ok(Some(b))
            } else {
                Err(owned("sealed 字段不是有效的 SKF1 密封块"))
            }
        },
    }
}

/// Finds the sealed blob in a stored value.
pub fn sealed_blob(text: &str) -> (blob: Result<Option<Vec<u8>>, String>)
    ensures
        blob_view(blob) == stored_blob(text@),
{
    let chars = chars_of(text);
    let mark = chars_of(PREFIX);
    let n = mark.len();
    if chars.len() < n {
        return Ok(None);
    }
    let head = string_of(chars.as_slice(), 0, n);
    assert(head@ =~= text@.take(n as int));
    if !crate::text::same_text(head.as_str(), PREFIX) {
        return Ok(None);
    }
    let rest = string_of(chars.as_slice(), n, chars.len());
    assert(rest@ =~= text@.skip(n as int));
    check_blob(base64_decode(rest.as_str()))
}

/// Writes a sealed blob down. What is written reads back as the blob.
pub fn sealed_text(blob: &[u8]) -> (text: String)
    requires
        base64_len(blob@.len() as int) <= isize::MAX,
    ensures
        text@ == PREFIX@ + base64_text(blob@),
        secretbox::is_sealed_blob(blob@) ==> stored_blob(text@) == Ok::<Option<Seq<u8>>, Seq<char>>(
            Some(blob@),
        ),
{
    let body = base64_encode(blob);
    let text = join(PREFIX, body.as_str());
    assert(text@.take(PREFIX@.len() as int) =~= PREFIX@);
    assert(text@.skip(PREFIX@.len() as int) =~= body@);
    text
}

/// The value that a stored text stands for, where sealed blobs cannot be
/// opened.
pub open spec fn decoded_secret(text: Seq<char>) -> Result<Seq<char>, Seq<char>> {
    match stored_blob(text) {
        Ok(None) => Ok(text),
        Ok(Some(_)) => Err(SecretBoxError::UnsupportedPlatform.text()),
        Err(e) => Err(e),
    }
}

/// Reads a stored value where there is no protection service.
pub fn decode(text: &str) -> (value: Result<String, String>)
    ensures
        match value {
            Ok(v) => decoded_secret(text@) == Ok::<Seq<char>, Seq<char>>(v@),
            Err(e) => decoded_secret(text@) == Err::<Seq<char>, Seq<char>>(e@),
        },
{
    match sealed_blob(text) {
        Ok(None) => Ok(owned(text)),
        Ok(Some(blob)) => match crate::secretbox::unseal(blob.as_slice()) {
            Ok(_) => Ok(owned(text)),
            Err(e) => Err(owned(e.message())),
        },
        Err(e) => Err(e),
    }
}

/// A value without the mark of sealing is read as it stands.
pub proof fn lemma_plain_value_is_kept(text: Seq<char>)
    requires
        !has_prefix(text),
    ensures
        decoded_secret(text) == Ok::<Seq<char>, Seq<char>>(text),
{
}

/// A value that begins with the mark is never taken for plain text: it is a sealed blob,
/// or it is damaged. Any other value is plain text.
pub proof fn lemma_mark_means_sealed(rest: Seq<char>, text: Seq<char>)
    ensures
        has_prefix("sealed:"@ + rest),
        stored_blob("sealed:"@ + rest) matches Ok(blob) ==> blob is Some && decodes_to(rest, blob->0)
            && blob->0.len() > 4,
        base64_decoded(rest) is Err ==> stored_blob("sealed:"@ + rest) is Err,
        decoded_secret("sealed:"@ + rest) is Err,
        !(text.len() >= 7 && text.take(7) == "sealed:"@) ==> stored_blob(text) == Ok::<
            Option<Seq<u8>>,
            Seq<char>,
        >(None) && decoded_secret(text) == Ok::<Seq<char>, Seq<char>>(text),
{
    reveal_strlit("sealed:");
    let s = "sealed:"@ + rest;
    assert(s.take(7) =~= "sealed:"@);
    assert(s.skip(7) =~= rest);
}

} // verus!
