//! Sealed blobs of node identity files.
//!
//! A sealed blob is `SKF1` and what the data protection service of Windows made
//! of the content. Platforms without that service store content as it is and
//! refuse to open sealed blobs: identity files do not travel between systems.

use vstd::prelude::*;

use crate::endec::append_bytes;

verus! {

/// Why a blob could not be sealed or opened.
#[derive(Debug, Clone, Copy, PartialEq, Eq, Structural)]
pub enum SecretBoxError {
    EncryptFailed,
    DecryptFailed,
    UnsupportedPlatform,
    Corrupt,
}

impl SecretBoxError {
    /// The error in words.
    pub open spec fn text(self) -> Seq<char> {
        match self {
            SecretBoxError::EncryptFailed => "无法加密身份文件（DPAPI Protect 失败）"@,
            SecretBoxError::DecryptFailed => "无法解密身份文件（DPAPI 密钥或熵不匹配）：请在本机重新 enroll"@,
            SecretBoxError::UnsupportedPlatform => "此平台不支持打开密封的身份文件（文件由 Windows 机器加密）"@,
            SecretBoxError::Corrupt => "身份文件损坏"@,
        }
    }

    /// The error in words.
    pub fn message(&self) -> (text: &'static str)
        ensures
            text@ == self.text(),
    {
        match self {
            SecretBoxError::EncryptFailed => "无法加密身份文件（DPAPI Protect 失败）",
            SecretBoxError::DecryptFailed => "无法解密身份文件（DPAPI 密钥或熵不匹配）：请在本机重新 enroll",
            SecretBoxError::UnsupportedPlatform => "此平台不支持打开密封的身份文件（文件由 Windows 机器加密）",
            SecretBoxError::Corrupt => "身份文件损坏",
        }
    }
}

/// Whether a blob carries the mark of a sealed one, and something behind it.
pub open spec fn is_sealed_blob(blob: Seq<u8>) -> bool {
    blob.len() > 4 && blob.take(4) == seq![0x53u8, 0x4B, 0x46, 0x31]
}

/// Whether a blob is sealed.
pub fn is_sealed(blob: &[u8]) -> (sealed: bool)
    ensures
        sealed == is_sealed_blob(blob@),
{
    if blob.len() <= 4 {
        return false;
    }
    proof {
        let head = blob@.take(4);
        assert(head[0] == blob@[0] && head[1] == blob@[1] && head[2] == blob@[2] && head[3]
            == blob@[3]);
        if blob@[0] == 0x53 && blob@[1] == 0x4B && blob@[2] == 0x46 && blob@[3] == 0x31 {
            assert(head =~= seq![0x53u8, 0x4B, 0x46, 0x31]);
        }
    }
    blob[0] == 0x53 && blob[1] == 0x4B && blob[2] == 0x46 && blob[3] == 0x31
}

/// Seals content where there is no protection service: as it is.
pub fn seal(plain: &[u8]) -> (sealed: Result<Vec<u8>, SecretBoxError>)
    ensures
        sealed matches Ok(blob) && blob@ == plain@,
{
    let mut blob: Vec<u8> = Vec::new();
    append_bytes(&mut blob, plain);
    assert(blob@ =~= plain@);
    Ok(blob)
}

/// Opens a blob where there is no protection service: what is not sealed is
/// handed back, what is sealed is refused.
pub fn unseal(blob: &[u8]) -> (plain: Result<Vec<u8>, SecretBoxError>)
    ensures
        match plain {
            Ok(content) => !is_sealed_blob(blob@) && content@ == blob@,
            Err(e) => is_sealed_blob(blob@) && e == SecretBoxError::UnsupportedPlatform,
        },
{
    if is_sealed(blob) {
        Err(SecretBoxError::UnsupportedPlatform)
    } else {
        seal(blob)
    }
}

/// A sealed blob is told by the four letters that it begins with, and holds something
/// behind them.
pub proof fn lemma_sealed_blob_is_marked(blob: Seq<u8>)
    ensures
        is_sealed_blob(blob) <==> blob.len() >= 5 && blob[0] as char == 'S' && blob[1] as char == 'K' && blob[2]
            as char == 'F' && blob[3] as char == '1',
{
    if blob.len() >= 5 {
        let head = blob.take(4);
        assert(head[0] == blob[0] && head[1] == blob[1] && head[2] == blob[2] && head[3] == blob[3]);
        if blob[0] == 0x53 && blob[1] == 0x4B && blob[2] == 0x46 && blob[3] == 0x31 {
            assert(head =~= seq![0x53u8, 0x4B, 0x46, 0x31]);
        }
    }
}

} // verus!
