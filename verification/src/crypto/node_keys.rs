//! The long-term keys of a node: an Ed25519 pair for signing and the X25519
//! pair from which session keys are agreed.

use vstd::prelude::*;

use crate::crypto::primitives::{ed25519_generate, hex_encode, x25519_generate};

verus! {

/// The keys of one node.
#[derive(Clone)]
pub struct NodeKeys {
    /// Ed25519 seed.
    pub sign_secret: [u8; 32],
    pub sign_public: [u8; 32],
    pub dh_secret: [u8; 32],
    pub dh_public: [u8; 32],
}

impl NodeKeys {
    /// Each public key belongs to the secret beside it.
    pub open spec fn matched(&self) -> bool {
        &&& self.sign_public@ == crate::crypto::primitives::ed25519_public(self.sign_secret@)
        &&& self.dh_public@ == crate::crypto::primitives::x25519_public(self.dh_secret@)
    }

    /// Two fresh pairs.
    pub fn generate() -> (keys: NodeKeys)
        ensures
            keys.matched(),
    {
        let (sign_secret, sign_public) = ed25519_generate();
        let (dh_secret, dh_public) = x25519_generate();
        NodeKeys { sign_secret, sign_public, dh_secret, dh_public }
    }

    /// The signing key that others see, in hexadecimal.
    pub fn sign_public_hex(&self) -> (text: String)
        ensures
            text@ == crate::crypto::primitives::hex_text(self.sign_public@),
    {
        hex_encode(self.sign_public.as_slice())
    }

    /// The agreement key that others see, in hexadecimal.
    pub fn dh_public_hex(&self) -> (text: String)
        ensures
            text@ == crate::crypto::primitives::hex_text(self.dh_public@),
    {
        hex_encode(self.dh_public.as_slice())
    }
}

} // verus!
