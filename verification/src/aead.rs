//! AEAD keying material handed to callers: key and nonce buffers. The caller
//! owns returned material; no encryption is performed here.

use vstd::prelude::*;
use crate::kdf::CipherSuite;

verus! {

/// An AEAD key derived for one (sender, generation).
#[derive(Debug, PartialEq)]
pub struct AEADKey {
    ciphersuite: CipherSuite,
    value: Vec<u8>,
}

impl View for AEADKey {
    type V = Seq<u8>;

    closed spec fn view(&self) -> Seq<u8> {
        self.value@
    }
}

impl AEADKey {
    /// Wraps raw key bytes for the given ciphersuite.
    pub fn from_slice(ciphersuite: CipherSuite, bytes: &[u8]) -> (r: Self)
        ensures
            r@ == bytes@,
    {
        AEADKey { ciphersuite, value: vstd::slice::slice_to_vec(bytes) }
    }

    /// The raw key bytes.
    pub fn as_slice(&self) -> (r: &[u8])
        ensures
            r@ == self@,
    {
        self.value.as_slice()
    }
}

/// An AEAD nonce derived for one (sender, generation).
#[derive(Debug, PartialEq)]
pub struct Nonce {
    value: Vec<u8>,
}

impl View for Nonce {
    type V = Seq<u8>;

    closed spec fn view(&self) -> Seq<u8> {
        self.value@
    }
}

impl Nonce {
    /// Wraps raw nonce bytes.
    pub fn from_slice(bytes: &[u8]) -> (r: Self)
        ensures
            r@ == bytes@,
    {
        Nonce { value: vstd::slice::slice_to_vec(bytes) }
    }

    /// The raw nonce bytes.
    pub fn as_slice(&self) -> (r: &[u8])
        ensures
            r@ == self@,
    {
        self.value.as_slice()
    }
}

/// The view of a derived (key, nonce) pair.
pub struct SecretsV {
    pub key: Seq<u8>,
    pub nonce: Seq<u8>,
}

/// The (key, nonce) pair returned for one (sender, generation).
#[derive(Debug, PartialEq)]
pub struct ApplicationSecrets {
    pub nonce: Nonce,
    pub key: AEADKey,
}

impl View for ApplicationSecrets {
    type V = SecretsV;

    open spec fn view(&self) -> SecretsV {
        SecretsV { key: self.key@, nonce: self.nonce@ }
    }
}

} // verus!
