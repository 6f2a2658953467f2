//! Key-derivation layer: the ciphersuite selector, the HKDF-Expand-Label
//! primitive, and the label/context encoding that binds derived material to a
//! tree node and a message generation.

use vstd::prelude::*;
use crate::codec::{be32, dec_u32, decode_u32, encode_u32, CodecError};

verus! {

/// Selects the underlying AEAD and hash primitives. Immutable for a tree's
/// lifetime.
#[allow(non_camel_case_types)]
#[derive(Clone, Copy, Debug, PartialEq, Eq, Structural)]
pub enum CipherSuite {
    MLS10_128_HPKEX25519_CHACHA20POLY1305_SHA256_Ed25519,
}

/// Output length of the ciphersuite's hash, and so of every chain secret.
pub open spec fn hash_length_spec(ciphersuite: CipherSuite) -> nat {
    32
}

/// AEAD key length of the ciphersuite.
pub open spec fn key_length_spec(ciphersuite: CipherSuite) -> nat {
    32
}

/// AEAD nonce length of the ciphersuite.
pub open spec fn nonce_length_spec(ciphersuite: CipherSuite) -> nat {
    12
}

/// Wire code of the ciphersuite.
pub open spec fn cipher_code_spec(ciphersuite: CipherSuite) -> u16 {
    3
}

/// Output length of the ciphersuite's hash.
pub fn hash_length(ciphersuite: CipherSuite) -> (r: usize)
    ensures
        r == hash_length_spec(ciphersuite),
{
    32
}

/// AEAD key length of the ciphersuite.
pub fn key_length(ciphersuite: CipherSuite) -> (r: usize)
    ensures
        r == key_length_spec(ciphersuite),
{
    32
}

/// AEAD nonce length of the ciphersuite.
pub fn nonce_length(ciphersuite: CipherSuite) -> (r: usize)
    ensures
        r == nonce_length_spec(ciphersuite),
{
    12
}

/// Wire code of the ciphersuite.
pub fn cipher_code(ciphersuite: CipherSuite) -> (r: u16)
    ensures
        r == cipher_code_spec(ciphersuite),
{
    3
}

/// Recovers a ciphersuite from its wire code.
pub fn cipher_from_code(code: u16) -> (r: Option<CipherSuite>)
    ensures
        match r {
            Some(c) => cipher_code_spec(c) == code,
            None => forall|c: CipherSuite| cipher_code_spec(c) != code,
        },
{
    if code == 3 {
        Some(CipherSuite::MLS10_128_HPKEX25519_CHACHA20POLY1305_SHA256_Ed25519)
    } else {
        None
    }
}

/// The four derivation labels, each a short ASCII string on the wire.
#[derive(Clone, Copy, Debug, PartialEq, Eq, Structural)]
pub enum Label {
    /// `"tree"`: tree-node child derivation.
    Tree,
    /// `"app-secret"`: ratchet chain step.
    AppSecret,
    /// `"app-nonce"`: AEAD nonce derivation.
    AppNonce,
    /// `"app-key"`: AEAD key derivation.
    AppKey,
}

/// ASCII bytes of a derivation label.
pub open spec fn label_bytes(label: Label) -> Seq<u8> {
    match label {
        Label::Tree => seq![116u8, 114u8, 101u8, 101u8],
        Label::AppSecret => seq![
            97u8,
            112u8,
            112u8,
            45u8,
            115u8,
            101u8,
            99u8,
            114u8,
            101u8,
            116u8,
        ],
        Label::AppNonce => seq![97u8, 112u8, 112u8, 45u8, 110u8, 111u8, 110u8, 99u8, 101u8],
        Label::AppKey => seq![97u8, 112u8, 112u8, 45u8, 107u8, 101u8, 121u8],
    }
}

/// Appends the ASCII bytes of `label`.
fn push_label(label: Label, buffer: &mut Vec<u8>)
    ensures
        final(buffer)@ == old(buffer)@ + label_bytes(label),
{
    match label {
        Label::Tree => {
            buffer.push(116u8);
            buffer.push(114u8);
            buffer.push(101u8);
            buffer.push(101u8);
        },
        Label::AppSecret => {
            buffer.push(97u8);
            buffer.push(112u8);
            buffer.push(112u8);
            buffer.push(45u8);
            buffer.push(115u8);
            buffer.push(101u8);
            buffer.push(99u8);
            buffer.push(114u8);
            buffer.push(101u8);
            buffer.push(116u8);
        },
        Label::AppNonce => {
            buffer.push(97u8);
            buffer.push(112u8);
            buffer.push(112u8);
            buffer.push(45u8);
            buffer.push(110u8);
            buffer.push(111u8);
            buffer.push(110u8);
            buffer.push(99u8);
            buffer.push(101u8);
        },
        Label::AppKey => {
            buffer.push(97u8);
            buffer.push(112u8);
            buffer.push(112u8);
            buffer.push(45u8);
            buffer.push(107u8);
            buffer.push(101u8);
            buffer.push(121u8);
        },
    }
    assert(buffer@ =~= old(buffer)@ + label_bytes(label));
}

/// What HKDF-Expand with SHA-256 returns for a given pseudorandom key, info
/// input and output length: deterministic, but not stated byte by byte.
pub uninterp spec fn hkdf_expand_spec(prk: Seq<u8>, info: Seq<u8>, length: nat) -> Seq<u8>;

/// Relies on `hkdf::Hkdf::<sha2::Sha256>::from_prk` and `expand` (RFC 5869
/// HKDF-Expand with SHA-256). The output is a function of `(prk, info,
/// length)` alone and fills exactly `length` bytes; `from_prk` accepts any
/// key of at least the hash length (32 bytes) and `expand` any output length
/// up to 255 hash lengths (8160 bytes).
#[verifier::external_body]
fn hkdf_expand(prk: &[u8], info: &[u8], length: usize) -> (r: Vec<u8>)
    requires
        prk@.len() >= 32,
        length <= 8160,
    ensures
        r@.len() == length,
        r@ == hkdf_expand_spec(prk@, info@, length as nat),
{
    let hk = hkdf::Hkdf::<sha2::Sha256>::from_prk(prk).unwrap();
    let mut okm = vec![0u8; length];
    hk.expand(info, &mut okm).unwrap();
    okm
}

/// Binds a derivation to a tree node and a generation: the two integers in
/// network byte order, concatenated, with no length prefix. This encoding
/// enters the HKDF input and is normative.
pub struct ApplicationContext {
    pub node: u32,
    pub generation: u32,
}

/// Canonical encoding of an application context.
pub open spec fn ctx_bytes(node: u32, generation: u32) -> Seq<u8> {
    be32(node) + be32(generation)
}

impl ApplicationContext {
    /// Appends the canonical encoding of this context.
    pub fn encode(&self, buffer: &mut Vec<u8>)
        ensures
            final(buffer)@ == old(buffer)@ + ctx_bytes(self.node, self.generation),
    {
        encode_u32(self.node, buffer);
        encode_u32(self.generation, buffer);
        assert(buffer@ =~= old(buffer)@ + ctx_bytes(self.node, self.generation));
    }

    /// Reads a context back from its canonical encoding.
    pub fn decode(bytes: &[u8], pos: usize) -> (r: Result<(Self, usize), CodecError>)
        ensures
            match r {
                Ok((c, p2)) => {
                    &&& dec_u32(bytes@, pos as int) matches Some((n, p1)) && n == c.node
                    &&& dec_u32(bytes@, pos as int).unwrap().1 == p2 - 4
                    &&& dec_u32(bytes@, p2 - 4) == Some((c.generation, p2 as int))
                    &&& p2 <= bytes@.len()
                },
                Err(e) => e == CodecError::DecodingError,
            },
    {
        let (node, p1) = match decode_u32(bytes, pos) {
            Ok(v) => v,
            Err(e) => {
                return Err(e);
            },
        };
        let (generation, p2) = match decode_u32(bytes, p1) {
            Ok(v) => v,
            Err(e) => {
                return Err(e);
            },
        };
        Ok((ApplicationContext { node, generation }, p2))
    }
}

/// The single derivation step all components share:
/// `HKDF-Expand-Label(secret, label, ctx(node, generation), length)`.
pub open spec fn derive_app_secret_spec(
    secret: Seq<u8>,
    label: Label,
    node: u32,
    generation: u32,
    length: nat,
) -> Seq<u8> {
    hkdf_expand_spec(secret, label_bytes(label) + ctx_bytes(node, generation), length)
}

/// Derives `length` bytes from `secret`, bound to `label` and the context
/// `(node, generation)`.
pub fn derive_app_secret(
    ciphersuite: CipherSuite,
    secret: &[u8],
    label: Label,
    node: u32,
    generation: u32,
    length: usize,
) -> (r: Vec<u8>)
    requires
        secret@.len() == hash_length_spec(ciphersuite),
        length <= 8160,
    ensures
        r@ == derive_app_secret_spec(secret@, label, node, generation, length as nat),
        r@.len() == length,
{
    let mut info: Vec<u8> = Vec::new();
    push_label(label, &mut info);
    let context = ApplicationContext { node, generation };
    context.encode(&mut info);
    assert(info@ =~= label_bytes(label) + ctx_bytes(node, generation));
    hkdf_expand(secret, info.as_slice(), length)
}

} // verus!
