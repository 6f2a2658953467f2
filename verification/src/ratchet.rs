//! Per-sender ratchet: a sliding window of recent chain secrets that produces
//! a (key, nonce) pair for a requested generation, ratcheting forward or
//! reaching back within bounded out-of-order and forward windows.

use vstd::prelude::*;
use vstd::pervasive::VecAdditionalExecFns;
use crate::aead::{AEADKey, ApplicationSecrets, Nonce, SecretsV};
use crate::codec::{
    be16, be32, dec_secret, dec_u16, dec_u32, decode_secret, decode_u16, decode_u32, enc_secret,
    encode_secret, encode_u16, encode_u32, CodecError,
};
use crate::kdf::{
    cipher_code, cipher_code_spec, cipher_from_code, derive_app_secret, derive_app_secret_spec,
    hash_length, hash_length_spec, key_length, key_length_spec, nonce_length, nonce_length_spec,
    CipherSuite, Label,
};
use crate::{ASError, RosterIndex, MAXIMUM_FORWARD_DISTANCE, OUT_OF_ORDER_TOLERANCE};

verus! {

/// The mathematical state of a sender ratchet.
pub struct RatchetV {
    pub ciphersuite: CipherSuite,
    pub index: u32,
    pub generation: u32,
    pub past_secrets: Seq<Seq<u8>>,
}

/// How many chain secrets the window holds after reaching `generation`:
/// one per generation seen so far, capped at the out-of-order tolerance.
pub open spec fn window_size(generation: nat) -> nat {
    if generation + 1 >= OUT_OF_ORDER_TOLERANCE {
        OUT_OF_ORDER_TOLERANCE as nat
    } else {
        generation + 1
    }
}

/// Window length matches the generation.
pub open spec fn window_shape(r: RatchetV) -> bool {
    r.past_secrets.len() == window_size(r.generation as nat)
}

/// Every stored chain secret has the ciphersuite's hash length.
pub open spec fn ratchet_entries_wf(r: RatchetV) -> bool {
    forall|i: int|
        0 <= i < r.past_secrets.len() ==> (#[trigger] r.past_secrets[i]).len() == hash_length_spec(
            r.ciphersuite,
        )
}

/// Well-formedness of a ratchet state.
pub open spec fn ratchet_wf(r: RatchetV) -> bool {
    window_shape(r) && ratchet_entries_wf(r)
}

/// One chain step: the next chain secret, bound to the ratchet's generation
/// at the moment of the step.
pub open spec fn chain_step(
    ciphersuite: CipherSuite,
    secret: Seq<u8>,
    index: u32,
    gen_at_step: u32,
) -> Seq<u8> {
    derive_app_secret_spec(
        secret,
        Label::AppSecret,
        index,
        gen_at_step,
        hash_length_spec(ciphersuite),
    )
}

/// One window step: drop the oldest entry if the window is full, then append
/// the next chain secret.
pub open spec fn window_step(
    ciphersuite: CipherSuite,
    w: Seq<Seq<u8>>,
    index: u32,
    gen_at_step: u32,
) -> Seq<Seq<u8>> {
    let w2 = if w.len() >= OUT_OF_ORDER_TOLERANCE {
        w.drop_first()
    } else {
        w
    };
    w2.push(chain_step(ciphersuite, w.last(), index, gen_at_step))
}

/// The window after `d` forward steps. Every step is bound to `gen_at_step`,
/// the ratchet's generation at the moment the advance began: the generation
/// field is not advanced between steps.
pub open spec fn advance_window(
    ciphersuite: CipherSuite,
    w: Seq<Seq<u8>>,
    index: u32,
    gen_at_step: u32,
    d: nat,
) -> Seq<Seq<u8>>
    decreases d,
{
    if d == 0 {
        w
    } else {
        advance_window(
            ciphersuite,
            window_step(ciphersuite, w, index, gen_at_step),
            index,
            gen_at_step,
            (d - 1) as nat,
        )
    }
}

/// Unrolling an advance from the far end: `d + 1` steps are `d` steps
/// followed by one more.
pub proof fn lemma_advance_window_snoc(
    ciphersuite: CipherSuite,
    w: Seq<Seq<u8>>,
    index: u32,
    gen_at_step: u32,
    d: nat,
)
    ensures
        advance_window(ciphersuite, w, index, gen_at_step, d + 1) == window_step(
            ciphersuite,
            advance_window(ciphersuite, w, index, gen_at_step, d),
            index,
            gen_at_step,
        ),
    decreases d,
{
    if d == 0 {
        assert(advance_window(ciphersuite, w, index, gen_at_step, 1) == advance_window(
            ciphersuite,
            window_step(ciphersuite, w, index, gen_at_step),
            index,
            gen_at_step,
            0,
        ));
    } else {
        lemma_advance_window_snoc(
            ciphersuite,
            window_step(ciphersuite, w, index, gen_at_step),
            index,
            gen_at_step,
            (d - 1) as nat,
        );
    }
}

/// The (key, nonce) pair derived from chain secret `secret` for
/// `(index, generation)`.
pub open spec fn key_nonce_spec(
    ciphersuite: CipherSuite,
    secret: Seq<u8>,
    index: u32,
    generation: u32,
) -> SecretsV {
    SecretsV {
        key: derive_app_secret_spec(
            secret,
            Label::AppKey,
            index,
            generation,
            key_length_spec(ciphersuite),
        ),
        nonce: derive_app_secret_spec(
            secret,
            Label::AppNonce,
            index,
            generation,
            nonce_length_spec(ciphersuite),
        ),
    }
}

/// A freshly seeded ratchet: generation zero, the seed as its only chain
/// secret.
pub open spec fn ratchet_new_spec(
    index: u32,
    secret: Seq<u8>,
    ciphersuite: CipherSuite,
) -> RatchetV {
    RatchetV { ciphersuite, index, generation: 0, past_secrets: seq![secret] }
}

/// What `get_secret` returns and how it changes the ratchet, as a function
/// of the prior state and the requested generation.
pub open spec fn ratchet_get_spec(r: RatchetV, generation: u32) -> (Result<SecretsV, ASError>,
    RatchetV) {
    if generation > r.generation + MAXIMUM_FORWARD_DISTANCE {
        (Err(ASError::TooDistantInTheFuture), r)
    } else if generation < r.generation && r.generation - generation >= OUT_OF_ORDER_TOLERANCE {
        (Err(ASError::TooDistantInThePast), r)
    } else if generation <= r.generation {
        let s = r.past_secrets[r.past_secrets.len() - 1 - (r.generation - generation)];
        (Ok(key_nonce_spec(r.ciphersuite, s, r.index, generation)), r)
    } else {
        let w = advance_window(
            r.ciphersuite,
            r.past_secrets,
            r.index,
            r.generation,
            (generation - r.generation) as nat,
        );
        (
            Ok(key_nonce_spec(r.ciphersuite, w.last(), r.index, generation)),
            RatchetV { generation, past_secrets: w, ..r },
        )
    }
}

/// Overwrites every byte of a secret buffer with zero before it is dropped
/// or its slot is reused.
pub fn zeroize(v: &mut Vec<u8>)
    ensures
        final(v)@.len() == old(v)@.len(),
        forall|i: int| 0 <= i < final(v)@.len() ==> final(v)@[i] == 0u8,
{
    let n = v.len();
    let mut i: usize = 0;
    while i < n
        invariant
            i <= n,
            v@.len() == n,
            forall|k: int| 0 <= k < i ==> v@[k] == 0u8,
        decreases n - i,
    {
        v.set(i, 0u8);
        i += 1;
    }
}

/// Concatenated length-prefixed encodings of a list of chain secrets.
pub open spec fn enc_secrets(ws: Seq<Seq<u8>>) -> Seq<u8>
    decreases ws.len(),
{
    if ws.len() == 0 {
        Seq::empty()
    } else {
        enc_secret(ws[0]) + enc_secrets(ws.drop_first())
    }
}

/// Encoding a list of secrets extends by the encoding of the next one.
pub proof fn lemma_enc_secrets_snoc(ws: Seq<Seq<u8>>, i: int)
    requires
        0 <= i < ws.len(),
    ensures
        enc_secrets(ws.take(i + 1)) == enc_secrets(ws.take(i)) + enc_secret(ws[i]),
    decreases i,
{
    if i == 0 {
        assert(ws.take(0) =~= Seq::<Seq<u8>>::empty());
        assert(ws.take(1).len() == 1);
        assert(ws.take(1)[0] == ws[0]);
        assert(ws.take(1).drop_first() =~= Seq::<Seq<u8>>::empty());
        assert(enc_secrets(Seq::<Seq<u8>>::empty()) == Seq::<u8>::empty());
        assert(enc_secrets(ws.take(1)) == enc_secret(ws[0]) + Seq::<u8>::empty());
        assert(enc_secret(ws[0]) + Seq::<u8>::empty() =~= enc_secret(ws[0]));
        assert(Seq::<u8>::empty() + enc_secret(ws[0]) =~= enc_secret(ws[0]));
    } else {
        lemma_enc_secrets_snoc(ws.drop_first(), i - 1);
        assert(ws.take(i + 1).drop_first() =~= ws.drop_first().take(i));
        assert(ws.take(i).drop_first() =~= ws.drop_first().take(i - 1));
        assert(ws.drop_first()[i - 1] == ws[i]);
        assert(enc_secrets(ws.take(i + 1)) == enc_secret(ws[0]) + enc_secrets(
            ws.drop_first().take(i),
        ));
        assert(enc_secret(ws[0]) + (enc_secrets(ws.drop_first().take(i - 1)) + enc_secret(ws[i]))
            =~= (enc_secret(ws[0]) + enc_secrets(ws.drop_first().take(i - 1))) + enc_secret(ws[i]));
        assert(enc_secrets(ws.take(i)) == enc_secret(ws[0]) + enc_secrets(
            ws.drop_first().take(i - 1),
        ));
    }
}

/// Canonical encoding of a ratchet: ciphersuite code, index, generation,
/// count of chain secrets, then each secret length-prefixed.
pub open spec fn enc_ratchet(r: RatchetV) -> Seq<u8> {
    be16(cipher_code_spec(r.ciphersuite)) + be32(r.index) + be32(r.generation) + be32(
        r.past_secrets.len() as u32,
    ) + enc_secrets(r.past_secrets)
}

/// Decodes `n` length-prefixed secrets at `pos`.
pub open spec fn dec_secrets(b: Seq<u8>, pos: int, n: nat) -> Option<(Seq<Seq<u8>>, int)>
    decreases n,
{
    if n == 0 {
        Some((Seq::empty(), pos))
    } else {
        match dec_secret(b, pos) {
            Some((s, p1)) => match dec_secrets(b, p1, (n - 1) as nat) {
                Some((rest, p2)) => Some((seq![s] + rest, p2)),
                None => None,
            },
            None => None,
        }
    }
}

/// Decodes a ratchet at `pos`.
pub open spec fn dec_ratchet(b: Seq<u8>, pos: int) -> Option<(RatchetV, int)> {
    match dec_u16(b, pos) {
        Some((code, p1)) => if code == cipher_code_spec(
            CipherSuite::MLS10_128_HPKEX25519_CHACHA20POLY1305_SHA256_Ed25519,
        ) {
            let ciphersuite = CipherSuite::MLS10_128_HPKEX25519_CHACHA20POLY1305_SHA256_Ed25519;
            match dec_u32(b, p1) {
                Some((index, p2)) => match dec_u32(b, p2) {
                    Some((generation, p3)) => match dec_u32(b, p3) {
                        Some((count, p4)) => match dec_secrets(b, p4, count as nat) {
                            Some((past_secrets, p5)) => Some(
                                (RatchetV { ciphersuite, index, generation, past_secrets }, p5),
                            ),
                            None => None,
                        },
                        None => None,
                    },
                    None => None,
                },
                None => None,
            }
        } else {
            None
        },
        None => None,
    }
}

/// Decoding inverts encoding for a list of chain secrets embedded at `pos`.
pub proof fn lemma_dec_enc_secrets(b: Seq<u8>, pos: int, ws: Seq<Seq<u8>>)
    requires
        0 <= pos,
        forall|i: int| 0 <= i < ws.len() ==> (#[trigger] ws[i]).len() <= 255,
        pos + enc_secrets(ws).len() <= b.len(),
        b.subrange(pos, pos + enc_secrets(ws).len()) == enc_secrets(ws),
    ensures
        dec_secrets(b, pos, ws.len()) == Some((ws, pos + enc_secrets(ws).len())),
    decreases ws.len(),
{
    if ws.len() == 0 {
        assert(Seq::<Seq<u8>>::empty() =~= ws);
    } else {
        let head = enc_secret(ws[0]);
        let tail = enc_secrets(ws.drop_first());
        assert(enc_secrets(ws) == head + tail);
        crate::codec::lemma_split_concat(b, pos, head, tail);
        assert(head.len() == 1 + ws[0].len());
        crate::codec::lemma_dec_secret(b, pos, ws[0]);
        let p1 = pos + head.len();
        assert(forall|i: int|
            0 <= i < ws.drop_first().len() ==> (#[trigger] ws.drop_first()[i]).len() <= 255);
        lemma_dec_enc_secrets(b, p1, ws.drop_first());
        assert(seq![ws[0]] + ws.drop_first() =~= ws);
    }
}

/// Decoding inverts encoding for a ratchet embedded at `pos`.
pub proof fn lemma_dec_enc_ratchet(b: Seq<u8>, pos: int, r: RatchetV)
    requires
        0 <= pos,
        r.past_secrets.len() <= u32::MAX,
        forall|i: int| 0 <= i < r.past_secrets.len() ==> (#[trigger] r.past_secrets[i]).len()
            <= 255,
        pos + enc_ratchet(r).len() <= b.len(),
        b.subrange(pos, pos + enc_ratchet(r).len()) == enc_ratchet(r),
    ensures
        dec_ratchet(b, pos) == Some((r, pos + enc_ratchet(r).len())),
{
    let e1 = be16(cipher_code_spec(r.ciphersuite));
    let e2 = be32(r.index);
    let e3 = be32(r.generation);
    let e4 = be32(r.past_secrets.len() as u32);
    let e5 = enc_secrets(r.past_secrets);
    assert(enc_ratchet(r) =~= (((e1 + e2) + e3) + e4) + e5);
    crate::codec::lemma_split_concat(b, pos, ((e1 + e2) + e3) + e4, e5);
    crate::codec::lemma_split_concat(b, pos, (e1 + e2) + e3, e4);
    crate::codec::lemma_split_concat(b, pos, e1 + e2, e3);
    crate::codec::lemma_split_concat(b, pos, e1, e2);
    crate::codec::lemma_dec_be16(b, pos, cipher_code_spec(r.ciphersuite));
    crate::codec::lemma_dec_be32(b, pos + 2, r.index);
    crate::codec::lemma_dec_be32(b, pos + 6, r.generation);
    crate::codec::lemma_dec_be32(b, pos + 10, r.past_secrets.len() as u32);
    lemma_dec_enc_secrets(b, pos + 14, r.past_secrets);
    assert(r.ciphersuite == CipherSuite::MLS10_128_HPKEX25519_CHACHA20POLY1305_SHA256_Ed25519);
    assert(dec_ratchet(b, pos) == Some((r, pos + enc_ratchet(r).len())));
}

/// Per-sender ratchet state: the sender's roster index, the highest
/// generation materialized so far, and the window of recent chain secrets
/// (the last entry belongs to `generation`).
#[derive(Debug, PartialEq)]
pub struct SenderRatchet {
    pub(crate) ciphersuite: CipherSuite,
    pub(crate) index: RosterIndex,
    pub(crate) generation: u32,
    pub(crate) past_secrets: Vec<Vec<u8>>,
}

impl View for SenderRatchet {
    type V = RatchetV;

    closed spec fn view(&self) -> RatchetV {
        RatchetV {
            ciphersuite: self.ciphersuite,
            index: self.index.value,
            generation: self.generation,
            past_secrets: Seq::new(self.past_secrets@.len(), |i: int| self.past_secrets@[i]@),
        }
    }
}

impl SenderRatchet {
    /// The highest generation this ratchet has materialized.
    pub fn generation(&self) -> (r: u32)
        ensures
            r == self@.generation,
    {
        self.generation
    }

    /// Seeds a fresh ratchet for `index` from a leaf secret.
    pub fn new(index: RosterIndex, secret: &[u8], ciphersuite: CipherSuite) -> (r: Self)
        requires
            secret@.len() == hash_length_spec(ciphersuite),
        ensures
            r@ == ratchet_new_spec(index.value, secret@, ciphersuite),
            ratchet_wf(r@),
    {
        let mut past_secrets: Vec<Vec<u8>> = Vec::new();
        past_secrets.push(vstd::slice::slice_to_vec(secret));
        let r = SenderRatchet { ciphersuite, index, generation: 0, past_secrets };
        assert(r@.past_secrets =~= seq![secret@]);
        r
    }

    /// Produces the (key, nonce) pair for `generation`, ratcheting forward
    /// when the request is ahead of the current generation and reaching back
    /// into the window when it is behind. The state changes only on a
    /// successful advance.
    pub fn get_secret(&mut self, generation: u32) -> (r: Result<ApplicationSecrets, ASError>)
        requires
            ratchet_wf(old(self)@),
        ensures
            ratchet_wf(final(self)@),
            final(self)@ == ratchet_get_spec(old(self)@, generation).1,
            match r {
                Ok(s) => ratchet_get_spec(old(self)@, generation).0 == Ok::<SecretsV, ASError>(s@),
                Err(e) => ratchet_get_spec(old(self)@, generation).0 == Err::<SecretsV, ASError>(
                    e,
                ),
            },
    {
        if (generation as u64) > (self.generation as u64) + (MAXIMUM_FORWARD_DISTANCE as u64) {
            return Err(ASError::TooDistantInTheFuture);
        }
        if generation < self.generation && self.generation - generation >= OUT_OF_ORDER_TOLERANCE {
            return Err(ASError::TooDistantInThePast);
        }
        if generation <= self.generation {
            let behind = (self.generation - generation) as usize;
            let window_index = self.past_secrets.len() - 1 - behind;
            let secret = &self.past_secrets[window_index];
            let application_secrets = self.derive_key_nonce(secret.as_slice(), generation);
            Ok(application_secrets)
        } else {
            let steps = generation - self.generation;
            let ghost w0 = self@.past_secrets;
            assert forall|i: int|
                0 <= i < self.past_secrets@.len() implies (
            #[trigger] self.past_secrets@[i])@.len() == hash_length_spec(self.ciphersuite) by {
                assert(old(self)@.past_secrets[i].len() == hash_length_spec(self.ciphersuite));
            }
            let mut j: u32 = 0;
            while j < steps
                invariant
                    j <= steps,
                    w0 == old(self)@.past_secrets,
                    1 <= w0.len() <= OUT_OF_ORDER_TOLERANCE,
                    self.ciphersuite == old(self).ciphersuite,
                    self.index == old(self).index,
                    self.generation == old(self).generation,
                    self@.past_secrets == advance_window(
                        self.ciphersuite,
                        w0,
                        self.index.value,
                        self.generation,
                        j as nat,
                    ),
                    self.past_secrets@.len() == if w0.len() + j >= OUT_OF_ORDER_TOLERANCE {
                        OUT_OF_ORDER_TOLERANCE as int
                    } else {
                        w0.len() + j
                    },
                    forall|i: int|
                        0 <= i < self.past_secrets@.len() ==> (
                        #[trigger] self.past_secrets@[i])@.len() == hash_length_spec(
                            self.ciphersuite,
                        ),
                decreases steps - j,
            {
                let ghost w_before = self@.past_secrets;
                if self.past_secrets.len() == OUT_OF_ORDER_TOLERANCE as usize {
                    let mut oldest = self.past_secrets.remove(0);
                    zeroize(&mut oldest);
                    assert(self@.past_secrets =~= w_before.drop_first());
                }
                let last_index = self.past_secrets.len() - 1;
                let new_secret = self.ratchet_secret(self.past_secrets[last_index].as_slice());
                assert(self.past_secrets@[last_index as int]@ == w_before.last());
                self.past_secrets.push(new_secret);
                assert(self@.past_secrets =~= window_step(
                    self.ciphersuite,
                    w_before,
                    self.index.value,
                    self.generation,
                ));
                proof {
                    lemma_advance_window_snoc(
                        self.ciphersuite,
                        w0,
                        self.index.value,
                        self.generation,
                        j as nat,
                    );
                }
                j += 1;
            }
            let last_index = self.past_secrets.len() - 1;
            let secret = &self.past_secrets[last_index];
            let application_secrets = self.derive_key_nonce(secret.as_slice(), generation);
            self.generation = generation;
            Ok(application_secrets)
        }
    }

    /// Erases every chain secret this ratchet still holds: each is zeroized
    /// and the window is emptied. The ratchet no longer satisfies its
    /// well-formedness afterwards; call this only when it is being
    /// discarded.
    pub fn wipe(&mut self)
        ensures
            final(self)@.past_secrets.len() == 0,
    {
        let n = self.past_secrets.len();
        let mut i: usize = 0;
        while i < n
            invariant
                i <= n,
                self.past_secrets@.len() == n,
            decreases n - i,
        {
            zeroize(&mut self.past_secrets[i]);
            i += 1;
        }
        self.past_secrets.clear();
    }

    /// The next chain secret, bound to the ratchet's current generation.
    fn ratchet_secret(&self, secret: &[u8]) -> (r: Vec<u8>)
        requires
            secret@.len() == hash_length_spec(self.ciphersuite),
        ensures
            r@ == chain_step(self.ciphersuite, secret@, self.index.value, self.generation),
            r@.len() == hash_length_spec(self.ciphersuite),
    {
        let hash_len = hash_length(self.ciphersuite);
        derive_app_secret(
            self.ciphersuite,
            secret,
            Label::AppSecret,
            self.index.as_u32(),
            self.generation,
            hash_len,
        )
    }

    /// Appends the canonical encoding of this ratchet.
    pub fn encode(&self, buffer: &mut Vec<u8>)
        requires
            ratchet_wf(self@),
        ensures
            final(buffer)@ == old(buffer)@ + enc_ratchet(self@),
    {
        encode_u16(cipher_code(self.ciphersuite), buffer);
        encode_u32(self.index.as_u32(), buffer);
        encode_u32(self.generation, buffer);
        encode_u32(self.past_secrets.len() as u32, buffer);
        let ghost base = buffer@;
        let n = self.past_secrets.len();
        let mut i: usize = 0;
        while i < n
            invariant
                i <= n,
                n == self@.past_secrets.len(),
                ratchet_wf(self@),
                buffer@ == base + enc_secrets(self@.past_secrets.take(i as int)),
            decreases n - i,
        {
            let r = encode_secret(&self.past_secrets[i], buffer);
            proof {
                assert(self@.past_secrets[i as int].len() == hash_length_spec(self.ciphersuite));
                if r is Err {
                    assert(false);
                }
                lemma_enc_secrets_snoc(self@.past_secrets, i as int);
                assert(self@.past_secrets.take(i as int).push(self@.past_secrets[i as int])
                    =~= self@.past_secrets.take(i + 1));
            }
            i += 1;
        }
        proof {
            assert(self@.past_secrets.take(n as int) =~= self@.past_secrets);
        }
    }

    /// Reads a ratchet back from its canonical encoding at `pos`.
    pub fn decode(bytes: &[u8], pos: usize) -> (r: Result<(Self, usize), CodecError>)
        ensures
            match r {
                Ok((v, p2)) => dec_ratchet(bytes@, pos as int) == Some((v@, p2 as int)) && p2
                    <= bytes@.len(),
                Err(e) => dec_ratchet(bytes@, pos as int) is None && e == CodecError::DecodingError,
            },
    {
        let (code, p1) = match decode_u16(bytes, pos) {
            Ok(v) => v,
            Err(e) => {
                return Err(e);
            },
        };
        let ciphersuite = match cipher_from_code(code) {
            Some(c) => c,
            None => {
                proof {
                    assert(cipher_code_spec(
                        CipherSuite::MLS10_128_HPKEX25519_CHACHA20POLY1305_SHA256_Ed25519,
                    ) != code);
                }
                return Err(CodecError::DecodingError);
            },
        };
        let (index, p2) = match decode_u32(bytes, p1) {
            Ok(v) => v,
            Err(e) => {
                return Err(e);
            },
        };
        let (generation, p3) = match decode_u32(bytes, p2) {
            Ok(v) => v,
            Err(e) => {
                return Err(e);
            },
        };
        let (count, p4) = match decode_u32(bytes, p3) {
            Ok(v) => v,
            Err(e) => {
                return Err(e);
            },
        };
        let mut past_secrets: Vec<Vec<u8>> = Vec::new();
        let mut p = p4;
        let mut i: u32 = 0;
        proof {
            if dec_secrets(bytes@, p4 as int, count as nat) is Some {
                let all = dec_secrets(bytes@, p4 as int, count as nat).unwrap().0;
                assert(Seq::new(past_secrets@.len(), |q: int| past_secrets@[q]@) + all =~= all);
            }
        }
        while i < count
            invariant
                i <= count,
                p <= bytes@.len(),
                past_secrets@.len() == i,
                dec_ratchet(bytes@, pos as int) == match dec_secrets(
                    bytes@,
                    p4 as int,
                    count as nat,
                ) {
                    Some((ps, pe)) => Some(
                        (RatchetV { ciphersuite, index, generation, past_secrets: ps }, pe),
                    ),
                    None => None::<(RatchetV, int)>,
                },
                dec_secrets(bytes@, p4 as int, count as nat) == match dec_secrets(
                    bytes@,
                    p as int,
                    (count - i) as nat,
                ) {
                    Some((rest, pe)) => Some(
                        (
                            Seq::new(past_secrets@.len(), |q: int| past_secrets@[q]@) + rest,
                            pe,
                        ),
                    ),
                    None => None,
                },
            decreases count - i,
        {
            let ghost prev_map = Seq::new(past_secrets@.len(), |q: int| past_secrets@[q]@);
            let (s, pn) = match decode_secret(bytes, p) {
                Ok(v) => v,
                Err(e) => {
                    proof {
                        assert(dec_secrets(bytes@, p as int, (count - i) as nat) is None);
                        assert(dec_secrets(bytes@, p4 as int, count as nat) is None);
                    }
                    return Err(e);
                },
            };
            past_secrets.push(s);
            proof {
                assert(Seq::new(past_secrets@.len(), |q: int| past_secrets@[q]@) =~= prev_map.push(
                    s@,
                ));
                if dec_secrets(bytes@, pn as int, (count - i - 1) as nat) is Some {
                    let rest2 = dec_secrets(bytes@, pn as int, (count - i - 1) as nat).unwrap().0;
                    assert(prev_map.push(s@) + rest2 =~= prev_map + (seq![s@] + rest2));
                }
            }
            p = pn;
            i += 1;
        }
        let ratchet = SenderRatchet {
            ciphersuite,
            index: RosterIndex { value: index },
            generation,
            past_secrets,
        };
        proof {
            assert(Seq::new(ratchet@.past_secrets.len(), |q: int| ratchet.past_secrets@[q]@) + Seq::<
                Seq<u8>,
            >::empty() =~= ratchet@.past_secrets);
        }
        Ok((ratchet, p))
    }

    /// Derives the (key, nonce) pair from a chain secret, bound to
    /// `(index, generation)`.
    fn derive_key_nonce(&self, secret: &[u8], generation: u32) -> (r: ApplicationSecrets)
        requires
            secret@.len() == hash_length_spec(self.ciphersuite),
        ensures
            r@ == key_nonce_spec(self.ciphersuite, secret@, self.index.value, generation),
    {
        let nonce = derive_app_secret(
            self.ciphersuite,
            secret,
            Label::AppNonce,
            self.index.as_u32(),
            generation,
            nonce_length(self.ciphersuite),
        );
        let key = derive_app_secret(
            self.ciphersuite,
            secret,
            Label::AppKey,
            self.index.as_u32(),
            generation,
            key_length(self.ciphersuite),
        );
        ApplicationSecrets {
            nonce: Nonce::from_slice(nonce.as_slice()),
            key: AEADKey::from_slice(self.ciphersuite, key.as_slice()),
        }
    }
}

} // verus!
