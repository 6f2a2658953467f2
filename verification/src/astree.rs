//! The application secret tree: a sparse, lazily expanded binary tree of node
//! secrets over the sender roster. The root holds the application secret; the
//! first request for a sender derives the path from the nearest live ancestor
//! down to the sender's leaf, erasing each node after use, and seeds that
//! sender's ratchet from the leaf secret.

use vstd::prelude::*;
use vstd::pervasive::VecAdditionalExecFns;
use vstd::arithmetic::power2::{lemma_pow2_pos, pow2};
use crate::aead::{ApplicationSecrets, SecretsV};
use crate::kdf::{
    derive_app_secret, derive_app_secret_spec, hash_length, hash_length_spec, CipherSuite, Label,
};
use crate::codec::{
    be16, be32, concat_bytes, dec_secret, dec_u16, dec_u32, dec_u8, decode_secret, decode_u16,
    decode_u32, decode_u8, enc_secret, encode_secret, encode_u16, encode_u32, encode_u8,
    lemma_concat_bytes_snoc, lemma_dec_be16, lemma_dec_be32, lemma_dec_secret, lemma_split_concat,
    CodecError,
};
use crate::kdf::{cipher_code, cipher_code_spec, cipher_from_code};
use crate::ratchet::{
    dec_ratchet, enc_ratchet, lemma_dec_enc_ratchet, ratchet_get_spec, ratchet_new_spec,
    ratchet_wf, zeroize, RatchetV, SenderRatchet,
};
use crate::treemath::{
    build_path, child_toward, descend, lemma_child_props, lemma_descend_fits,
    lemma_descend_level_le, lemma_level_fits_bounds, lemma_level_fits_left,
    lemma_level_fits_right, lemma_pow2_double, lemma_range_chain, lemma_root_ok, level_fits,
    node_width, pairs_as_nat, path_link, path_ok, path_spec, pos_ok, root_level, root_spec,
};
use crate::{ASError, RosterIndex};

verus! {

/// One tree node's secret. A slot holding no node is erased.
#[derive(Debug, PartialEq)]
pub struct ASTreeNode {
    pub secret: Vec<u8>,
}

impl ASTreeNode {
    /// Appends the canonical encoding of this node: its secret with a
    /// one-byte length prefix.
    pub fn encode(&self, buffer: &mut Vec<u8>) -> (r: Result<(), crate::codec::CodecError>)
        ensures
            match r {
                Ok(()) => self.secret@.len() <= 255 && final(buffer)@ == old(buffer)@
                    + crate::codec::enc_secret(self.secret@),
                Err(e) => self.secret@.len() > 255 && e == crate::codec::CodecError::EncodingError
                    && final(buffer)@ == old(buffer)@,
            },
    {
        crate::codec::encode_secret(&self.secret, buffer)
    }

    /// Reads a node back from its canonical encoding at `pos`.
    pub fn decode(bytes: &[u8], pos: usize) -> (r: Result<
        (Self, usize),
        crate::codec::CodecError,
    >)
        ensures
            match r {
                Ok((v, p2)) => crate::codec::dec_secret(bytes@, pos as int) == Some(
                    (v.secret@, p2 as int),
                ) && p2 <= bytes@.len(),
                Err(e) => crate::codec::dec_secret(bytes@, pos as int) is None && e
                    == crate::codec::CodecError::DecodingError,
            },
    {
        match crate::codec::decode_secret(bytes, pos) {
            Ok((secret, p2)) => Ok((ASTreeNode { secret }, p2)),
            Err(e) => Err(e),
        }
    }
}

/// The mathematical state of an application secret tree.
pub struct TreeV {
    pub ciphersuite: CipherSuite,
    pub nodes: Seq<Option<Seq<u8>>>,
    pub ratchets: Seq<Option<RatchetV>>,
    pub size: nat,
}

/// Every leaf under `(p, k)` is reachable: on the way down to it some node
/// is live, or the leaf's sender already has a ratchet.
#[verifier::opaque]
pub open spec fn covered(
    nodes: Seq<Option<Seq<u8>>>,
    ratchets: Seq<Option<RatchetV>>,
    p: nat,
    k: nat,
    width: nat,
) -> bool
    decreases k,
{
    if nodes[p as int] is Some {
        true
    } else if k == 0 {
        ratchets[(p / 2) as int] is Some
    } else {
        proof {
            lemma_descend_level_le((p + pow2((k - 1) as nat)) as nat, (k - 1) as nat, width);
        }
        covered(nodes, ratchets, (p - pow2((k - 1) as nat)) as nat, (k - 1) as nat, width)
            && covered(
            nodes,
            ratchets,
            descend((p + pow2((k - 1) as nat)) as nat, (k - 1) as nat, width).0,
            descend((p + pow2((k - 1) as nat)) as nat, (k - 1) as nat, width).1,
            width,
        )
    }
}

/// Coverage depends only on which slots in the position's range are live;
/// ratchets may only appear.
pub proof fn lemma_covered_frame(
    nodes1: Seq<Option<Seq<u8>>>,
    nodes2: Seq<Option<Seq<u8>>>,
    ratchets1: Seq<Option<RatchetV>>,
    ratchets2: Seq<Option<RatchetV>>,
    p: nat,
    k: nat,
    width: nat,
)
    requires
        covered(nodes1, ratchets1, p, k, width),
        p < width,
        level_fits(p, k),
        width % 2 == 1,
        2 * ratchets1.len() == width + 1,
        forall|q: int|
            0 <= q < width && p + 1 - pow2(k) <= q <= p + pow2(k) - 1 ==> ((#[trigger] nodes2[q])
                is Some <==> nodes1[q] is Some),
        forall|i: int|
            0 <= i < ratchets1.len() && (#[trigger] ratchets1[i]) is Some ==> ratchets2[i] is Some,
        ratchets1.len() == ratchets2.len(),
    ensures
        covered(nodes2, ratchets2, p, k, width),
    decreases k,
{
    reveal(covered);
    lemma_pow2_pos(k);
    lemma_level_fits_bounds(p, k);
    if nodes1[p as int] is Some {
        assert(nodes2[p as int] is Some);
    } else if k == 0 {
        assert(ratchets2[(p / 2) as int] is Some);
    } else {
        assert(!(nodes2[p as int] is Some));
        lemma_pow2_double((k - 1) as nat);
        lemma_pow2_pos((k - 1) as nat);
        let l = (p - pow2((k - 1) as nat)) as nat;
        lemma_level_fits_left(p, k);
        lemma_covered_frame(nodes1, nodes2, ratchets1, ratchets2, l, (k - 1) as nat, width);
        lemma_level_fits_right(p, k);
        let r0 = (p + pow2((k - 1) as nat)) as nat;
        assert(p + 1 < width);
        lemma_descend_fits(r0, (k - 1) as nat, width);
        lemma_descend_level_le(r0, (k - 1) as nat, width);
        let (c, kc) = descend(r0, (k - 1) as nat, width);
        lemma_pow2_pos(kc);
        lemma_covered_frame(nodes1, nodes2, ratchets1, ratchets2, c, kc, width);
    }
}

/// What one lazy derivation step does to the node array: derive both
/// children of `(p, k)` from its secret, then erase it.
pub open spec fn hash_down_spec(
    ciphersuite: CipherSuite,
    nodes: Seq<Option<Seq<u8>>>,
    p: nat,
    k: nat,
    width: nat,
) -> Seq<Option<Seq<u8>>> {
    let s = nodes[p as int].unwrap();
    let l = (p - pow2((k - 1) as nat)) as nat;
    let c = descend((p + pow2((k - 1) as nat)) as nat, (k - 1) as nat, width).0;
    nodes.update(
        l as int,
        Some(derive_app_secret_spec(s, Label::Tree, l as u32, 0, hash_length_spec(ciphersuite))),
    ).update(
        c as int,
        Some(derive_app_secret_spec(s, Label::Tree, c as u32, 0, hash_length_spec(ciphersuite))),
    ).update(p as int, None)
}

/// The three node slots a hash-down step at `pth[j]` touches all lie inside
/// the range of the on-path child `pth[b + 1]`, strictly on the target's side
/// of `pth[b]`.
proof fn lemma_touched_in_child(pth: Seq<(nat, nat)>, t: nat, width: nat, b: int, j: int)
    requires
        path_ok(pth, t, width),
        width % 2 == 1,
        0 <= b < j < pth.len() - 1,
    ensures
        ({
            let (p, k) = pth[b];
            let (c, kc) = pth[b + 1];
            let (pj, kj) = pth[j];
            let lj = (pj - pow2((kj - 1) as nat)) as nat;
            let cj = descend((pj + pow2((kj - 1) as nat)) as nat, (kj - 1) as nat, width).0;
            &&& c + 1 <= lj + pow2(kc)
            &&& cj <= c + pow2(kc) - 1
            &&& lj < pj < cj
            &&& cj < width
            &&& pj < width
            &&& (t < p ==> cj < p)
            &&& (t > p ==> lj > p)
        }),
{
    let (p, k) = pth[b];
    let (pj, kj) = pth[j];
    assert(path_link(pth, t, width, b));
    assert(path_link(pth, t, width, j));
    lemma_pow2_pos(kj);
    lemma_pow2_double((kj - 1) as nat);
    lemma_pow2_pos((kj - 1) as nat);
    lemma_level_fits_bounds(pj, kj);
    lemma_level_fits_right(pj, kj);
    let lj = (pj - pow2((kj - 1) as nat)) as nat;
    let rj0 = (pj + pow2((kj - 1) as nat)) as nat;
    assert(pj + 1 < width);
    lemma_descend_fits(rj0, (kj - 1) as nat, width);
    let (cj, kcj) = descend(rj0, (kj - 1) as nat, width);
    lemma_pow2_pos(kcj);
    assert(lj < pj && pj < cj);
    assert(pj + 1 <= lj + pow2(kj) && cj + pow2(kcj) <= pj + pow2(kj));
    lemma_child_props(p, k, t, width);
    let (c, kc) = child_toward(p, k, t, width);
    assert(pth[b + 1] == (c, kc));
    lemma_range_chain(pth, t, width, b + 1, j);
    lemma_pow2_pos(kc);
    lemma_pow2_pos(k);
    if t < p {
        assert(c + pow2(kc) - 1 < p);
    } else {
        assert(p + pow2(kc) <= c);
    }
}

/// Hashing one path position down keeps everything above it covered: both
/// its children become live before it is erased.
#[verifier::rlimit(100)]
pub proof fn lemma_covered_after_hash_down(
    ciphersuite: CipherSuite,
    nodes: Seq<Option<Seq<u8>>>,
    ratchets: Seq<Option<RatchetV>>,
    pth: Seq<(nat, nat)>,
    t: nat,
    width: nat,
    b: int,
    j: int,
)
    requires
        path_ok(pth, t, width),
        width % 2 == 1,
        nodes.len() == width,
        2 * ratchets.len() == width + 1,
        0 <= b <= j < pth.len() - 1,
        covered(nodes, ratchets, pth[b].0, pth[b].1, width),
        nodes[pth[j].0 as int] is Some,
    ensures
        covered(
            hash_down_spec(ciphersuite, nodes, pth[j].0, pth[j].1, width),
            ratchets,
            pth[b].0,
            pth[b].1,
            width,
        ),
    decreases j - b,
{
    let (p, k) = pth[b];
    let (pj, kj) = pth[j];
    assert(path_link(pth, t, width, b));
    assert(path_link(pth, t, width, j));
    let nodes2 = hash_down_spec(ciphersuite, nodes, pj, kj, width);
    let lj = (pj - pow2((kj - 1) as nat)) as nat;
    let cj = descend((pj + pow2((kj - 1) as nat)) as nat, (kj - 1) as nat, width).0;
    let s = nodes[pj as int].unwrap();
    assert(nodes2 == nodes.update(
        lj as int,
        Some(derive_app_secret_spec(s, Label::Tree, lj as u32, 0, hash_length_spec(ciphersuite))),
    ).update(
        cj as int,
        Some(derive_app_secret_spec(s, Label::Tree, cj as u32, 0, hash_length_spec(ciphersuite))),
    ).update(pj as int, None));
    if b == j {
        lemma_pow2_pos(kj);
        lemma_pow2_double((kj - 1) as nat);
        lemma_pow2_pos((kj - 1) as nat);
        lemma_level_fits_bounds(pj, kj);
        lemma_level_fits_right(pj, kj);
        assert(pj + 1 < width);
        lemma_descend_fits((pj + pow2((kj - 1) as nat)) as nat, (kj - 1) as nat, width);
        let kcj = descend((pj + pow2((kj - 1) as nat)) as nat, (kj - 1) as nat, width).1;
        lemma_pow2_pos(kcj);
        assert(lj < pj && pj < cj);
        reveal(covered);
        assert(nodes2[lj as int] is Some);
        assert(nodes2[cj as int] is Some);
        assert(covered(nodes2, ratchets, lj, (kj - 1) as nat, width));
        assert(covered(nodes2, ratchets, cj, kcj, width));
        assert(covered(nodes2, ratchets, p, k, width));
    } else {
        lemma_touched_in_child(pth, t, width, b, j);
        let (c, kc) = pth[b + 1];
        assert(pth[b].0 != t);
        assert(t < p || t > p);
        assert(lj < pj < cj);
        assert(t < p ==> cj < p);
        assert(t > p ==> lj > p);
        assert(lj != p && cj != p && pj != p);
        assert(pos_ok(pth[b].0, pth[b].1, t, width));
        assert(lj < width && pj < width && cj < width);
        assert(nodes2.len() == width);
        reveal(covered);
        if nodes[p as int] is Some {
            assert(nodes2[p as int] is Some);
            assert(covered(nodes2, ratchets, p, k, width));
        } else {
            lemma_pow2_pos(k);
            lemma_pow2_double((k - 1) as nat);
            lemma_pow2_pos((k - 1) as nat);
            lemma_level_fits_bounds(p, k);
            let lb = (p - pow2((k - 1) as nat)) as nat;
            let rb0 = (p + pow2((k - 1) as nat)) as nat;
            lemma_level_fits_left(p, k);
            lemma_level_fits_right(p, k);
            assert(p + 1 < width);
            lemma_descend_fits(rb0, (k - 1) as nat, width);
            let (rb, krb) = descend(rb0, (k - 1) as nat, width);
            lemma_pow2_pos(krb);
            assert(covered(nodes, ratchets, lb, (k - 1) as nat, width) && covered(
                nodes,
                ratchets,
                rb,
                krb,
                width,
            ));
            lemma_covered_after_hash_down(ciphersuite, nodes, ratchets, pth, t, width, b + 1, j);
            if t < p {
                // on-path child is the left one; frame the right sibling,
                // whose range lies right of p while all touched indices lie
                // left of p
                assert((c, kc) == (lb, (k - 1) as nat));
                assert(p + pow2(krb) <= rb);
                lemma_covered_frame(nodes, nodes2, ratchets, ratchets, rb, krb, width);
            } else {
                // on-path child is the right one; frame the left sibling
                assert((c, kc) == (rb, krb));
                lemma_covered_frame(nodes, nodes2, ratchets, ratchets, lb, (k - 1) as nat, width);
            }
            assert(covered(nodes2, ratchets, c, kc, width));
            assert(covered(nodes2, ratchets, p, k, width));
        }
    }
}

/// Erasing the leaf while installing its sender's ratchet keeps the whole
/// path covered.
pub proof fn lemma_covered_after_seed(
    nodes: Seq<Option<Seq<u8>>>,
    ratchets: Seq<Option<RatchetV>>,
    ratchet: RatchetV,
    pth: Seq<(nat, nat)>,
    t: nat,
    width: nat,
    b: int,
)
    requires
        path_ok(pth, t, width),
        width % 2 == 1,
        nodes.len() == width,
        2 * ratchets.len() == width + 1,
        0 <= b < pth.len(),
        covered(nodes, ratchets, pth[b].0, pth[b].1, width),
    ensures
        covered(
            nodes.update(t as int, None),
            ratchets.update((t / 2) as int, Some(ratchet)),
            pth[b].0,
            pth[b].1,
            width,
        ),
    decreases pth.len() - b,
{
    reveal(covered);
    let (p, k) = pth[b];
    let nodes2 = nodes.update(t as int, None);
    let ratchets2 = ratchets.update((t / 2) as int, Some(ratchet));
    lemma_pow2_pos(k);
    if b == pth.len() - 1 {
        assert((p, k) == (t, 0nat));
        assert(ratchets2[(t / 2) as int] is Some);
        assert(covered(nodes2, ratchets2, t, 0, width));
    } else {
        assert(path_link(pth, t, width, b));
        lemma_pow2_double((k - 1) as nat);
        lemma_pow2_pos((k - 1) as nat);
        lemma_level_fits_bounds(p, k);
        lemma_child_props(p, k, t, width);
        let (c, kc) = child_toward(p, k, t, width);
        assert(pth[b + 1] == (c, kc));
        lemma_pow2_pos(kc);
        assert(p != t);
        if nodes[p as int] is Some {
            assert(nodes2[p as int] is Some);
            assert(covered(nodes2, ratchets2, p, k, width));
        } else {
            let lb = (p - pow2((k - 1) as nat)) as nat;
            let rb0 = (p + pow2((k - 1) as nat)) as nat;
            lemma_level_fits_left(p, k);
            lemma_level_fits_right(p, k);
            assert(p + 1 < width);
            lemma_descend_fits(rb0, (k - 1) as nat, width);
            let (rb, krb) = descend(rb0, (k - 1) as nat, width);
            lemma_pow2_pos(krb);
            assert(covered(nodes, ratchets, lb, (k - 1) as nat, width) && covered(
                nodes,
                ratchets,
                rb,
                krb,
                width,
            ));
            lemma_covered_after_seed(nodes, ratchets, ratchet, pth, t, width, b + 1);
            // t lies in the on-path child's range, so the sibling is framed
            if t < p {
                assert((c, kc) == (lb, (k - 1) as nat));
                assert(p + pow2(krb) <= rb);
                lemma_covered_frame(nodes, nodes2, ratchets, ratchets2, rb, krb, width);
            } else {
                assert((c, kc) == (rb, krb));
                lemma_covered_frame(nodes, nodes2, ratchets, ratchets2, lb, (k - 1) as nat, width);
            }
            assert(covered(nodes2, ratchets2, c, kc, width));
            assert(covered(nodes2, ratchets2, p, k, width));
        }
    }
}

/// The deepest live position on the path, or -1 when none is live.
pub open spec fn deepest_live(nodes: Seq<Option<Seq<u8>>>, pth: Seq<(nat, nat)>) -> int
    decreases pth.len(),
{
    if pth.len() == 0 {
        -1
    } else if nodes[pth.last().0 as int] is Some {
        pth.len() - 1
    } else {
        deepest_live(nodes, pth.drop_last())
    }
}

/// The deepest live position is on the path and is live.
pub proof fn lemma_deepest_live_some(nodes: Seq<Option<Seq<u8>>>, pth: Seq<(nat, nat)>)
    requires
        deepest_live(nodes, pth) >= 0,
    ensures
        deepest_live(nodes, pth) < pth.len(),
        nodes[pth[deepest_live(nodes, pth)].0 as int] is Some,
    decreases pth.len(),
{
    if pth.len() > 0 && !(nodes[pth.last().0 as int] is Some) {
        lemma_deepest_live_some(nodes, pth.drop_last());
        assert(pth.drop_last()[deepest_live(nodes, pth.drop_last())] == pth[deepest_live(
            nodes,
            pth,
        )]);
    }
}

/// When a sender has no ratchet yet, coverage puts a live node somewhere on
/// the sender's path.
pub proof fn lemma_covered_find_live(
    nodes: Seq<Option<Seq<u8>>>,
    ratchets: Seq<Option<RatchetV>>,
    pth: Seq<(nat, nat)>,
    t: nat,
    width: nat,
    b: int,
)
    requires
        path_ok(pth, t, width),
        width % 2 == 1,
        0 <= b < pth.len(),
        covered(nodes, ratchets, pth[b].0, pth[b].1, width),
        !(ratchets[(t / 2) as int] is Some),
    ensures
        exists|e: int| b <= e < pth.len() && nodes[(#[trigger] pth[e]).0 as int] is Some,
    decreases pth.len() - b,
{
    reveal(covered);
    let (p, k) = pth[b];
    lemma_pow2_pos(k);
    if nodes[p as int] is Some {
        assert(b <= b < pth.len() && nodes[pth[b].0 as int] is Some);
    } else if b == pth.len() - 1 {
        assert((p, k) == (t, 0nat));
        assert(false);
    } else {
        assert(path_link(pth, t, width, b));
        lemma_pow2_double((k - 1) as nat);
        lemma_level_fits_bounds(p, k);
        lemma_level_fits_right(p, k);
        assert(p + 1 < width);
        lemma_descend_fits((p + pow2((k - 1) as nat)) as nat, (k - 1) as nat, width);
        lemma_child_props(p, k, t, width);
        assert(covered(nodes, ratchets, pth[b + 1].0, pth[b + 1].1, width));
        lemma_covered_find_live(nodes, ratchets, pth, t, width, b + 1);
    }
}

/// One step of the lazy derivation walk: hashing down the path position at
/// `c` extends the processed prefix, makes the next path position live, and
/// keeps the root covered.
pub proof fn lemma_mat_step(
    ciphersuite: CipherSuite,
    nodes0: Seq<Option<Seq<u8>>>,
    nodes_before: Seq<Option<Seq<u8>>>,
    ratchets: Seq<Option<RatchetV>>,
    pth: Seq<(nat, nat)>,
    t: nat,
    width: nat,
    a: int,
    c: int,
)
    requires
        path_ok(pth, t, width),
        width % 2 == 1,
        2 * ratchets.len() == width + 1,
        0 <= a <= c < pth.len() - 1,
        nodes_before == mat_nodes(ciphersuite, nodes0, pth, a, c, width),
        nodes_before.len() == width,
        nodes_before[pth[c].0 as int] is Some,
        covered(nodes_before, ratchets, pth[0].0, pth[0].1, width),
    ensures
        ({
            let nodes_after = hash_down_spec(ciphersuite, nodes_before, pth[c].0, pth[c].1, width);
            &&& nodes_after == mat_nodes(ciphersuite, nodes0, pth, a, c + 1, width)
            &&& nodes_after[pth[c + 1].0 as int] is Some
            &&& nodes_after.len() == width
            &&& covered(nodes_after, ratchets, pth[0].0, pth[0].1, width)
        }),
{
    let (p, k) = pth[c];
    let nodes_after = hash_down_spec(ciphersuite, nodes_before, p, k, width);
    assert(path_link(pth, t, width, c));
    lemma_child_props(p, k, t, width);
    lemma_level_fits_bounds(p, k);
    lemma_pow2_double((k - 1) as nat);
    lemma_pow2_pos((k - 1) as nat);
    lemma_level_fits_right(p, k);
    assert(p + 1 < width);
    lemma_descend_fits((p + pow2((k - 1) as nat)) as nat, (k - 1) as nat, width);
    let lj = (p - pow2((k - 1) as nat)) as nat;
    let (cj, kcj) = descend((p + pow2((k - 1) as nat)) as nat, (k - 1) as nat, width);
    lemma_pow2_pos(kcj);
    assert(lj < p && p < cj);
    assert(pth[c + 1] == child_toward(p, k, t, width));
    assert(nodes_after[pth[c + 1].0 as int] is Some);
    assert(nodes_after =~= mat_nodes(ciphersuite, nodes0, pth, a, c + 1, width));
    lemma_covered_after_hash_down(ciphersuite, nodes_before, ratchets, pth, t, width, 0, c);
}

/// The node array after the lazy derivation walk has processed the path
/// positions with indices in `[a, e)`.
pub open spec fn mat_nodes(
    ciphersuite: CipherSuite,
    nodes: Seq<Option<Seq<u8>>>,
    pth: Seq<(nat, nat)>,
    a: int,
    e: int,
    width: nat,
) -> Seq<Option<Seq<u8>>>
    decreases e - a,
{
    if e <= a {
        nodes
    } else {
        hash_down_spec(
            ciphersuite,
            mat_nodes(ciphersuite, nodes, pth, a, e - 1, width),
            pth[e - 1].0,
            pth[e - 1].1,
            width,
        )
    }
}

/// The root-to-leaf path of a sender in the tree.
pub open spec fn tree_path(t: TreeV, sender: u32) -> Seq<(nat, nat)> {
    path_spec(root_spec(t.size), root_level(t.size), (2 * sender) as nat, node_width(t.size))
}

/// A fresh tree: the application secret at the root, everything else empty.
pub open spec fn tree_new_spec(ciphersuite: CipherSuite, secret: Seq<u8>, size: u32) -> TreeV {
    TreeV {
        ciphersuite,
        nodes: Seq::new(
            node_width(size as nat),
            |i: int|
                if i == root_spec(size as nat) {
                    Some(secret)
                } else {
                    None
                },
        ),
        ratchets: Seq::new(size as nat, |i: int| None),
        size: size as nat,
    }
}

/// Well-formedness of a tree state.
pub open spec fn tree_wf(t: TreeV) -> bool {
    &&& 1 <= t.size <= 0x4000_0000
    &&& t.nodes.len() == node_width(t.size)
    &&& t.ratchets.len() == t.size
    &&& forall|n: int|
        0 <= n < t.nodes.len() && (#[trigger] t.nodes[n]) is Some ==> t.nodes[n].unwrap().len()
            == hash_length_spec(t.ciphersuite)
    &&& forall|i: int|
        0 <= i < t.ratchets.len() && (#[trigger] t.ratchets[i]) is Some ==> {
            &&& ratchet_wf(t.ratchets[i].unwrap())
            &&& t.ratchets[i].unwrap().index == i
            &&& t.ratchets[i].unwrap().ciphersuite == t.ciphersuite
        }
    &&& covered(t.nodes, t.ratchets, root_spec(t.size), root_level(t.size), node_width(t.size))
}

/// What `get_secret` returns and how it changes the tree, as a function of
/// the prior state, the sender and the requested generation.
pub open spec fn tree_get_spec(t: TreeV, sender: u32, generation: u32) -> (Result<
    SecretsV,
    ASError,
>, TreeV) {
    if sender >= t.size {
        (Err(ASError::IndexOutOfBounds), t)
    } else if t.ratchets[sender as int] is Some {
        let rg = ratchet_get_spec(t.ratchets[sender as int].unwrap(), generation);
        (rg.0, TreeV { ratchets: t.ratchets.update(sender as int, Some(rg.1)), ..t })
    } else {
        let pth = tree_path(t, sender);
        let a = deepest_live(t.nodes, pth);
        let nodes2 = mat_nodes(t.ciphersuite, t.nodes, pth, a, pth.len() - 1, node_width(t.size));
        let seed = nodes2[(2 * sender) as int].unwrap();
        let rg = ratchet_get_spec(ratchet_new_spec(sender, seed, t.ciphersuite), generation);
        (
            rg.0,
            TreeV {
                nodes: nodes2.update((2 * sender) as int, None),
                ratchets: t.ratchets.update(sender as int, Some(rg.1)),
                ..t
            },
        )
    }
}

/// A per-sender forward-secret key tree over a roster of `size` senders.
#[derive(Debug, PartialEq)]
pub struct ASTree {
    ciphersuite: CipherSuite,
    nodes: Vec<Option<ASTreeNode>>,
    sender_ratchets: Vec<Option<SenderRatchet>>,
    size: RosterIndex,
}

impl View for ASTree {
    type V = TreeV;

    closed spec fn view(&self) -> TreeV {
        TreeV {
            ciphersuite: self.ciphersuite,
            nodes: Seq::new(
                self.nodes@.len(),
                |i: int|
                    match self.nodes@[i] {
                        Some(node) => Some(node.secret@),
                        None => None,
                    },
            ),
            ratchets: Seq::new(
                self.sender_ratchets@.len(),
                |i: int|
                    match self.sender_ratchets@[i] {
                        Some(r) => Some(r@),
                        None => None,
                    },
            ),
            size: self.size.value as nat,
        }
    }
}

impl ASTree {
    /// Builds a tree over `size` senders with `application_secret` installed
    /// at the root and every other slot empty.
    pub fn new(ciphersuite: CipherSuite, application_secret: &[u8], size: RosterIndex) -> (r: Self)
        requires
            application_secret@.len() == hash_length_spec(ciphersuite),
            1 <= size.value <= 0x4000_0000u32,
        ensures
            r@ == tree_new_spec(ciphersuite, application_secret@, size.value),
            tree_wf(r@),
    {
        proof {
            lemma_root_ok(size.value as nat, 0);
        }
        let (root_index, _root_lvl) = crate::treemath::root_parts(size.as_u32());
        let num_indices: usize = 2 * (size.as_u32() as usize) - 1;
        let mut nodes: Vec<Option<ASTreeNode>> = Vec::new();
        let mut i: usize = 0;
        while i < num_indices
            invariant
                i <= num_indices,
                nodes@.len() == i,
                forall|n: int| 0 <= n < i ==> (#[trigger] nodes@[n]) is None,
            decreases num_indices - i,
        {
            nodes.push(None);
            i += 1;
        }
        nodes.set(
            root_index as usize,
            Some(ASTreeNode { secret: vstd::slice::slice_to_vec(application_secret) }),
        );
        let mut sender_ratchets: Vec<Option<SenderRatchet>> = Vec::new();
        let mut s: usize = 0;
        let size_usize = size.as_usize();
        while s < size_usize
            invariant
                s <= size_usize,
                sender_ratchets@.len() == s,
                forall|n: int| 0 <= n < s ==> (#[trigger] sender_ratchets@[n]) is None,
            decreases size_usize - s,
        {
            sender_ratchets.push(None);
            s += 1;
        }
        let tree = ASTree { ciphersuite, nodes, sender_ratchets, size };
        proof {
            let spec_tree = tree_new_spec(ciphersuite, application_secret@, size.value);
            reveal(covered);
            assert(tree@.nodes =~= spec_tree.nodes);
            assert(tree@.ratchets =~= spec_tree.ratchets);
            assert(tree@.nodes[root_spec(tree@.size) as int] is Some);
            assert(covered(
                tree@.nodes,
                tree@.ratchets,
                root_spec(tree@.size),
                root_level(tree@.size),
                node_width(tree@.size),
            ));
        }
        tree
    }

    /// The highest generation materialized for `sender`, zero when the
    /// sender's ratchet does not exist yet.
    pub fn get_generation(&self, sender: RosterIndex) -> (r: u32)
        requires
            tree_wf(self@),
            sender.value < self@.size,
        ensures
            r == match self@.ratchets[sender.value as int] {
                Some(rv) => rv.generation,
                None => 0u32,
            },
    {
        match &self.sender_ratchets[sender.as_usize()] {
            Some(sender_ratchet) => sender_ratchet.generation(),
            None => 0,
        }
    }

    /// Whether the slot of tree node `node_index` currently holds a secret.
    pub fn node_is_live(&self, node_index: u32) -> (r: bool)
        ensures
            r == (node_index < self@.nodes.len() && self@.nodes[node_index as int] is Some),
    {
        if (node_index as usize) < self.nodes.len() {
            self.nodes[node_index as usize].is_some()
        } else {
            false
        }
    }

    /// Appends the canonical encoding of the whole tree: ciphersuite code,
    /// node array, ratchet array, roster size.
    #[verifier::rlimit(100)]
    pub fn encode(&self, buffer: &mut Vec<u8>) -> (r: Result<(), CodecError>)
        requires
            tree_wf(self@),
        ensures
            r is Ok,
            final(buffer)@ == old(buffer)@ + enc_tree(self@),
    {
        let ghost base = buffer@;
        proof {
            assert(nodes_view(self.nodes@) =~= self@.nodes);
            assert(ratchets_view(self.sender_ratchets@) =~= self@.ratchets);
        }
        encode_u16(cipher_code(self.ciphersuite), buffer);
        encode_u32(self.nodes.len() as u32, buffer);
        encode_opt_nodes(&self.nodes, buffer);
        encode_u32(self.sender_ratchets.len() as u32, buffer);
        encode_opt_ratchets(&self.sender_ratchets, buffer);
        encode_u32(self.size.as_u32(), buffer);
        proof {
            assert(buffer@ =~= base + enc_tree(self@));
        }
        Ok(())
    }

    /// Reads a tree back from its canonical encoding at `pos`.
    pub fn decode(bytes: &[u8], pos: usize) -> (r: Result<(ASTree, usize), CodecError>)
        ensures
            match r {
                Ok((t, p2)) => dec_tree(bytes@, pos as int) == Some((t@, p2 as int)) && p2
                    <= bytes@.len(),
                Err(e) => dec_tree(bytes@, pos as int) is None && e == CodecError::DecodingError,
            },
    {
        let (code, p1) = match decode_u16(bytes, pos) {
            Ok(v) => v,
            Err(e) => {
                return Err(e);
            },
        };
        let ciphersuite = match cipher_from_code(code) {
            Some(c) => c,
            None => {
                proof {
                    assert(cipher_code_spec(
                        CipherSuite::MLS10_128_HPKEX25519_CHACHA20POLY1305_SHA256_Ed25519,
                    ) != code);
                }
                return Err(CodecError::DecodingError);
            },
        };
        let (node_count, p2) = match decode_u32(bytes, p1) {
            Ok(v) => v,
            Err(e) => {
                return Err(e);
            },
        };
        let (nodes, p3) = match decode_opt_nodes(bytes, p2, node_count) {
            Ok(v) => v,
            Err(e) => {
                return Err(e);
            },
        };
        let (ratchet_count, p4) = match decode_u32(bytes, p3) {
            Ok(v) => v,
            Err(e) => {
                return Err(e);
            },
        };
        let (sender_ratchets, p5) = match decode_opt_ratchets(bytes, p4, ratchet_count) {
            Ok(v) => v,
            Err(e) => {
                return Err(e);
            },
        };
        let (size, p6) = match decode_u32(bytes, p5) {
            Ok(v) => v,
            Err(e) => {
                return Err(e);
            },
        };
        let tree = ASTree { ciphersuite, nodes, sender_ratchets, size: RosterIndex { value: size } };
        proof {
            assert(tree@.nodes =~= nodes_view(tree.nodes@));
            assert(tree@.ratchets =~= ratchets_view(tree.sender_ratchets@));
        }
        Ok((tree, p6))
    }

    /// Erases every secret the tree still holds: every live node slot and
    /// every ratchet window is zeroized and emptied. The tree no longer
    /// satisfies its well-formedness afterwards; call this only when the
    /// tree is being discarded.
    pub fn wipe(&mut self)
        ensures
            final(self)@.nodes.len() == old(self)@.nodes.len(),
            forall|n: int|
                0 <= n < final(self)@.nodes.len() ==> (#[trigger] final(self)@.nodes[n]) is None,
            final(self)@.ratchets.len() == old(self)@.ratchets.len(),
            forall|i: int|
                0 <= i < final(self)@.ratchets.len() ==> (#[trigger] final(self)@.ratchets[i])
                    is None,
    {
        let node_count = self.nodes.len();
        let mut n: usize = 0;
        while n < node_count
            invariant
                n <= node_count,
                node_count == old(self)@.nodes.len(),
                self.nodes@.len() == node_count,
                self.sender_ratchets@ == old(self).sender_ratchets@,
                forall|q: int| 0 <= q < n ==> (#[trigger] self.nodes@[q]) is None,
            decreases node_count - n,
        {
            match &mut self.nodes[n] {
                Some(node) => {
                    zeroize(&mut node.secret);
                },
                None => {},
            }
            self.nodes.set(n, None);
            n += 1;
        }
        let ratchet_count = self.sender_ratchets.len();
        let mut i: usize = 0;
        while i < ratchet_count
            invariant
                i <= ratchet_count,
                node_count == old(self)@.nodes.len(),
                ratchet_count == old(self)@.ratchets.len(),
                self.sender_ratchets@.len() == ratchet_count,
                self.nodes@.len() == node_count,
                forall|q: int| 0 <= q < node_count ==> (#[trigger] self.nodes@[q]) is None,
                forall|q: int| 0 <= q < i ==> (#[trigger] self.sender_ratchets@[q]) is None,
            decreases ratchet_count - i,
        {
            match &mut self.sender_ratchets[i] {
                Some(sender_ratchet) => {
                    sender_ratchet.wipe();
                },
                None => {},
            }
            self.sender_ratchets.set(i, None);
            i += 1;
        }
        proof {
            assert forall|q: int|
                0 <= q < self@.nodes.len() implies (#[trigger] self@.nodes[q]) is None by {
                assert(self.nodes@[q] is None);
            }
            assert forall|q: int|
                0 <= q < self@.ratchets.len() implies (#[trigger] self@.ratchets[q]) is None by {
                assert(self.sender_ratchets@[q] is None);
            }
        }
    }

    /// Index of the deepest live node on the sender's path.
    fn find_deepest_live(&self, path: &Vec<(u32, u32)>) -> (r: usize)
        requires
            path@.len() >= 1,
            forall|b: int|
                0 <= b < path@.len() ==> ((#[trigger] path@[b]).0 as int) < self@.nodes.len(),
            deepest_live(self@.nodes, pairs_as_nat(path@)) >= 0,
        ensures
            r as int == deepest_live(self@.nodes, pairs_as_nat(path@)),
            r < path@.len(),
            self@.nodes[path@[r as int].0 as int] is Some,
    {
        let ghost pth = pairs_as_nat(path@);
        proof {
            assert(pth.subrange(0, path@.len() as int) =~= pth);
        }
        let mut b: usize = path.len();
        while b > 0
            invariant
                b <= path@.len(),
                pth == pairs_as_nat(path@),
                forall|e: int|
                    0 <= e < path@.len() ==> ((#[trigger] path@[e]).0 as int) < self@.nodes.len(),
                deepest_live(self@.nodes, pth.subrange(0, b as int)) == deepest_live(
                    self@.nodes,
                    pth,
                ),
            decreases b,
        {
            let q = path[b - 1].0;
            proof {
                assert(pth.subrange(0, b as int).last() == pth[b - 1]);
                assert(pth.subrange(0, b as int).drop_last() =~= pth.subrange(0, b - 1));
            }
            if self.nodes[q as usize].is_some() {
                proof {
                    assert(deepest_live(self@.nodes, pth.subrange(0, b as int)) == b - 1);
                }
                return b - 1;
            }
            b -= 1;
        }
        proof {
            assert(pth.subrange(0, 0) =~= Seq::<(nat, nat)>::empty());
            assert(deepest_live(self@.nodes, pth) == -1);
            assert(false);
        }
        0
    }

    /// Derives both children of live node `(p, k)` from its secret, stores
    /// them, and erases `(p, k)`.
    fn hash_down(&mut self, p: u32, k: u32)
        requires
            1 <= old(self)@.size <= 0x4000_0000,
            old(self)@.nodes.len() == node_width(old(self)@.size),
            (p as nat) < node_width(old(self)@.size),
            1 <= k <= 31,
            level_fits(p as nat, k as nat),
            old(self)@.nodes[p as int] is Some,
            forall|n: int|
                0 <= n < old(self)@.nodes.len() && (#[trigger] old(self)@.nodes[n]) is Some ==> old(
                    self,
                )@.nodes[n].unwrap().len() == hash_length_spec(old(self)@.ciphersuite),
        ensures
            final(self)@.ciphersuite == old(self)@.ciphersuite,
            final(self)@.size == old(self)@.size,
            final(self)@.ratchets == old(self)@.ratchets,
            final(self)@.nodes == hash_down_spec(
                old(self)@.ciphersuite,
                old(self)@.nodes,
                p as nat,
                k as nat,
                node_width(old(self)@.size),
            ),
            final(self)@.nodes.len() == old(self)@.nodes.len(),
            forall|n: int|
                0 <= n < final(self)@.nodes.len() && (#[trigger] final(self)@.nodes[n]) is Some
                    ==> final(self)@.nodes[n].unwrap().len() == hash_length_spec(
                    old(self)@.ciphersuite,
                ),
    {
        let ghost width = node_width(old(self)@.size);
        proof {
            lemma_level_fits_bounds(p as nat, k as nat);
            lemma_pow2_double((k - 1) as nat);
            lemma_pow2_pos((k - 1) as nat);
            lemma_level_fits_right(p as nat, k as nat);
            assert(width % 2 == 1);
            assert(p + 1 < width);
            lemma_descend_fits((p as nat + pow2((k - 1) as nat)) as nat, (k - 1) as nat, width);
        }
        let width_exec: u64 = 2 * (self.size.as_u32() as u64) - 1;
        let half = crate::treemath::pow2_exec(k - 1);
        let l: u64 = p as u64 - half;
        let ghost dpair = descend((p as nat + pow2((k - 1) as nat)) as nat, (k - 1) as nat, width);
        proof {
            lemma_pow2_pos(dpair.1);
        }
        let rc = crate::treemath::descend_exec(p as u64 + half, k - 1, width_exec, Ghost(dpair.0));
        let hash_len = hash_length(self.ciphersuite);
        let left_secret;
        let right_secret;
        match &self.nodes[p as usize] {
            Some(node) => {
                left_secret = derive_app_secret(
                    self.ciphersuite,
                    node.secret.as_slice(),
                    Label::Tree,
                    l as u32,
                    0,
                    hash_len,
                );
                right_secret = derive_app_secret(
                    self.ciphersuite,
                    node.secret.as_slice(),
                    Label::Tree,
                    rc.0 as u32,
                    0,
                    hash_len,
                );
            },
            None => {
                left_secret = Vec::new();
                right_secret = Vec::new();
                proof {
                    assert(false);
                }
            },
        }
        self.nodes.set(l as usize, Some(ASTreeNode { secret: left_secret }));
        self.nodes.set(rc.0 as usize, Some(ASTreeNode { secret: right_secret }));
        match &mut self.nodes[p as usize] {
            Some(node) => {
                zeroize(&mut node.secret);
            },
            None => {},
        }
        self.nodes.set(p as usize, None);
        proof {
            assert(final(self)@.nodes =~= hash_down_spec(
                old(self)@.ciphersuite,
                old(self)@.nodes,
                p as nat,
                k as nat,
                width,
            ));
            assert(final(self)@.ratchets =~= old(self)@.ratchets);
        }
    }

    /// Produces the (key, nonce) pair for `(index, generation)`. The first
    /// request for a sender lazily derives the path from the nearest live
    /// ancestor down to the sender's leaf, erases every node used on the
    /// way, and seeds the sender's ratchet; afterwards the ratchet serves
    /// all requests.
    #[verifier::rlimit(100)]
    pub fn get_secret(&mut self, index: RosterIndex, generation: u32) -> (r: Result<
        ApplicationSecrets,
        ASError,
    >)
        requires
            tree_wf(old(self)@),
        ensures
            tree_wf(final(self)@),
            final(self)@ == tree_get_spec(old(self)@, index.value, generation).1,
            match r {
                Ok(s) => tree_get_spec(old(self)@, index.value, generation).0 == Ok::<
                    SecretsV,
                    ASError,
                >(s@),
                Err(e) => tree_get_spec(old(self)@, index.value, generation).0 == Err::<
                    SecretsV,
                    ASError,
                >(e),
            },
    {
        let ghost t0 = old(self)@;
        let ghost width = node_width(t0.size);
        let sender = index.as_u32();
        if sender >= self.size.as_u32() {
            return Err(ASError::IndexOutOfBounds);
        }
        let idx = index.as_usize();
        let mut has_ratchet = false;
        match &self.sender_ratchets[idx] {
            Some(_) => {
                has_ratchet = true;
            },
            None => {},
        }
        if has_ratchet {
            let result;
            match &mut self.sender_ratchets[idx] {
                Some(sender_ratchet) => {
                    proof {
                        assert(sender_ratchet@ == t0.ratchets[idx as int].unwrap());
                    }
                    result = sender_ratchet.get_secret(generation);
                },
                None => {
                    proof {
                        assert(false);
                    }
                    result = Err(ASError::IndexOutOfBounds);
                },
            }
            proof {
                let rg = ratchet_get_spec(t0.ratchets[idx as int].unwrap(), generation);
                assert(self@.ratchets =~= t0.ratchets.update(idx as int, Some(rg.1)));
                assert(self@.nodes =~= t0.nodes);
                lemma_root_ok(t0.size, 0);
                lemma_covered_frame(
                    t0.nodes,
                    self@.nodes,
                    t0.ratchets,
                    self@.ratchets,
                    root_spec(t0.size),
                    root_level(t0.size),
                    width,
                );
                assert(self@ == tree_get_spec(t0, index.value, generation).1);
            }
            return result;
        }
        self.materialize_and_get(index, generation)
    }

    /// First request for a sender: derives the path from the nearest live
    /// ancestor down to the sender's leaf, erases every node used on the
    /// way, seeds the sender's ratchet from the leaf secret, and delegates.
    #[verifier::rlimit(100)]
    fn materialize_and_get(&mut self, index: RosterIndex, generation: u32) -> (r: Result<
        ApplicationSecrets,
        ASError,
    >)
        requires
            tree_wf(old(self)@),
            index.value < old(self)@.size,
            old(self)@.ratchets[index.value as int] is None,
        ensures
            tree_wf(final(self)@),
            final(self)@ == tree_get_spec(old(self)@, index.value, generation).1,
            match r {
                Ok(s) => tree_get_spec(old(self)@, index.value, generation).0 == Ok::<
                    SecretsV,
                    ASError,
                >(s@),
                Err(e) => tree_get_spec(old(self)@, index.value, generation).0 == Err::<
                    SecretsV,
                    ASError,
                >(e),
            },
    {
        let ghost t0 = old(self)@;
        let ghost width = node_width(t0.size);
        let sender = index.as_u32();
        let idx = index.as_usize();
        let leaf: u32 = 2 * sender;
        let path = build_path(self.size.as_u32(), leaf);
        let ghost pth = pairs_as_nat(path@);
        proof {
            crate::treemath::lemma_path_ok(t0.size, leaf as nat);
            assert((leaf as nat) / 2 == idx as int);
            assert forall|b: int|
                0 <= b < path@.len() implies ((#[trigger] path@[b]).0 as int)
                < self@.nodes.len() by {
                assert(pos_ok(pth[b].0, pth[b].1, leaf as nat, width));
            }
            assert(deepest_live(t0.nodes, pth) >= 0) by {
                lemma_covered_find_live(t0.nodes, t0.ratchets, pth, leaf as nat, width, 0);
                let e = choose|e: int|
                    0 <= e < pth.len() && t0.nodes[(#[trigger] pth[e]).0 as int] is Some;
                lemma_deepest_live_at_least(t0.nodes, pth, e);
            }
        }
        let a = self.find_deepest_live(&path);
        let m = path.len() - 1;
        let ghost ratchets0 = t0.ratchets;
        let mut c = a;
        while c < m
            invariant
                a <= c <= m,
                m == pth.len() - 1,
                pth == pairs_as_nat(path@),
                path_ok(pth, leaf as nat, width),
                pth[0] == (root_spec(t0.size), root_level(t0.size)),
                2 * ratchets0.len() == width + 1,
                1 <= self@.size <= 0x4000_0000,
                width == node_width(self@.size),
                width % 2 == 1,
                self@.size == t0.size,
                self@.ciphersuite == t0.ciphersuite,
                self@.ratchets == ratchets0,
                self@.nodes.len() == width,
                forall|e: int| 0 <= e < pth.len() ==> (#[trigger] pth[e]).1 <= 31,
                self@.nodes == mat_nodes(t0.ciphersuite, t0.nodes, pth, a as int, c as int, width),
                self@.nodes[pth[c as int].0 as int] is Some,
                covered(self@.nodes, ratchets0, root_spec(t0.size), root_level(t0.size), width),
                forall|n: int|
                    0 <= n < self@.nodes.len() && (#[trigger] self@.nodes[n]) is Some
                        ==> self@.nodes[n].unwrap().len() == hash_length_spec(t0.ciphersuite),
            decreases m - c,
        {
            let ghost nodes_before = self@.nodes;
            let (pp, kk) = path[c];
            proof {
                assert(pth[c as int] == (pp as nat, kk as nat));
                assert(path_link(pth, leaf as nat, width, c as int));
                lemma_mat_step(
                    t0.ciphersuite,
                    t0.nodes,
                    nodes_before,
                    ratchets0,
                    pth,
                    leaf as nat,
                    width,
                    a as int,
                    c as int,
                );
            }
            self.hash_down(pp, kk);
            proof {
                assert(pth[0] == (root_spec(t0.size), root_level(t0.size)));
            }
            c += 1;
        }
        proof {
            assert(pth[m as int].0 == leaf as nat);
        }
        let mut sender_ratchet;
        match &self.nodes[leaf as usize] {
            Some(node) => {
                sender_ratchet = SenderRatchet::new(index, node.secret.as_slice(), self.ciphersuite);
            },
            None => {
                proof {
                    assert(false);
                }
                sender_ratchet = SenderRatchet::new(index, &[], self.ciphersuite);
            },
        }
        let result = sender_ratchet.get_secret(generation);
        let ghost nodes2 = self@.nodes;
        let ghost r1 = sender_ratchet@;
        match &mut self.nodes[leaf as usize] {
            Some(node) => {
                zeroize(&mut node.secret);
            },
            None => {},
        }
        self.nodes.set(leaf as usize, None);
        self.sender_ratchets.set(idx, Some(sender_ratchet));
        proof {
            assert(self@.nodes =~= nodes2.update(leaf as int, None));
            assert(self@.ratchets =~= ratchets0.update(idx as int, Some(r1)));
            assert((leaf as nat) / 2 == idx as int);
            lemma_covered_after_seed(nodes2, ratchets0, r1, pth, leaf as nat, width, 0);
            assert(pth[0] == (root_spec(t0.size), root_level(t0.size)));
            assert(self@ == tree_get_spec(t0, index.value, generation).1);
        }
        result
    }
}

/// Canonical encoding of one node slot: a discriminant byte (0 absent,
/// 1 present) followed by the secret with a one-byte length prefix.
pub open spec fn enc_opt_node(o: Option<Seq<u8>>) -> Seq<u8> {
    match o {
        None => seq![0u8],
        Some(s) => seq![1u8] + enc_secret(s),
    }
}

/// Per-slot encodings of a node array.
pub open spec fn node_encs(ns: Seq<Option<Seq<u8>>>) -> Seq<Seq<u8>> {
    Seq::new(ns.len(), |i: int| enc_opt_node(ns[i]))
}

/// Canonical encoding of a node array's slots, concatenated.
pub open spec fn enc_opt_nodes(ns: Seq<Option<Seq<u8>>>) -> Seq<u8> {
    concat_bytes(node_encs(ns))
}

/// Canonical encoding of one ratchet slot.
pub open spec fn enc_opt_ratchet(o: Option<RatchetV>) -> Seq<u8> {
    match o {
        None => seq![0u8],
        Some(r) => seq![1u8] + enc_ratchet(r),
    }
}

/// Per-slot encodings of a ratchet array.
pub open spec fn ratchet_encs(rs: Seq<Option<RatchetV>>) -> Seq<Seq<u8>> {
    Seq::new(rs.len(), |i: int| enc_opt_ratchet(rs[i]))
}

/// Canonical encoding of a ratchet array's slots, concatenated.
pub open spec fn enc_opt_ratchets(rs: Seq<Option<RatchetV>>) -> Seq<u8> {
    concat_bytes(ratchet_encs(rs))
}

/// Canonical encoding of a whole tree: ciphersuite code, node array,
/// ratchet array, roster size. Each array carries a four-byte entry count;
/// each slot an explicit discriminant byte.
pub open spec fn enc_tree(t: TreeV) -> Seq<u8> {
    be16(cipher_code_spec(t.ciphersuite)) + be32(t.nodes.len() as u32) + enc_opt_nodes(t.nodes)
        + be32(t.ratchets.len() as u32) + enc_opt_ratchets(t.ratchets) + be32(t.size as u32)
}

/// Decodes one node slot at `pos`.
pub open spec fn dec_opt_node(b: Seq<u8>, pos: int) -> Option<(Option<Seq<u8>>, int)> {
    match dec_u8(b, pos) {
        Some((d, p1)) => if d == 0 {
            Some((None, p1))
        } else if d == 1 {
            match dec_secret(b, p1) {
                Some((s, p2)) => Some((Some(s), p2)),
                None => None,
            }
        } else {
            None
        },
        None => None,
    }
}

/// Decodes `n` node slots at `pos`.
pub open spec fn dec_opt_nodes(b: Seq<u8>, pos: int, n: nat) -> Option<(Seq<Option<Seq<u8>>>, int)>
    decreases n,
{
    if n == 0 {
        Some((Seq::empty(), pos))
    } else {
        match dec_opt_node(b, pos) {
            Some((o, p1)) => match dec_opt_nodes(b, p1, (n - 1) as nat) {
                Some((rest, p2)) => Some((seq![o] + rest, p2)),
                None => None,
            },
            None => None,
        }
    }
}

/// Decodes one ratchet slot at `pos`.
pub open spec fn dec_opt_ratchet(b: Seq<u8>, pos: int) -> Option<(Option<RatchetV>, int)> {
    match dec_u8(b, pos) {
        Some((d, p1)) => if d == 0 {
            Some((None, p1))
        } else if d == 1 {
            match dec_ratchet(b, p1) {
                Some((r, p2)) => Some((Some(r), p2)),
                None => None,
            }
        } else {
            None
        },
        None => None,
    }
}

/// Decodes `n` ratchet slots at `pos`.
pub open spec fn dec_opt_ratchets(b: Seq<u8>, pos: int, n: nat) -> Option<
    (Seq<Option<RatchetV>>, int),
>
    decreases n,
{
    if n == 0 {
        Some((Seq::empty(), pos))
    } else {
        match dec_opt_ratchet(b, pos) {
            Some((o, p1)) => match dec_opt_ratchets(b, p1, (n - 1) as nat) {
                Some((rest, p2)) => Some((seq![o] + rest, p2)),
                None => None,
            },
            None => None,
        }
    }
}

/// Decodes a whole tree at `pos`.
pub open spec fn dec_tree(b: Seq<u8>, pos: int) -> Option<(TreeV, int)> {
    match dec_u16(b, pos) {
        Some((code, p1)) => if code == cipher_code_spec(
            CipherSuite::MLS10_128_HPKEX25519_CHACHA20POLY1305_SHA256_Ed25519,
        ) {
            match dec_u32(b, p1) {
                Some((n1, p2)) => match dec_opt_nodes(b, p2, n1 as nat) {
                    Some((nodes, p3)) => match dec_u32(b, p3) {
                        Some((n2, p4)) => match dec_opt_ratchets(b, p4, n2 as nat) {
                            Some((ratchets, p5)) => match dec_u32(b, p5) {
                                Some((size, p6)) => Some(
                                    (
                                        TreeV {
                                            ciphersuite:
                                                CipherSuite::MLS10_128_HPKEX25519_CHACHA20POLY1305_SHA256_Ed25519,
                                            nodes,
                                            ratchets,
                                            size: size as nat,
                                        },
                                        p6,
                                    ),
                                ),
                                None => None,
                            },
                            None => None,
                        },
                        None => None,
                    },
                    None => None,
                },
                None => None,
            }
        } else {
            None
        },
        None => None,
    }
}

/// The view of a vector of node slots.
pub open spec fn nodes_view(s: Seq<Option<ASTreeNode>>) -> Seq<Option<Seq<u8>>> {
    Seq::new(
        s.len(),
        |i: int|
            match s[i] {
                Some(node) => Some(node.secret@),
                None => None,
            },
    )
}

/// The view of a vector of ratchet slots.
pub open spec fn ratchets_view(s: Seq<Option<SenderRatchet>>) -> Seq<Option<RatchetV>> {
    Seq::new(
        s.len(),
        |i: int|
            match s[i] {
                Some(r) => Some(r@),
                None => None,
            },
    )
}

/// Appends the slot encodings of a node array.
fn encode_opt_nodes(nodes: &Vec<Option<ASTreeNode>>, buffer: &mut Vec<u8>)
    requires
        forall|i: int|
            0 <= i < nodes_view(nodes@).len() ==> ((#[trigger] nodes_view(nodes@)[i]) is Some
                ==> nodes_view(nodes@)[i].unwrap().len() <= 255),
    ensures
        final(buffer)@ == old(buffer)@ + enc_opt_nodes(nodes_view(nodes@)),
{
    let ghost base = buffer@;
    let ghost views = nodes_view(nodes@);
    let n = nodes.len();
    let mut i: usize = 0;
    proof {
        assert(node_encs(views).take(0) =~= Seq::<Seq<u8>>::empty());
        assert(base + concat_bytes(node_encs(views).take(0)) =~= base);
    }
    while i < n
        invariant
            i <= n,
            n == nodes@.len(),
            views == nodes_view(nodes@),
            forall|q: int|
                0 <= q < nodes_view(nodes@).len() ==> ((#[trigger] nodes_view(nodes@)[q]) is Some
                    ==> nodes_view(nodes@)[q].unwrap().len() <= 255),
            buffer@ == base + concat_bytes(node_encs(views).take(i as int)),
        decreases n - i,
    {
        match &nodes[i] {
            Some(node) => {
                proof {
                    assert(nodes_view(nodes@)[i as int] == Some(node.secret@));
                }
                encode_u8(1u8, buffer);
                let r = encode_secret(&node.secret, buffer);
                proof {
                    if r is Err {
                        assert(false);
                    }
                }
            },
            None => {
                encode_u8(0u8, buffer);
            },
        }
        proof {
            lemma_concat_bytes_snoc(node_encs(views), i as int);
            assert(node_encs(views)[i as int] == enc_opt_node(views[i as int]));
            assert(buffer@ =~= base + concat_bytes(node_encs(views).take(i + 1)));
        }
        i += 1;
    }
    proof {
        assert(node_encs(views).take(n as int) =~= node_encs(views));
    }
}

/// Appends the slot encodings of a ratchet array.
fn encode_opt_ratchets(ratchets: &Vec<Option<SenderRatchet>>, buffer: &mut Vec<u8>)
    requires
        forall|i: int|
            0 <= i < ratchets_view(ratchets@).len() ==> ((#[trigger] ratchets_view(ratchets@)[i])
                is Some ==> ratchet_wf(ratchets_view(ratchets@)[i].unwrap())),
    ensures
        final(buffer)@ == old(buffer)@ + enc_opt_ratchets(ratchets_view(ratchets@)),
{
    let ghost base = buffer@;
    let ghost views = ratchets_view(ratchets@);
    let n = ratchets.len();
    let mut i: usize = 0;
    proof {
        assert(ratchet_encs(views).take(0) =~= Seq::<Seq<u8>>::empty());
        assert(base + concat_bytes(ratchet_encs(views).take(0)) =~= base);
    }
    while i < n
        invariant
            i <= n,
            n == ratchets@.len(),
            views == ratchets_view(ratchets@),
            forall|q: int|
                0 <= q < ratchets_view(ratchets@).len() ==> ((#[trigger] ratchets_view(
                    ratchets@,
                )[q]) is Some ==> ratchet_wf(ratchets_view(ratchets@)[q].unwrap())),
            buffer@ == base + concat_bytes(ratchet_encs(views).take(i as int)),
        decreases n - i,
    {
        match &ratchets[i] {
            Some(sender_ratchet) => {
                proof {
                    assert(ratchets_view(ratchets@)[i as int] == Some(sender_ratchet@));
                }
                encode_u8(1u8, buffer);
                sender_ratchet.encode(buffer);
            },
            None => {
                encode_u8(0u8, buffer);
            },
        }
        proof {
            lemma_concat_bytes_snoc(ratchet_encs(views), i as int);
            assert(ratchet_encs(views)[i as int] == enc_opt_ratchet(views[i as int]));
            assert(buffer@ =~= base + concat_bytes(ratchet_encs(views).take(i + 1)));
        }
        i += 1;
    }
    proof {
        assert(ratchet_encs(views).take(n as int) =~= ratchet_encs(views));
    }
}

/// Reads `n` node slots back from their canonical encoding at `pos`.
fn decode_opt_nodes(bytes: &[u8], pos: usize, n: u32) -> (r: Result<
    (Vec<Option<ASTreeNode>>, usize),
    CodecError,
>)
    requires
        pos <= bytes@.len(),
    ensures
        match r {
            Ok((v, p2)) => dec_opt_nodes(bytes@, pos as int, n as nat) == Some(
                (nodes_view(v@), p2 as int),
            ) && p2 <= bytes@.len(),
            Err(e) => dec_opt_nodes(bytes@, pos as int, n as nat) is None && e
                == CodecError::DecodingError,
        },
{
    let mut nodes: Vec<Option<ASTreeNode>> = Vec::new();
    let mut p = pos;
    let mut i: u32 = 0;
    proof {
        if dec_opt_nodes(bytes@, pos as int, n as nat) is Some {
            let all = dec_opt_nodes(bytes@, pos as int, n as nat).unwrap().0;
            assert(nodes_view(nodes@) + all =~= all);
        }
    }
    while i < n
        invariant
            i <= n,
            p <= bytes@.len(),
            nodes@.len() == i,
            dec_opt_nodes(bytes@, pos as int, n as nat) == match dec_opt_nodes(
                bytes@,
                p as int,
                (n - i) as nat,
            ) {
                Some((rest, pe)) => Some((nodes_view(nodes@) + rest, pe)),
                None => None,
            },
        decreases n - i,
    {
        let ghost prev_map = nodes_view(nodes@);
        let (d, p1) = match decode_u8(bytes, p) {
            Ok(v) => v,
            Err(e) => {
                return Err(e);
            },
        };
        let (slot, pn) = if d == 0 {
            (None, p1)
        } else if d == 1 {
            match decode_secret(bytes, p1) {
                Ok((secret, p2)) => (Some(ASTreeNode { secret }), p2),
                Err(e) => {
                    return Err(e);
                },
            }
        } else {
            proof {
                assert(dec_opt_node(bytes@, p as int) is None);
            }
            return Err(CodecError::DecodingError);
        };
        let ghost slot_view = if slot is Some {
            Some(slot.unwrap().secret@)
        } else {
            None::<Seq<u8>>
        };
        nodes.push(slot);
        proof {
            assert(dec_opt_node(bytes@, p as int) == Some((slot_view, pn as int)));
            assert(nodes_view(nodes@) =~= prev_map.push(slot_view));
            if dec_opt_nodes(bytes@, pn as int, (n - i - 1) as nat) is Some {
                let rest2 = dec_opt_nodes(bytes@, pn as int, (n - i - 1) as nat).unwrap().0;
                assert(prev_map.push(slot_view) + rest2 =~= prev_map + (seq![slot_view] + rest2));
            }
        }
        p = pn;
        i += 1;
    }
    proof {
        assert(nodes_view(nodes@) + Seq::<Option<Seq<u8>>>::empty() =~= nodes_view(nodes@));
    }
    Ok((nodes, p))
}

/// Reads `n` ratchet slots back from their canonical encoding at `pos`.
fn decode_opt_ratchets(bytes: &[u8], pos: usize, n: u32) -> (r: Result<
    (Vec<Option<SenderRatchet>>, usize),
    CodecError,
>)
    requires
        pos <= bytes@.len(),
    ensures
        match r {
            Ok((v, p2)) => dec_opt_ratchets(bytes@, pos as int, n as nat) == Some(
                (ratchets_view(v@), p2 as int),
            ) && p2 <= bytes@.len(),
            Err(e) => dec_opt_ratchets(bytes@, pos as int, n as nat) is None && e
                == CodecError::DecodingError,
        },
{
    let mut ratchets: Vec<Option<SenderRatchet>> = Vec::new();
    let mut p = pos;
    let mut i: u32 = 0;
    proof {
        if dec_opt_ratchets(bytes@, pos as int, n as nat) is Some {
            let all = dec_opt_ratchets(bytes@, pos as int, n as nat).unwrap().0;
            assert(ratchets_view(ratchets@) + all =~= all);
        }
    }
    while i < n
        invariant
            i <= n,
            p <= bytes@.len(),
            ratchets@.len() == i,
            dec_opt_ratchets(bytes@, pos as int, n as nat) == match dec_opt_ratchets(
                bytes@,
                p as int,
                (n - i) as nat,
            ) {
                Some((rest, pe)) => Some((ratchets_view(ratchets@) + rest, pe)),
                None => None,
            },
        decreases n - i,
    {
        let ghost prev_map = ratchets_view(ratchets@);
        let (d, p1) = match decode_u8(bytes, p) {
            Ok(v) => v,
            Err(e) => {
                return Err(e);
            },
        };
        let (slot, pn) = if d == 0 {
            (None, p1)
        } else if d == 1 {
            match SenderRatchet::decode(bytes, p1) {
                Ok((sender_ratchet, p2)) => (Some(sender_ratchet), p2),
                Err(e) => {
                    return Err(e);
                },
            }
        } else {
            proof {
                assert(dec_opt_ratchet(bytes@, p as int) is None);
            }
            return Err(CodecError::DecodingError);
        };
        let ghost slot_view = if slot is Some {
            Some(slot.unwrap()@)
        } else {
            None::<RatchetV>
        };
        ratchets.push(slot);
        proof {
            assert(dec_opt_ratchet(bytes@, p as int) == Some((slot_view, pn as int)));
            assert(ratchets_view(ratchets@) =~= prev_map.push(slot_view));
            if dec_opt_ratchets(bytes@, pn as int, (n - i - 1) as nat) is Some {
                let rest2 = dec_opt_ratchets(bytes@, pn as int, (n - i - 1) as nat).unwrap().0;
                assert(prev_map.push(slot_view) + rest2 =~= prev_map + (seq![slot_view] + rest2));
            }
        }
        p = pn;
        i += 1;
    }
    proof {
        assert(ratchets_view(ratchets@) + Seq::<Option<RatchetV>>::empty() =~= ratchets_view(
            ratchets@,
        ));
    }
    Ok((ratchets, p))
}

/// Decoding inverts encoding for one node slot embedded at `pos`.
pub proof fn lemma_dec_enc_opt_node(b: Seq<u8>, pos: int, o: Option<Seq<u8>>)
    requires
        0 <= pos,
        o is Some ==> o.unwrap().len() <= 255,
        pos + enc_opt_node(o).len() <= b.len(),
        b.subrange(pos, pos + enc_opt_node(o).len()) == enc_opt_node(o),
    ensures
        dec_opt_node(b, pos) == Some((o, pos + enc_opt_node(o).len())),
{
    match o {
        None => {
            assert(b.subrange(pos, pos + 1)[0] == b[pos]);
            assert(b[pos] == 0u8);
        },
        Some(s) => {
            lemma_split_concat(b, pos, seq![1u8], enc_secret(s));
            assert(b.subrange(pos, pos + 1)[0] == b[pos]);
            assert(b[pos] == 1u8);
            lemma_dec_secret(b, pos + 1, s);
        },
    }
}

/// Decoding inverts encoding for a node array embedded at `pos`.
pub proof fn lemma_dec_enc_opt_nodes(b: Seq<u8>, pos: int, ns: Seq<Option<Seq<u8>>>)
    requires
        0 <= pos,
        forall|i: int|
            0 <= i < ns.len() ==> ((#[trigger] ns[i]) is Some ==> ns[i].unwrap().len() <= 255),
        pos + enc_opt_nodes(ns).len() <= b.len(),
        b.subrange(pos, pos + enc_opt_nodes(ns).len()) == enc_opt_nodes(ns),
    ensures
        dec_opt_nodes(b, pos, ns.len()) == Some((ns, pos + enc_opt_nodes(ns).len())),
    decreases ns.len(),
{
    if ns.len() == 0 {
        assert(node_encs(ns).len() == 0);
        assert(Seq::<Option<Seq<u8>>>::empty() =~= ns);
    } else {
        let head = enc_opt_node(ns[0]);
        let rest = ns.drop_first();
        assert(node_encs(ns)[0] == head);
        assert(node_encs(ns).drop_first() =~= node_encs(rest));
        assert(enc_opt_nodes(ns) == head + enc_opt_nodes(rest));
        lemma_split_concat(b, pos, head, enc_opt_nodes(rest));
        lemma_dec_enc_opt_node(b, pos, ns[0]);
        lemma_dec_enc_opt_nodes(b, pos + head.len(), rest);
        assert(seq![ns[0]] + rest =~= ns);
    }
}

/// Decoding inverts encoding for one ratchet slot embedded at `pos`.
pub proof fn lemma_dec_enc_opt_ratchet(b: Seq<u8>, pos: int, o: Option<RatchetV>)
    requires
        0 <= pos,
        o is Some ==> {
            let r = o.unwrap();
            &&& r.past_secrets.len() <= u32::MAX
            &&& forall|i: int|
                0 <= i < r.past_secrets.len() ==> (#[trigger] r.past_secrets[i]).len() <= 255
        },
        pos + enc_opt_ratchet(o).len() <= b.len(),
        b.subrange(pos, pos + enc_opt_ratchet(o).len()) == enc_opt_ratchet(o),
    ensures
        dec_opt_ratchet(b, pos) == Some((o, pos + enc_opt_ratchet(o).len())),
{
    match o {
        None => {
            assert(b.subrange(pos, pos + 1)[0] == b[pos]);
            assert(b[pos] == 0u8);
        },
        Some(r) => {
            lemma_split_concat(b, pos, seq![1u8], enc_ratchet(r));
            assert(b.subrange(pos, pos + 1)[0] == b[pos]);
            assert(b[pos] == 1u8);
            lemma_dec_enc_ratchet(b, pos + 1, r);
        },
    }
}

/// Decoding inverts encoding for a ratchet array embedded at `pos`.
pub proof fn lemma_dec_enc_opt_ratchets(b: Seq<u8>, pos: int, rs: Seq<Option<RatchetV>>)
    requires
        0 <= pos,
        forall|i: int|
            0 <= i < rs.len() ==> ((#[trigger] rs[i]) is Some ==> {
                let r = rs[i].unwrap();
                &&& r.past_secrets.len() <= u32::MAX
                &&& forall|q: int|
                    0 <= q < r.past_secrets.len() ==> (#[trigger] r.past_secrets[q]).len() <= 255
            }),
        pos + enc_opt_ratchets(rs).len() <= b.len(),
        b.subrange(pos, pos + enc_opt_ratchets(rs).len()) == enc_opt_ratchets(rs),
    ensures
        dec_opt_ratchets(b, pos, rs.len()) == Some((rs, pos + enc_opt_ratchets(rs).len())),
    decreases rs.len(),
{
    if rs.len() == 0 {
        assert(ratchet_encs(rs).len() == 0);
        assert(Seq::<Option<RatchetV>>::empty() =~= rs);
    } else {
        let head = enc_opt_ratchet(rs[0]);
        let rest = rs.drop_first();
        assert(ratchet_encs(rs)[0] == head);
        assert(ratchet_encs(rs).drop_first() =~= ratchet_encs(rest));
        assert(enc_opt_ratchets(rs) == head + enc_opt_ratchets(rest));
        lemma_split_concat(b, pos, head, enc_opt_ratchets(rest));
        lemma_dec_enc_opt_ratchet(b, pos, rs[0]);
        lemma_dec_enc_opt_ratchets(b, pos + head.len(), rest);
        assert(seq![rs[0]] + rest =~= rs);
    }
}

/// Decoding inverts encoding for every well-formed tree, erased slots
/// included: the persisted state round-trips structurally.
#[verifier::rlimit(100)]
pub proof fn lemma_tree_roundtrip(t: TreeV)
    requires
        tree_wf(t),
    ensures
        dec_tree(enc_tree(t), 0) == Some((t, enc_tree(t).len() as int)),
{
    let b = enc_tree(t);
    let e1 = be16(cipher_code_spec(t.ciphersuite));
    let e2 = be32(t.nodes.len() as u32);
    let e3 = enc_opt_nodes(t.nodes);
    let e4 = be32(t.ratchets.len() as u32);
    let e5 = enc_opt_ratchets(t.ratchets);
    let e6 = be32(t.size as u32);
    assert(b =~= ((((e1 + e2) + e3) + e4) + e5) + e6);
    assert(b.subrange(0, b.len() as int) =~= b);
    lemma_split_concat(b, 0, (((e1 + e2) + e3) + e4) + e5, e6);
    lemma_split_concat(b, 0, ((e1 + e2) + e3) + e4, e5);
    lemma_split_concat(b, 0, (e1 + e2) + e3, e4);
    lemma_split_concat(b, 0, e1 + e2, e3);
    lemma_split_concat(b, 0, e1, e2);
    lemma_dec_be16(b, 0, cipher_code_spec(t.ciphersuite));
    lemma_dec_be32(b, 2, t.nodes.len() as u32);
    assert(forall|i: int|
        0 <= i < t.nodes.len() ==> ((#[trigger] t.nodes[i]) is Some ==> t.nodes[i].unwrap().len()
            <= 255));
    lemma_dec_enc_opt_nodes(b, 6int, t.nodes);
    lemma_dec_be32(b, 6 + e3.len() as int, t.ratchets.len() as u32);
    assert(forall|i: int|
        0 <= i < t.ratchets.len() ==> ((#[trigger] t.ratchets[i]) is Some ==> {
            let r = t.ratchets[i].unwrap();
            &&& r.past_secrets.len() <= u32::MAX
            &&& forall|q: int|
                0 <= q < r.past_secrets.len() ==> (#[trigger] r.past_secrets[q]).len() <= 255
        }));
    lemma_dec_enc_opt_ratchets(b, 10 + e3.len() as int, t.ratchets);
    lemma_dec_be32(b, 10 + e3.len() as int + e5.len() as int, t.size as u32);
    assert(t.ciphersuite == CipherSuite::MLS10_128_HPKEX25519_CHACHA20POLY1305_SHA256_Ed25519);
    assert(((t.nodes.len() as u32) as nat) == t.nodes.len());
    assert(((t.ratchets.len() as u32) as nat) == t.ratchets.len());
    assert(((t.size as u32) as nat) == t.size);
    assert(dec_tree(b, 0) == Some((t, b.len() as int)));
}

/// A prefix that still holds a live entry keeps the deepest live position
/// at least there.
pub proof fn lemma_deepest_live_at_least(
    nodes: Seq<Option<Seq<u8>>>,
    pth: Seq<(nat, nat)>,
    e: int,
)
    requires
        0 <= e < pth.len(),
        nodes[pth[e].0 as int] is Some,
    ensures
        deepest_live(nodes, pth) >= e,
    decreases pth.len(),
{
    if pth.len() > 0 && !(nodes[pth.last().0 as int] is Some) {
        assert(e < pth.len() - 1);
        assert(pth.drop_last()[e] == pth[e]);
        lemma_deepest_live_at_least(nodes, pth.drop_last(), e);
    }
}

} // verus!
