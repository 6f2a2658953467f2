//! Index arithmetic for the node array of a left-balanced binary tree built
//! on `size` leaves: the root index, and the path from the root down to a
//! leaf. Leaves sit at even indices; a node at level `k` owns the index range
//! `[p - (2^k - 1), p + 2^k - 1]`, clipped to the array width.

use vstd::prelude::*;
use vstd::arithmetic::power2::{
    lemma2_to64, lemma_pow2_adds, lemma_pow2_pos, lemma_pow2_strictly_increases, pow2,
};

verus! {

/// Number of entries in the node array of a tree on `size` leaves.
pub open spec fn node_width(size: nat) -> nat {
    (2 * size - 1) as nat
}

/// Floor of the base-two logarithm.
pub open spec fn log2_floor(w: nat) -> nat
    decreases w,
{
    if w <= 1 {
        0
    } else {
        1 + log2_floor(w / 2)
    }
}

/// Level of the root of a tree on `size` leaves.
pub open spec fn root_level(size: nat) -> nat {
    log2_floor(node_width(size))
}

/// Index of the root of a tree on `size` leaves.
pub open spec fn root_spec(size: nat) -> nat {
    (pow2(root_level(size)) - 1) as nat
}

/// Doubling step of `pow2`.
pub proof fn lemma_pow2_double(e: nat)
    ensures
        pow2(e + 1) == 2 * pow2(e),
{
    lemma_pow2_adds(e, 1);
    lemma2_to64();
}

/// `pow2` is monotone.
pub proof fn lemma_pow2_le(e1: nat, e2: nat)
    requires
        e1 <= e2,
    ensures
        pow2(e1) <= pow2(e2),
{
    if e1 < e2 {
        lemma_pow2_strictly_increases(e1, e2);
    }
}

/// The floor logarithm brackets its argument between two powers of two.
pub proof fn lemma_log2_floor_bounds(w: nat)
    requires
        w >= 1,
    ensures
        pow2(log2_floor(w)) <= w < pow2(log2_floor(w) + 1),
    decreases w,
{
    if w <= 1 {
        lemma2_to64();
    } else {
        lemma_log2_floor_bounds(w / 2);
        lemma_pow2_double(log2_floor(w / 2));
        lemma_pow2_double(log2_floor(w / 2) + 1);
    }
}

/// Only one exponent brackets `w`, so it is the floor logarithm.
pub proof fn lemma_log2_floor_unique(w: nat, k: nat)
    requires
        pow2(k) <= w < pow2(k + 1),
    ensures
        k == log2_floor(w),
{
    lemma_pow2_pos(k);
    lemma_log2_floor_bounds(w);
    if k < log2_floor(w) {
        lemma_pow2_le(k + 1, log2_floor(w));
        assert(false);
    }
    if k > log2_floor(w) {
        lemma_pow2_le(log2_floor(w) + 1, k);
        assert(false);
    }
}

/// From a node that may lie outside the array, walk toward the left child
/// until the index is inside. Returns the index and its level.
pub open spec fn descend(r: nat, j: nat, width: nat) -> (nat, nat)
    decreases j,
{
    if r < width || j == 0 {
        (r, j)
    } else {
        descend((r - pow2((j - 1) as nat)) as nat, (j - 1) as nat, width)
    }
}

/// The level of a descended node never grows.
pub proof fn lemma_descend_level_le(r: nat, j: nat, width: nat)
    ensures
        descend(r, j, width).1 <= j,
    decreases j,
{
    if !(r < width || j == 0) {
        lemma_descend_level_le((r - pow2((j - 1) as nat)) as nat, (j - 1) as nat, width);
    }
}

/// Whether `(p, k)` is a node position whose clipped subtree contains the
/// in-range target `t`.
pub open spec fn pos_ok(p: nat, k: nat, t: nat, width: nat) -> bool {
    &&& p < width
    &&& t < width
    &&& p + 1 >= pow2(k)
    &&& p <= t + pow2(k) - 1
    &&& t <= p + pow2(k) - 1
}

/// Descending from the complete-tree right child of a node lands on an
/// in-range node that still contains the target, without climbing past the
/// starting index.
pub proof fn lemma_descend_props(r: nat, j: nat, t: nat, width: nat)
    requires
        t < width,
        r + 1 >= pow2(j),
        r <= t + pow2(j) - 1,
        t <= r + pow2(j) - 1,
    ensures
        pos_ok(descend(r, j, width).0, descend(r, j, width).1, t, width),
        descend(r, j, width).1 <= j,
        descend(r, j, width).0 <= r,
        r - descend(r, j, width).0 <= pow2(j) - pow2(descend(r, j, width).1),
    decreases j,
{
    lemma_pow2_pos(j);
    if r < width {
        // already in range: the pair is (r, j) itself
    } else if j == 0 {
        // impossible: the range [r, r] holds t, yet t < width <= r
        assert(t <= r + pow2(0) - 1);
        lemma2_to64();
        assert(false);
    } else {
        lemma_pow2_double((j - 1) as nat);
        lemma_pow2_pos((j - 1) as nat);
        let r2 = (r - pow2((j - 1) as nat)) as nat;
        lemma_descend_props(r2, (j - 1) as nat, t, width);
    }
}

/// The child of `(p, k)` on the way to target `t`.
pub open spec fn child_toward(p: nat, k: nat, t: nat, width: nat) -> (nat, nat) {
    if t < p {
        ((p - pow2((k - 1) as nat)) as nat, (k - 1) as nat)
    } else {
        descend((p + pow2((k - 1) as nat)) as nat, (k - 1) as nat, width)
    }
}

/// The step toward the target goes to a node one level or more down whose
/// clipped subtree still contains the target and lies strictly on the
/// target's side of `p`, inside the range of `p`.
pub proof fn lemma_child_props(p: nat, k: nat, t: nat, width: nat)
    requires
        pos_ok(p, k, t, width),
        k >= 1,
        p != t,
    ensures
        ({
            let (c, kc) = child_toward(p, k, t, width);
            &&& pos_ok(c, kc, t, width)
            &&& kc < k
            &&& c + 1 >= pow2(kc)
            // the child's range sits inside the parent's, parent excluded
            &&& p < c + pow2(k)
            &&& c + pow2(kc) <= p + pow2(k)
            &&& (t < p ==> c + pow2(kc) - 1 < p)
            &&& (t > p ==> p + pow2(kc) <= c)
        }),
{
    lemma_pow2_double((k - 1) as nat);
    lemma_pow2_pos((k - 1) as nat);
    lemma_pow2_pos(k);
    if t < p {
        let c = (p - pow2((k - 1) as nat)) as nat;
        assert(pos_ok(c, (k - 1) as nat, t, width));
    } else {
        let r0 = (p + pow2((k - 1) as nat)) as nat;
        lemma_descend_props(r0, (k - 1) as nat, t, width);
    }
}

/// The node positions from `(p, k)` down to target `t`, both included.
pub open spec fn path_spec(p: nat, k: nat, t: nat, width: nat) -> Seq<(nat, nat)>
    decreases k,
{
    if p == t || k == 0 {
        seq![(p, k)]
    } else {
        proof {
            lemma_descend_level_le((p + pow2((k - 1) as nat)) as nat, (k - 1) as nat, width);
        }
        seq![(p, k)] + path_spec(
            child_toward(p, k, t, width).0,
            child_toward(p, k, t, width).1,
            t,
            width,
        )
    }
}

/// Structure of the path: it starts at `(p, k)`, ends at the target, every
/// position on it contains the target, and consecutive positions are parent
/// and child.
pub proof fn lemma_path_props(p: nat, k: nat, t: nat, width: nat)
    requires
        pos_ok(p, k, t, width),
    ensures
        ({
            let pth = path_spec(p, k, t, width);
            &&& pth.len() >= 1
            &&& pth[0] == (p, k)
            &&& pth.last().0 == t
            &&& forall|b: int|
                0 <= b < pth.len() ==> pos_ok((#[trigger] pth[b]).0, pth[b].1, t, width)
            &&& forall|b: int|
                0 <= b < pth.len() - 1 ==> (#[trigger] pth[b]).0 != t && pth[b].1 >= 1 && pth[b
                    + 1] == child_toward(pth[b].0, pth[b].1, t, width)
        }),
    decreases k,
{
    lemma_pow2_pos(k);
    if p == t || k == 0 {
        if k == 0 {
            lemma2_to64();
            assert(p == t);
        }
    } else {
        lemma_child_props(p, k, t, width);
        let (c, kc) = child_toward(p, k, t, width);
        lemma_path_props(c, kc, t, width);
        let pth = path_spec(p, k, t, width);
        let rest = path_spec(c, kc, t, width);
        assert(pth == seq![(p, k)] + rest);
        assert(pth.last() == rest.last());
        assert forall|b: int|
            0 <= b < pth.len() - 1 implies (#[trigger] pth[b]).0 != t && pth[b].1 >= 1 && pth[b + 1]
            == child_toward(pth[b].0, pth[b].1, t, width) by {
            if b == 0 {
                assert(pth[0] == (p, k));
                assert(pth[1] == rest[0]);
            } else {
                assert(pth[b] == rest[b - 1]);
                assert(pth[b + 1] == rest[b]);
            }
        }
    }
}

/// `p` is an index of level exactly `k`: its binary form ends in `k` ones
/// and then a zero.
pub open spec fn level_fits(p: nat, k: nat) -> bool {
    p % pow2(k + 1) == pow2(k) - 1
}

/// A level-`k` index is at least `pow2(k) - 1`, and odd when `k >= 1`.
pub proof fn lemma_level_fits_bounds(p: nat, k: nat)
    requires
        level_fits(p, k),
    ensures
        p + 1 >= pow2(k),
        k >= 1 ==> p % 2 == 1,
{
    lemma_pow2_pos(k);
    lemma_pow2_double(k);
    vstd::arithmetic::div_mod::lemma_fundamental_div_mod(p as int, pow2(k + 1) as int);
    let d = p as int / pow2(k + 1) as int;
    assert(d >= 0) by {
        if d < 0 {
            assert(pow2(k + 1) as int * d <= pow2(k + 1) as int * -1) by (nonlinear_arith)
                requires
                    d <= -1,
                    pow2(k + 1) > 0,
            ;
        }
    }
    assert(pow2(k + 1) as int * d >= 0) by (nonlinear_arith)
        requires
            d >= 0,
            pow2(k + 1) > 0,
    ;
    if k >= 1 {
        lemma_pow2_double((k - 1) as nat);
        assert(pow2(k + 1) as int * d == 2 * (pow2(k) as int * d)) by (nonlinear_arith)
            requires
                pow2(k + 1) == 2 * pow2(k),
        ;
        // p == pow2(k+1) * d + pow2(k) - 1; every summand but the -1 is even
        assert(p as int == 2 * (pow2(k) as int * d + pow2((k - 1) as nat) as int) - 1);
        vstd::arithmetic::div_mod::lemma_fundamental_div_mod_converse_mod(
            p as int,
            2,
            (pow2(k) as int * d + pow2((k - 1) as nat) as int - 1),
            1,
        );
    }
}

/// The left child of a level-`k` node has level exactly `k - 1`.
pub proof fn lemma_level_fits_left(p: nat, k: nat)
    requires
        level_fits(p, k),
        k >= 1,
    ensures
        level_fits((p - pow2((k - 1) as nat)) as nat, (k - 1) as nat),
{
    lemma_pow2_pos((k - 1) as nat);
    lemma_pow2_double((k - 1) as nat);
    lemma_pow2_double(k);
    lemma_level_fits_bounds(p, k);
    vstd::arithmetic::div_mod::lemma_fundamental_div_mod(p as int, pow2(k + 1) as int);
    let d = p as int / pow2(k + 1) as int;
    assert(d >= 0) by {
        if d < 0 {
            assert(pow2(k + 1) as int * d <= pow2(k + 1) as int * -1) by (nonlinear_arith)
                requires
                    d <= -1,
                    pow2(k + 1) > 0,
            ;
        }
    }
    let l = p - pow2((k - 1) as nat);
    assert(l == pow2(k) as int * (2 * d) + pow2((k - 1) as nat) - 1) by {
        assert(pow2(k + 1) as int * d == pow2(k) as int * (2 * d)) by (nonlinear_arith)
            requires
                pow2(k + 1) == 2 * pow2(k),
        ;
    }
    vstd::arithmetic::div_mod::lemma_fundamental_div_mod_converse_mod(
        l as int,
        pow2(k) as int,
        2 * d,
        pow2((k - 1) as nat) as int - 1,
    );
}

/// The complete-tree right child of a level-`k` node has level exactly
/// `k - 1`.
pub proof fn lemma_level_fits_right(p: nat, k: nat)
    requires
        level_fits(p, k),
        k >= 1,
    ensures
        level_fits((p + pow2((k - 1) as nat)) as nat, (k - 1) as nat),
{
    lemma_pow2_pos((k - 1) as nat);
    lemma_pow2_double((k - 1) as nat);
    lemma_pow2_double(k);
    lemma_level_fits_bounds(p, k);
    vstd::arithmetic::div_mod::lemma_fundamental_div_mod(p as int, pow2(k + 1) as int);
    let d = p as int / pow2(k + 1) as int;
    assert(d >= 0) by {
        if d < 0 {
            assert(pow2(k + 1) as int * d <= pow2(k + 1) as int * -1) by (nonlinear_arith)
                requires
                    d <= -1,
                    pow2(k + 1) > 0,
            ;
        }
    }
    let r = p + pow2((k - 1) as nat);
    assert(r == pow2(k) as int * (2 * d + 1) + pow2((k - 1) as nat) - 1) by {
        assert(pow2(k + 1) as int * d == pow2(k) as int * (2 * d)) by (nonlinear_arith)
            requires
                pow2(k + 1) == 2 * pow2(k),
        ;
        assert(pow2(k) as int * (2 * d + 1) == pow2(k) as int * (2 * d) + pow2(k))
            by (nonlinear_arith);
    }
    vstd::arithmetic::div_mod::lemma_fundamental_div_mod_converse_mod(
        r as int,
        pow2(k) as int,
        2 * d + 1,
        pow2((k - 1) as nat) as int - 1,
    );
}

/// A descent that starts with its leftmost descendant inside the array lands
/// inside the array, on a node of its exact level.
pub proof fn lemma_descend_fits(r: nat, j: nat, width: nat)
    requires
        level_fits(r, j),
        r < width + pow2(j) - 1,
    ensures
        descend(r, j, width).0 < width,
        level_fits(descend(r, j, width).0, descend(r, j, width).1),
        descend(r, j, width).0 + pow2(descend(r, j, width).1) <= r + pow2(j),
        r <= descend(r, j, width).0 + pow2(j) - pow2(descend(r, j, width).1),
    decreases j,
{
    lemma_pow2_pos(j);
    if r < width {
    } else if j == 0 {
        lemma2_to64();
        assert(false);
    } else {
        lemma_pow2_double((j - 1) as nat);
        lemma_level_fits_bounds(r, j);
        lemma_level_fits_left(r, j);
        lemma_descend_fits((r - pow2((j - 1) as nat)) as nat, (j - 1) as nat, width);
    }
}

/// Every position on a path from a level-correct start has its exact level.
pub proof fn lemma_path_fits(p: nat, k: nat, t: nat, width: nat)
    requires
        pos_ok(p, k, t, width),
        level_fits(p, k),
        width % 2 == 1,
    ensures
        forall|b: int|
            0 <= b < path_spec(p, k, t, width).len() ==> level_fits(
                (#[trigger] path_spec(p, k, t, width)[b]).0,
                path_spec(p, k, t, width)[b].1,
            ),
    decreases k,
{
    lemma_pow2_pos(k);
    if p == t || k == 0 {
    } else {
        lemma_pow2_double((k - 1) as nat);
        lemma_level_fits_bounds(p, k);
        lemma_child_props(p, k, t, width);
        let (c, kc) = child_toward(p, k, t, width);
        if t < p {
            lemma_level_fits_left(p, k);
        } else {
            lemma_level_fits_right(p, k);
            // p is odd and width odd, so p + 1 < width and the descent premise
            // holds
            assert(p + 1 < width);
            lemma_descend_fits((p + pow2((k - 1) as nat)) as nat, (k - 1) as nat, width);
        }
        lemma_path_fits(c, kc, t, width);
        let pth = path_spec(p, k, t, width);
        let rest = path_spec(c, kc, t, width);
        assert(pth == seq![(p, k)] + rest);
        assert forall|b: int|
            0 <= b < pth.len() implies level_fits((#[trigger] pth[b]).0, pth[b].1) by {
            if b > 0 {
                assert(pth[b] == rest[b - 1]);
            }
        }
    }
}

/// All structural facts about a root-to-leaf path that the tree relies on:
/// every position contains the target and has its exact level, consecutive
/// positions are parent and child, and the path ends at the target, a leaf.
pub open spec fn path_ok(pth: Seq<(nat, nat)>, t: nat, width: nat) -> bool {
    &&& pth.len() >= 1
    &&& pth.last().0 == t
    &&& pth.last().1 == 0
    &&& forall|b: int| 0 <= b < pth.len() ==> pos_ok((#[trigger] pth[b]).0, pth[b].1, t, width)
    &&& forall|b: int| 0 <= b < pth.len() ==> level_fits((#[trigger] pth[b]).0, pth[b].1)
    &&& forall|b: int| 0 <= b < pth.len() - 1 ==> #[trigger] path_link(pth, t, width, b)
}

/// One parent-to-child step along a path: position `b` is above the target
/// and position `b + 1` is its child toward the target.
pub open spec fn path_link(pth: Seq<(nat, nat)>, t: nat, width: nat, b: int) -> bool {
    &&& pth[b].0 != t
    &&& pth[b].1 >= 1
    &&& pth[b + 1] == child_toward(pth[b].0, pth[b].1, t, width)
}

/// The root-to-leaf path of an even (leaf) target satisfies all the
/// structural path facts.
pub proof fn lemma_path_ok(size: nat, t: nat)
    requires
        1 <= size <= 0x4000_0000,
        t < node_width(size),
        t % 2 == 0,
    ensures
        ({
            let pth = path_spec(root_spec(size), root_level(size), t, node_width(size));
            &&& path_ok(pth, t, node_width(size))
            &&& pth[0] == (root_spec(size), root_level(size))
            &&& pth.len() >= 1
            &&& forall|b: int| 0 <= b < pth.len() ==> (#[trigger] pth[b]).1 <= 31
        }),
{
    let width = node_width(size);
    let pth = path_spec(root_spec(size), root_level(size), t, width);
    lemma_root_ok(size, t);
    lemma_path_props(root_spec(size), root_level(size), t, width);
    lemma_path_fits(root_spec(size), root_level(size), t, width);
    if pth.last().1 >= 1 {
        lemma_level_fits_bounds(pth.last().0, pth.last().1);
        assert(false);
    }
    assert forall|b: int| 0 <= b < pth.len() implies (#[trigger] pth[b]).1 <= 31 by {
        if pth[b].1 > 31 {
            lemma_pow2_le(32, pth[b].1);
            lemma2_to64();
            assert(pow2(pth[b].1) <= pth[b].0 + 1);
            assert(false);
        }
    }
}

/// The root position of a tree on `size` leaves is valid, has its exact
/// level, and contains every in-range target; the width is odd.
pub proof fn lemma_root_ok(size: nat, t: nat)
    requires
        1 <= size,
        t < node_width(size),
    ensures
        pos_ok(root_spec(size), root_level(size), t, node_width(size)),
        level_fits(root_spec(size), root_level(size)),
        root_spec(size) < node_width(size),
        node_width(size) % 2 == 1,
        pow2(root_level(size)) <= node_width(size) < pow2(root_level(size) + 1),
{
    let width = node_width(size);
    let kk = root_level(size);
    lemma_log2_floor_bounds(width);
    lemma_pow2_double(kk);
    lemma_pow2_pos(kk);
    vstd::arithmetic::div_mod::lemma_small_mod((pow2(kk) - 1) as nat, pow2(kk + 1));
}

/// Positions deeper on a path own sub-ranges of the ranges of positions
/// above them, strictly on the target's side.
pub proof fn lemma_range_chain(pth: Seq<(nat, nat)>, t: nat, width: nat, b1: int, b2: int)
    requires
        path_ok(pth, t, width),
        0 <= b1 <= b2 < pth.len(),
    ensures
        pth[b2].0 + pow2(pth[b2].1) <= pth[b1].0 + pow2(pth[b1].1),
        pth[b2].0 + pow2(pth[b1].1) + 1 > pth[b1].0 + pow2(pth[b2].1),
        b1 < b2 && t < pth[b1].0 ==> pth[b2].0 + pow2(pth[b2].1) - 1 < pth[b1].0,
        b1 < b2 && t > pth[b1].0 ==> pth[b2].0 + 1 > pth[b1].0 + pow2(pth[b2].1),
    decreases b2 - b1,
{
    let (p, k) = pth[b1];
    lemma_pow2_pos(k);
    lemma_pow2_pos(pth[b2].1);
    if b1 < b2 {
        assert(path_link(pth, t, width, b1));
        lemma_child_props(p, k, t, width);
        lemma_pow2_double((k - 1) as nat);
        let (c, kc) = child_toward(p, k, t, width);
        assert(pth[b1 + 1] == (c, kc));
        lemma_range_chain(pth, t, width, b1 + 1, b2);
        if t < p {
            assert(c == (p - pow2((k - 1) as nat)) as nat && kc == (k - 1) as nat);
        } else {
            assert(p + pow2(kc) <= c);
        }
    }
}

/// The view of an executable path as spec-level pairs.
pub open spec fn pairs_as_nat(s: Seq<(u32, u32)>) -> Seq<(nat, nat)> {
    Seq::new(s.len(), |i: int| (s[i].0 as nat, s[i].1 as nat))
}

/// Computes `pow2(e)`.
pub fn pow2_exec(e: u32) -> (r: u64)
    requires
        e <= 32,
    ensures
        r == pow2(e as nat),
{
    let mut i: u32 = 0;
    let mut p: u64 = 1;
    proof {
        lemma2_to64();
    }
    while i < e
        invariant
            i <= e <= 32,
            p == pow2(i as nat),
        decreases e - i,
    {
        proof {
            lemma_pow2_le(i as nat, 31);
            lemma2_to64();
            lemma_pow2_double(i as nat);
        }
        p = 2 * p;
        i = i + 1;
    }
    p
}

/// Computes the root index and root level of a tree on `size` leaves.
pub fn root_parts(size: u32) -> (r: (u32, u32))
    requires
        1 <= size <= 0x4000_0000u32,
    ensures
        r.0 as nat == root_spec(size as nat),
        r.1 as nat == root_level(size as nat),
        r.1 <= 31,
{
    let width: u64 = 2 * (size as u64) - 1;
    let mut k: u32 = 0;
    let mut p: u64 = 1;
    proof {
        lemma2_to64();
    }
    while 2 * p <= width
        invariant
            p == pow2(k as nat),
            p <= width,
            width == 2 * (size as nat) - 1,
            size <= 0x4000_0000u32,
            k <= 31,
        decreases width - p,
    {
        proof {
            lemma_pow2_pos(k as nat);
            lemma_pow2_double(k as nat);
            if k + 1 >= 32 {
                lemma_pow2_le(32, (k + 1) as nat);
                lemma2_to64();
                assert(false);
            }
        }
        p = 2 * p;
        k = k + 1;
    }
    proof {
        lemma_pow2_double(k as nat);
        lemma_log2_floor_unique(width as nat, k as nat);
        lemma_pow2_le(k as nat, 31);
        lemma2_to64();
    }
    ((p - 1) as u32, k)
}

/// Builds the path of `(index, level)` positions from the root down to
/// `leaf`, both included.
pub fn build_path(size: u32, leaf: u32) -> (r: Vec<(u32, u32)>)
    requires
        1 <= size <= 0x4000_0000u32,
        (leaf as nat) < node_width(size as nat),
    ensures
        pairs_as_nat(r@) == path_spec(
            root_spec(size as nat),
            root_level(size as nat),
            leaf as nat,
            node_width(size as nat),
        ),
{
    let (rt, kk) = root_parts(size);
    let width: u64 = 2 * (size as u64) - 1;
    proof {
        lemma_root_ok(size as nat, leaf as nat);
    }
    let ghost full = path_spec(
        root_spec(size as nat),
        root_level(size as nat),
        leaf as nat,
        node_width(size as nat),
    );
    let mut path: Vec<(u32, u32)> = Vec::new();
    let mut p: u64 = rt as u64;
    let mut k: u32 = kk;
    path.push((rt, kk));
    while p != leaf as u64
        invariant
            pos_ok(p as nat, k as nat, leaf as nat, width as nat),
            level_fits(p as nat, k as nat),
            width == node_width(size as nat),
            width % 2 == 1,
            width <= 0x8000_0000u64,
            k <= 31,
            path@.len() >= 1,
            path@.last() == (p as u32, k),
            p < width,
            full == pairs_as_nat(path@.drop_last()) + path_spec(
                p as nat,
                k as nat,
                leaf as nat,
                width as nat,
            ),
        decreases k,
    {
        proof {
            lemma2_to64();
            if k == 0 {
                assert(p == leaf);
                assert(false);
            }
            lemma_pow2_double((k - 1) as nat);
            lemma_pow2_pos((k - 1) as nat);
            lemma_level_fits_bounds(p as nat, k as nat);
            lemma_child_props(p as nat, k as nat, leaf as nat, width as nat);
        }
        let ghost prev_pairs = pairs_as_nat(path@);
        let ghost p0 = p as nat;
        let ghost k0 = k as nat;
        let half = pow2_exec(k - 1);
        if (leaf as u64) < p {
            proof {
                lemma_level_fits_left(p as nat, k as nat);
            }
            p = p - half;
            k = k - 1;
        } else {
            proof {
                lemma_level_fits_right(p as nat, k as nat);
                lemma_descend_fits((p + half) as nat, (k - 1) as nat, width as nat);
            }
            let rp = descend_exec(p + half, k - 1, width, Ghost(leaf as nat));
            p = rp.0;
            k = rp.1;
        }
        path.push((p as u32, k));
        proof {
            assert((p as nat, k as nat) == child_toward(p0, k0, leaf as nat, width as nat));
            assert(path_spec(p0, k0, leaf as nat, width as nat) == seq![(p0, k0)] + path_spec(
                p as nat,
                k as nat,
                leaf as nat,
                width as nat,
            ));
            assert(pairs_as_nat(path@.drop_last()) =~= prev_pairs);
            assert(prev_pairs =~= prev_pairs.drop_last() + seq![(p0, k0)]);
            assert(full =~= pairs_as_nat(path@.drop_last()) + path_spec(
                p as nat,
                k as nat,
                leaf as nat,
                width as nat,
            ));
        }
    }
    proof {
        assert(path_spec(p as nat, k as nat, leaf as nat, width as nat) == seq![(p as nat, k as nat)
        ]);
        assert(full =~= pairs_as_nat(path@));
    }
    path
}

/// Walks from a complete-tree right child left and down until the index is
/// inside the array. The ghost target witnesses that the walk stays above
/// level zero until it lands.
pub fn descend_exec(r0: u64, j0: u32, width: u64, Ghost(t): Ghost<nat>) -> (res: (u64, u32))
    requires
        j0 <= 32,
        width >= 1,
        t < width,
        r0 + 1 >= pow2(j0 as nat),
        r0 <= t + pow2(j0 as nat) - 1,
        t <= r0 + pow2(j0 as nat) - 1,
    ensures
        (res.0 as nat, res.1 as nat) == descend(r0 as nat, j0 as nat, width as nat),
        res.0 < width,
        res.1 <= j0,
{
    let mut r: u64 = r0;
    let mut j: u32 = j0;
    while r >= width
        invariant
            j <= j0 <= 32,
            width >= 1,
            t < width,
            r + 1 >= pow2(j as nat),
            r <= t + pow2(j as nat) - 1,
            t <= r + pow2(j as nat) - 1,
            descend(r as nat, j as nat, width as nat) == descend(
                r0 as nat,
                j0 as nat,
                width as nat,
            ),
        decreases j,
    {
        proof {
            lemma2_to64();
            if j == 0 {
                assert(t == r);
                assert(false);
            }
            lemma_pow2_double((j - 1) as nat);
            lemma_pow2_pos((j - 1) as nat);
        }
        let half = pow2_exec(j - 1);
        r = r - half;
        j = j - 1;
    }
    proof {
        lemma_descend_level_le(r as nat, j as nat, width as nat);
    }
    (r, j)
}

} // verus!
