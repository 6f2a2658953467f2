//! Laws of the application secret tree, stated over the spec-level transition
//! functions that the executable methods are proved to implement.

use vstd::prelude::*;
use crate::aead::SecretsV;
use crate::astree::{tree_get_spec, tree_new_spec, TreeV};
use crate::kdf::CipherSuite;
use crate::ratchet::{
    advance_window, chain_step, key_nonce_spec, ratchet_get_spec, ratchet_new_spec, window_shape,
    window_size, window_step, RatchetV,
};
use crate::{ASError, MAXIMUM_FORWARD_DISTANCE, OUT_OF_ORDER_TOLERANCE};

verus! {

/// The results and final state of a whole sequence of `get_secret` calls,
/// each entry a `(sender, generation)` pair.
pub open spec fn tree_run(t: TreeV, calls: Seq<(u32, u32)>) -> (Seq<Result<SecretsV, ASError>>,
    TreeV)
    decreases calls.len(),
{
    if calls.len() == 0 {
        (Seq::empty(), t)
    } else {
        let first = tree_get_spec(t, calls[0].0, calls[0].1);
        let rest = tree_run(first.1, calls.drop_first());
        (seq![first.0] + rest.0, rest.1)
    }
}

/// Determinism: two trees built from the same ciphersuite, application
/// secret and size return bitwise-identical results for any sequence of
/// calls. The tree's behaviour is a function of its state alone.
pub proof fn lemma_determinism(t1: TreeV, t2: TreeV, calls: Seq<(u32, u32)>)
    requires
        t1 == t2,
    ensures
        tree_run(t1, calls) == tree_run(t2, calls),
{
}

/// Boundary: on a fresh tree every request for a sender inside the roster
/// and a generation within the forward window succeeds.
pub proof fn lemma_fresh_tree_boundary(
    ciphersuite: CipherSuite,
    secret: Seq<u8>,
    size: u32,
    sender: u32,
    generation: u32,
)
    requires
        1 <= size,
        sender < size,
        generation <= MAXIMUM_FORWARD_DISTANCE,
    ensures
        tree_get_spec(tree_new_spec(ciphersuite, secret, size), sender, generation).0 is Ok,
{
    let t = tree_new_spec(ciphersuite, secret, size);
    assert(t.ratchets[sender as int] is None);
}

/// Future bound: on a fresh tree a request beyond the forward window is
/// rejected as too distant in the future.
pub proof fn lemma_fresh_tree_future_bound(
    ciphersuite: CipherSuite,
    secret: Seq<u8>,
    size: u32,
    sender: u32,
    generation: u32,
)
    requires
        1 <= size,
        sender < size,
        generation > MAXIMUM_FORWARD_DISTANCE,
    ensures
        tree_get_spec(tree_new_spec(ciphersuite, secret, size), sender, generation).0 == Err::<
            SecretsV,
            ASError,
        >(ASError::TooDistantInTheFuture),
{
    let t = tree_new_spec(ciphersuite, secret, size);
    assert(t.ratchets[sender as int] is None);
}

/// Out of bounds: a sender index at or past the roster size is rejected and
/// the tree is unchanged.
pub proof fn lemma_out_of_bounds(t: TreeV, sender: u32, generation: u32)
    requires
        sender >= t.size,
    ensures
        tree_get_spec(t, sender, generation).0 == Err::<SecretsV, ASError>(
            ASError::IndexOutOfBounds,
        ),
        tree_get_spec(t, sender, generation).1 == t,
{
}

/// Idempotent lookup: a request at or below the ratchet's current generation
/// neither changes the ratchet nor the answer a repeated request gets. The
/// tree delegates such a request to the sender's ratchet unchanged, so the
/// tree state is unchanged too.
pub proof fn lemma_idempotent_lookup(r: RatchetV, generation: u32)
    requires
        generation <= r.generation,
    ensures
        ratchet_get_spec(r, generation).1 == r,
        ratchet_get_spec(ratchet_get_spec(r, generation).1, generation) == ratchet_get_spec(
            r,
            generation,
        ),
{
}

/// Monotonic generation: no request ever decreases a ratchet's generation,
/// so `get_generation` is non-decreasing across any sequence of calls: the
/// tree only ever replaces a sender's ratchet by the ratchet this transition
/// returns, and a sender without a ratchet observes generation zero.
pub proof fn lemma_generation_monotonic(r: RatchetV, generation: u32)
    ensures
        ratchet_get_spec(r, generation).1.generation >= r.generation,
{
}

/// The `n`-fold chain step from `secret`, every step bound to `gen_at_step`.
pub open spec fn chain_pow(
    ciphersuite: CipherSuite,
    secret: Seq<u8>,
    index: u32,
    gen_at_step: u32,
    n: nat,
) -> Seq<u8>
    decreases n,
{
    if n == 0 {
        secret
    } else {
        chain_pow(
            ciphersuite,
            chain_step(ciphersuite, secret, index, gen_at_step),
            index,
            gen_at_step,
            (n - 1) as nat,
        )
    }
}

/// Length of an advanced window: one entry per step, capped at the
/// out-of-order tolerance.
pub proof fn lemma_advance_window_len(
    ciphersuite: CipherSuite,
    w: Seq<Seq<u8>>,
    index: u32,
    gen_at_step: u32,
    d: nat,
)
    requires
        1 <= w.len() <= OUT_OF_ORDER_TOLERANCE,
    ensures
        advance_window(ciphersuite, w, index, gen_at_step, d).len() == if w.len() + d
            >= OUT_OF_ORDER_TOLERANCE {
            OUT_OF_ORDER_TOLERANCE as int
        } else {
            (w.len() + d) as int
        },
    decreases d,
{
    if d > 0 {
        lemma_advance_window_len(
            ciphersuite,
            window_step(ciphersuite, w, index, gen_at_step),
            index,
            gen_at_step,
            (d - 1) as nat,
        );
    }
}

/// Contents of an advanced window, counted from its newest entry: the first
/// `d + 1` positions hold the chain powers of the old last entry, and the
/// rest are old entries, shifted.
pub proof fn lemma_advance_window_content(
    ciphersuite: CipherSuite,
    w: Seq<Seq<u8>>,
    index: u32,
    gen_at_step: u32,
    d: nat,
    x: nat,
)
    requires
        1 <= w.len() <= OUT_OF_ORDER_TOLERANCE,
        x < w.len() + d,
        x < OUT_OF_ORDER_TOLERANCE,
    ensures
        ({
            let w2 = advance_window(ciphersuite, w, index, gen_at_step, d);
            w2[w2.len() - 1 - x] == if x <= d {
                chain_pow(ciphersuite, w.last(), index, gen_at_step, (d - x) as nat)
            } else {
                w[w.len() - 1 - (x - d)]
            }
        }),
    decreases d,
{
    let w2 = advance_window(ciphersuite, w, index, gen_at_step, d);
    lemma_advance_window_len(ciphersuite, w, index, gen_at_step, d);
    if d == 0 {
    } else {
        let wnext = window_step(ciphersuite, w, index, gen_at_step);
        lemma_advance_window_content(
            ciphersuite,
            wnext,
            index,
            gen_at_step,
            (d - 1) as nat,
            x,
        );
        assert(wnext.last() == chain_step(ciphersuite, w.last(), index, gen_at_step));
        if x > (d - 1) as nat {
            // the entry predates this advance: step back one window
            let y = x - d + 1;
            assert(wnext[wnext.len() - 1 - y] == w[w.len() - 1 - (y - 1)]);
        }
    }
}

/// Past bound and window: after a successful advance to generation `g >= 5`,
/// the request for `g - 4` still succeeds and returns exactly what it would
/// have returned had it been issued first, while `g - 5` is rejected as too
/// distant in the past.
pub proof fn lemma_past_window(r: RatchetV, g: u32)
    requires
        window_shape(r),
        g >= OUT_OF_ORDER_TOLERANCE,
        r.generation <= g - 4,
        g <= r.generation + MAXIMUM_FORWARD_DISTANCE,
    ensures
        ({
            let after = ratchet_get_spec(r, g).1;
            &&& ratchet_get_spec(r, g).0 is Ok
            &&& ratchet_get_spec(after, (g - 4) as u32).0 is Ok
            &&& ratchet_get_spec(after, (g - 4) as u32).0 == ratchet_get_spec(r, (g - 4) as u32).0
            &&& ratchet_get_spec(after, (g - 4) as u32).1 == after
            &&& ratchet_get_spec(after, (g - 5) as u32).0 == Err::<SecretsV, ASError>(
                ASError::TooDistantInThePast,
            )
        }),
{
    let d = (g - r.generation) as nat;
    let w = r.past_secrets;
    let after = ratchet_get_spec(r, g).1;
    lemma_advance_window_len(r.ciphersuite, w, r.index, r.generation, d);
    let w2 = advance_window(r.ciphersuite, w, r.index, r.generation, d);
    assert(w2.len() == OUT_OF_ORDER_TOLERANCE as int);
    // the window entry four behind the newest is the (d - 4)-th chain power
    lemma_advance_window_content(r.ciphersuite, w, r.index, r.generation, d, 4);
    assert(w2[w2.len() - 1 - 4] == chain_pow(r.ciphersuite, w.last(), r.index, r.generation, (d
        - 4) as nat));
    // what a direct first request for g - 4 would have produced
    if r.generation == g - 4 {
        assert(ratchet_get_spec(r, (g - 4) as u32).0 == Ok::<SecretsV, ASError>(
            key_nonce_spec(r.ciphersuite, w[w.len() - 1], r.index, (g - 4) as u32),
        ));
        assert(chain_pow(r.ciphersuite, w.last(), r.index, r.generation, 0) == w.last());
    } else {
        let d2 = ((g - 4) - r.generation) as nat;
        lemma_advance_window_len(r.ciphersuite, w, r.index, r.generation, d2);
        lemma_advance_window_content(r.ciphersuite, w, r.index, r.generation, d2, 0);
        let w3 = advance_window(r.ciphersuite, w, r.index, r.generation, d2);
        assert(w3.last() == chain_pow(r.ciphersuite, w.last(), r.index, r.generation, d2));
    }
}

} // verus!
