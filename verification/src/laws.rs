//! The engine's laws: decay monotonicity and boost saturation, stated over
//! the same spec functions the operations' contracts use.

use vstd::prelude::*;
use vstd::arithmetic::div_mod::{
    lemma_div_multiples_vanish, lemma_div_pos_is_pos, lemma_fundamental_div_mod,
};
use vstd::arithmetic::mul::lemma_mul_nonnegative;
use crate::fixed::{
    boosted, decay_exponent, decayed_times, lemma_boosted_bounds, lemma_boosted_full,
    lemma_boosted_strict, lemma_decay_by_exponent_mono, lemma_decay_by_exponent_zero,
    lemma_decay_exponent_mono, lemma_decayed_times_mono, lemma_mul_fp_strict,
    lemma_projected_decay_bounds, mul_fp, partial_decay, projected_decay, SCALE,
};
use crate::graph::{boosted_meta, decayed_meta};
use crate::node::NodeMetadata;

verus! {

/// Decay monotonicity: without intervening boosts, projecting a node's
/// activation after more elapsed ticks never yields more activation, and
/// projecting after no elapsed ticks yields the stored value unchanged.
pub proof fn law_decay_monotonic(a: int, d: int, delta1: int, delta2: int, s: int)
    requires
        0 <= a <= SCALE,
        0 < d < SCALE,
        0 <= delta1 <= delta2,
        1 <= s,
    ensures
        projected_decay(a, d, delta2, s) <= projected_decay(a, d, delta1, s) <= a,
        projected_decay(a, d, 0, s) == a,
{
    lemma_decay_exponent_mono(delta1, delta2, s);
    lemma_decay_by_exponent_mono(a, d, decay_exponent(delta1, s), decay_exponent(delta2, s));
    lemma_projected_decay_bounds(a, d, delta1, s);
    assert(decay_exponent(0, s) == 0) by {
        assert(0 * (SCALE as int) == 0) by (nonlinear_arith);
        vstd::arithmetic::div_mod::lemma_div_of0(s);
    };
    lemma_decay_by_exponent_zero(a, d);
}

/// Strict decay: at the default stability (1.0), any positive number of
/// elapsed ticks strictly lowers a positive activation, for any decay
/// factor strictly below 1.0. (With rounding to micro-units, projections of
/// very stable nodes over sub-unit exponents may leave the value unchanged,
/// so strictness is stated at the unit stability.)
pub proof fn law_decay_strict(a: int, d: int, delta: int)
    requires
        1 <= a <= SCALE,
        0 < d < SCALE,
        1 <= delta,
    ensures
        projected_decay(a, d, delta, SCALE as int) < a,
{
    let sc = SCALE as int;
    let q = decay_exponent(delta, sc);
    assert(delta * sc * sc == (delta * sc) * sc) by (nonlinear_arith);
    lemma_mul_nonnegative(delta, sc);
    lemma_div_multiples_vanish(delta * sc, sc);
    assert(q == delta * sc);
    assert(q / sc == delta && q % sc == 0) by {
        lemma_div_multiples_vanish(delta, sc);
        assert(delta * sc == sc * delta) by (nonlinear_arith);
        lemma_fundamental_div_mod(q, sc);
        assert((delta * sc) % sc == 0) by {
            vstd::arithmetic::div_mod::lemma_mod_multiples_basic(delta, sc);
        };
    };
    // The fractional factor is 1.0, so the projection is exactly `delta`
    // whole decay steps.
    assert((sc - d) * 0 == 0) by (nonlinear_arith);
    assert(partial_decay(d, 0) == sc) by {
        vstd::arithmetic::div_mod::lemma_div_of0(sc);
    };
    lemma_decayed_times_mono(a, d, 1, delta as nat);
    assert(decayed_times(a, d, 0) == a);
    assert(decayed_times(a, d, 1) == mul_fp(a, d));
    lemma_mul_fp_strict(a, d);
    crate::fixed::lemma_decayed_times_bounds(a, d, delta as nat);
    lemma_mul_nonnegative(decayed_times(a, d, delta as nat), sc);
    vstd::arithmetic::div_mod::lemma_div_pos_is_pos(
        decayed_times(a, d, delta as nat) * sc,
        sc,
    );
    lemma_div_multiples_vanish(decayed_times(a, d, delta as nat), sc);
    assert(decayed_times(a, d, delta as nat) * sc == sc * decayed_times(a, d, delta as nat))
        by (nonlinear_arith);
    assert(projected_decay(a, d, delta, sc) == decayed_times(a, d, delta as nat));
}

/// Strict decay at any stability: once the elapsed ticks amount to at least
/// one whole decay step (`delta / stability >= 1`), a positive activation
/// strictly falls.
pub proof fn law_decay_strict_step(a: int, d: int, delta: int, s: int)
    requires
        1 <= a <= SCALE,
        0 < d < SCALE,
        0 <= delta,
        1 <= s,
        decay_exponent(delta, s) >= SCALE,
    ensures
        projected_decay(a, d, delta, s) < a,
{
    let sc = SCALE as int;
    let q = decay_exponent(delta, s);
    lemma_div_pos_is_pos(q, sc);
    vstd::arithmetic::div_mod::lemma_div_is_ordered(sc, q, sc);
    vstd::arithmetic::div_mod::lemma_div_by_self(sc);
    let i = (q / sc) as nat;
    assert(i >= 1);
    let f = q % sc;
    vstd::arithmetic::div_mod::lemma_remainder_lower(q, sc);
    vstd::arithmetic::div_mod::lemma_remainder_upper(q, sc);
    lemma_decayed_times_mono(a, d, 1, i);
    assert(decayed_times(a, d, 0) == a);
    assert(decayed_times(a, d, 1) == mul_fp(a, d));
    lemma_mul_fp_strict(a, d);
    crate::fixed::lemma_decayed_times_bounds(a, d, i);
    crate::fixed::lemma_partial_decay_bounds(d, f);
    crate::fixed::lemma_mul_fp_bounds(decayed_times(a, d, i), partial_decay(d, f));
}

/// Boost saturation: a boost never lowers activation and never pushes it
/// above 1.0; a boost of strength 1.0 lands exactly on 1.0, which is also a
/// fixed point of every boost; and any boost whose gap-weighted strength
/// reaches one micro-unit strictly raises the activation.
pub proof fn law_boost_saturation(a: int, m: int)
    requires
        0 <= a <= SCALE,
        0 <= m,
    ensures
        a <= boosted(a, m) <= SCALE,
        boosted(a, SCALE as int) == SCALE,
        boosted(SCALE as int, m) == SCALE,
        (SCALE - a) * m >= SCALE ==> boosted(a, m) > a,
{
    lemma_boosted_bounds(a, m);
    lemma_boosted_full(a);
    lemma_boosted_bounds(SCALE as int, m);
    if (SCALE - a) * m >= SCALE {
        lemma_boosted_strict(a, m);
    }
}

/// Lazy decay at the node level: a touch at a later clock never reports
/// more activation, identifiers and stability are untouched, and a touch at
/// the stamped clock reports the stored value.
pub proof fn law_node_decay_monotonic(m: NodeMetadata, d: u64, t1: u64, t2: u64)
    requires
        m.activation <= SCALE,
        m.stability >= 1,
        0 < d < SCALE,
        m.last_tick <= t1 <= t2,
    ensures
        decayed_meta(m, d, t2).activation <= decayed_meta(m, d, t1).activation <= m.activation,
        decayed_meta(m, d, t1).id == m.id,
        decayed_meta(m, d, t1).stability == m.stability,
        decayed_meta(m, d, m.last_tick) == m,
{
    let a = m.activation as int;
    let di = d as int;
    let s = m.stability as int;
    law_decay_monotonic(a, di, t1 - m.last_tick, t2 - m.last_tick, s);
    lemma_projected_decay_bounds(a, di, t1 - m.last_tick, s);
    lemma_projected_decay_bounds(a, di, t2 - m.last_tick, s);
}

/// Spread activation at the node level: the boosted activation is at least
/// the decayed activation and at most 1.0; a full-strength stimulus
/// saturates it at exactly 1.0.
pub proof fn law_node_boost_saturation(m: NodeMetadata, amount: u64, tick: u64, d: u64)
    requires
        m.activation <= SCALE,
        m.stability >= 1,
        0 < d < SCALE,
        m.last_tick <= tick,
    ensures
        decayed_meta(m, d, tick).activation <= boosted_meta(m, amount, tick, d).activation,
        boosted_meta(m, amount, tick, d).activation <= SCALE,
        amount == SCALE ==> boosted_meta(m, amount, tick, d).activation == SCALE,
{
    let dm = decayed_meta(m, d, tick);
    lemma_projected_decay_bounds(m.activation as int, d as int, tick - m.last_tick,
        m.stability as int);
    law_boost_saturation(dm.activation as int, amount as int);
}

/// The standing invariants of a well-formed graph, in plain terms: every
/// edge endpoint names a live node; every activation lies within `[0, 1]`
/// and every stability is positive; no node is stamped ahead of the clock;
/// and every text-index posting names a live node that is not an affective
/// state and whose text carries the posted token.
pub proof fn law_graph_invariants(g: crate::graph::LoomGraph)
    requires
        g.wf(),
    ensures
        forall|i: int|
            0 <= i < g@.edges.len() ==> crate::graph::has_node(
                g@.nodes,
                (#[trigger] g@.edges[i]).src(),
            ) && crate::graph::has_node(g@.nodes, g@.edges[i].dst()),
        forall|k: int|
            0 <= k < g@.nodes.len() ==> (#[trigger] g@.nodes[k]).meta().activation <= SCALE
                && g@.nodes[k].meta().stability >= crate::fixed::MIN_STABILITY,
        forall|k: int|
            0 <= k < g@.nodes.len() ==> (#[trigger] g@.nodes[k]).meta().last_tick <= g@.tick,
        forall|t: int, j: int|
            0 <= t < g.index.deep_view().len() && 0 <= j < g.index.deep_view()[t].ids.len()
                ==> crate::graph::posting_valid(
                g@.nodes,
                g.index.deep_view()[t].token,
                #[trigger] g.index.deep_view()[t].ids[j],
            ),
{
    assert forall|k: int| 0 <= k < g@.nodes.len() implies (
    #[trigger] g@.nodes[k]).meta().activation <= SCALE && g@.nodes[k].meta().stability
        >= crate::fixed::MIN_STABILITY && g@.nodes[k].meta().last_tick <= g@.tick by {
        assert(g@.nodes[k].valid_scalars());
    };
}

} // verus!
