//! Fixed-point arithmetic for the memory engine.
//!
//! Every scalar of the engine is an integer count of micro-units: `SCALE`
//! (1_000_000) stands for the real number 1.0. The update laws of the
//! engine — lazy decay, asymptotic boost, long-term potentiation, ripple
//! damping and the dream cycle — are defined here as spec functions over
//! `int`, together with executable counterparts proved to compute them and
//! the ordering lemmas the engine's laws rest on.

use vstd::prelude::*;
use vstd::arithmetic::div_mod::{
    lemma_div_is_ordered, lemma_div_pos_is_pos, lemma_fundamental_div_mod,
    lemma_div_multiples_vanish, lemma_multiply_divide_lt, lemma_remainder_lower,
    lemma_remainder_upper,
};
use vstd::arithmetic::mul::{lemma_mul_inequality, lemma_mul_nonnegative};

verus! {

/// One whole unit: 1_000_000 micro-units stand for the real value 1.0.
pub const SCALE: u64 = 1_000_000;

/// Soft cap toward which stability grows (50.0).
pub const STABILITY_CAP: u64 = 50_000_000;

/// Long-term potentiation rate (0.05): the fraction of the remaining gap to
/// `STABILITY_CAP` that a full-strength boost closes.
pub const LTP_RATE: u64 = 50_000;

/// Ripples weaker than this (0.01) are not propagated.
pub const RIPPLE_EPSILON: u64 = 10_000;

/// The least stability a node may carry (one micro-unit), so that the decay
/// exponent `delta / stability` is always defined.
pub const MIN_STABILITY: u64 = 1;

/// Fixed-point product: `a * b` scaled back down, rounding toward zero.
pub open spec fn mul_fp(a: int, b: int) -> int {
    a * b / (SCALE as int)
}

/// `a` decayed by factor `d` applied `i` whole times.
pub open spec fn decayed_times(a: int, d: int, i: nat) -> int
    decreases i,
{
    if i == 0 {
        a
    } else {
        mul_fp(decayed_times(a, d, (i - 1) as nat), d)
    }
}

/// The factor for the fractional part `f / SCALE` of a decay exponent:
/// linear interpolation between 1.0 (at `f == 0`) and `d` (at `f == SCALE`).
pub open spec fn partial_decay(d: int, f: int) -> int {
    SCALE - (SCALE - d) * f / (SCALE as int)
}

/// The decay exponent `delta / stability` in micro-units, where `s` is the
/// stability in micro-units.
pub open spec fn decay_exponent(delta: int, s: int) -> int {
    delta * (SCALE as int) * (SCALE as int) / s
}

/// Activation `a` after `delta` ticks of lazy decay with per-tick factor `d`
/// and stability `s`: `a * d ^ (delta / s)`, with the whole part of the
/// exponent applied by repeated multiplication and the fractional part by
/// `partial_decay`.
pub open spec fn projected_decay(a: int, d: int, delta: int, s: int) -> int {
    let q = decay_exponent(delta, s);
    mul_fp(decayed_times(a, d, (q / (SCALE as int)) as nat), partial_decay(d, q % (SCALE as int)))
}

/// Asymptotic boost: the stimulus `m` closes a fraction of the gap to 1.0,
/// and the result is clamped to 1.0.
pub open spec fn boosted(a: int, m: int) -> int {
    let raised = a + mul_fp(SCALE - a, m);
    if raised >= SCALE {
        SCALE as int
    } else {
        raised
    }
}

/// The fraction of the gap to `STABILITY_CAP` that a boost of strength `m`
/// closes: `m * LTP_RATE`, clamped to 1.0.
pub open spec fn ltp_mult(m: int) -> int {
    let x = m * (LTP_RATE as int) / (SCALE as int);
    if x >= SCALE {
        SCALE as int
    } else {
        x
    }
}

/// Long-term potentiation: stability moves toward `STABILITY_CAP` by the
/// `ltp_mult` fraction of the remaining gap.
pub open spec fn ltp_stability(s: int, m: int) -> int {
    let x = ltp_mult(m);
    if s <= STABILITY_CAP {
        s + (STABILITY_CAP - s) * x / (SCALE as int)
    } else {
        s - (s - STABILITY_CAP) * x / (SCALE as int)
    }
}

/// Magnitude of the ripple a boost of strength `m` sends along an edge of
/// weight `w`: `m * |w| * 0.5`, saturating at `u64::MAX`.
pub open spec fn ripple_magnitude(m: int, w: int) -> int {
    let wa = if w >= 0 { w } else { -w };
    let raw = m * wa / (2 * SCALE as int);
    if raw > u64::MAX as int {
        u64::MAX as int
    } else {
        raw
    }
}

/// The dream baseline `min(0.2, s / 100)` toward which activation settles.
pub open spec fn dream_baseline(s: int) -> int {
    let b = s / 100;
    if b >= 200_000 {
        200_000int
    } else {
        b
    }
}

/// Stability reward of the dream cycle for a highly active node:
/// `s + 0.5 * (1 - s / 100)`.
pub open spec fn dream_stability(s: int) -> int {
    if s / 200 <= 500_000 {
        s + 500_000 - s / 200
    } else {
        s - (s / 200 - 500_000)
    }
}

/// Activation after the dream cycle: the stored value compressed to 30%
/// plus the stability-derived baseline.
pub open spec fn dream_activation(a: int, s: int) -> int {
    mul_fp(a, 300_000) + dream_baseline(s)
}

/// `mul_fp` keeps a non-negative value non-negative and, for a factor of at
/// most 1.0, never raises it.
pub proof fn lemma_mul_fp_bounds(a: int, b: int)
    requires
        0 <= a,
        0 <= b <= SCALE,
    ensures
        0 <= mul_fp(a, b) <= a,
{
    lemma_mul_nonnegative(a, b);
    lemma_div_pos_is_pos(a * b, SCALE as int);
    lemma_mul_inequality(b, SCALE as int, a);
    assert(a * b == b * a) by (nonlinear_arith);
    assert(a * (SCALE as int) == (SCALE as int) * a) by (nonlinear_arith);
    lemma_div_is_ordered(a * b, a * (SCALE as int), SCALE as int);
    lemma_div_multiples_vanish(a, SCALE as int);
}

/// A factor strictly below 1.0 strictly shrinks a positive value.
pub proof fn lemma_mul_fp_strict(a: int, b: int)
    requires
        1 <= a,
        0 <= b < SCALE,
    ensures
        mul_fp(a, b) < a,
{
    assert(a * b < a * (SCALE as int)) by (nonlinear_arith)
        requires 1 <= a && b < SCALE;
    lemma_multiply_divide_lt(a * b, a, SCALE as int);
}

/// `mul_fp` is monotone in its second argument for a non-negative base.
pub proof fn lemma_mul_fp_mono(a: int, b1: int, b2: int)
    requires
        0 <= a,
        b1 <= b2,
    ensures
        mul_fp(a, b1) <= mul_fp(a, b2),
{
    lemma_mul_inequality(b1, b2, a);
    assert(a * b1 == b1 * a) by (nonlinear_arith);
    assert(a * b2 == b2 * a) by (nonlinear_arith);
    lemma_div_is_ordered(a * b1, a * b2, SCALE as int);
}

/// Repeated decay stays within `[0, a]`.
pub proof fn lemma_decayed_times_bounds(a: int, d: int, i: nat)
    requires
        0 <= a,
        0 <= d <= SCALE,
    ensures
        0 <= decayed_times(a, d, i) <= a,
    decreases i,
{
    if i > 0 {
        lemma_decayed_times_bounds(a, d, (i - 1) as nat);
        lemma_mul_fp_bounds(decayed_times(a, d, (i - 1) as nat), d);
    }
}

/// More whole decay steps never raise the value.
pub proof fn lemma_decayed_times_mono(a: int, d: int, i1: nat, i2: nat)
    requires
        0 <= a,
        0 <= d <= SCALE,
        i1 <= i2,
    ensures
        decayed_times(a, d, i2) <= decayed_times(a, d, i1),
    decreases i2,
{
    if i2 > i1 {
        lemma_decayed_times_mono(a, d, i1, (i2 - 1) as nat);
        lemma_decayed_times_bounds(a, d, (i2 - 1) as nat);
        lemma_mul_fp_bounds(decayed_times(a, d, (i2 - 1) as nat), d);
    }
}

/// Applying the factor first and then decaying `i` times is the same as
/// decaying `i + 1` times.
pub proof fn lemma_decayed_times_shift(a: int, d: int, i: nat)
    ensures
        decayed_times(a, d, i + 1) == decayed_times(mul_fp(a, d), d, i),
    decreases i,
{
    assert(decayed_times(a, d, 0) == a);
    assert(decayed_times(mul_fp(a, d), d, 0) == mul_fp(a, d));
    if i > 0 {
        lemma_decayed_times_shift(a, d, (i - 1) as nat);
        assert(decayed_times(a, d, i + 1) == mul_fp(decayed_times(a, d, i), d));
        assert(decayed_times(mul_fp(a, d), d, i) == mul_fp(
            decayed_times(mul_fp(a, d), d, (i - 1) as nat),
            d,
        ));
    } else {
        assert(decayed_times(a, d, 1) == mul_fp(decayed_times(a, d, 0), d));
    }
}

/// Decay of zero is zero.
pub proof fn lemma_decayed_times_zero(d: int, i: nat)
    requires
        0 <= d,
    ensures
        decayed_times(0, d, i) == 0,
    decreases i,
{
    if i > 0 {
        lemma_decayed_times_zero(d, (i - 1) as nat);
    }
}

/// The partial-decay factor lies between `d` and 1.0.
pub proof fn lemma_partial_decay_bounds(d: int, f: int)
    requires
        0 <= d <= SCALE,
        0 <= f <= SCALE,
    ensures
        d <= partial_decay(d, f) <= SCALE,
{
    lemma_mul_nonnegative(SCALE - d, f);
    lemma_div_pos_is_pos((SCALE - d) * f, SCALE as int);
    lemma_mul_inequality(f, SCALE as int, SCALE - d);
    assert((SCALE - d) * f == f * (SCALE - d)) by (nonlinear_arith);
    assert((SCALE - d) * (SCALE as int) == (SCALE as int) * (SCALE - d)) by (nonlinear_arith);
    lemma_div_is_ordered((SCALE - d) * f, (SCALE - d) * (SCALE as int), SCALE as int);
    lemma_div_multiples_vanish(SCALE - d, SCALE as int);
}

/// The partial-decay factor never grows with the fractional exponent.
pub proof fn lemma_partial_decay_mono(d: int, f1: int, f2: int)
    requires
        0 <= d <= SCALE,
        0 <= f1 <= f2,
    ensures
        partial_decay(d, f2) <= partial_decay(d, f1),
{
    lemma_mul_inequality(f1, f2, SCALE - d);
    assert((SCALE - d) * f1 == f1 * (SCALE - d)) by (nonlinear_arith);
    assert((SCALE - d) * f2 == f2 * (SCALE - d)) by (nonlinear_arith);
    lemma_div_is_ordered((SCALE - d) * f1, (SCALE - d) * f2, SCALE as int);
}

/// The value of a decay exponent `q`, split into whole and fractional parts.
pub open spec fn decay_by_exponent(a: int, d: int, q: int) -> int {
    mul_fp(decayed_times(a, d, (q / (SCALE as int)) as nat), partial_decay(d, q % (SCALE as int)))
}

/// Decay by any exponent stays within `[0, a]`.
pub proof fn lemma_decay_by_exponent_bounds(a: int, d: int, q: int)
    requires
        0 <= a,
        0 <= d <= SCALE,
        0 <= q,
    ensures
        0 <= decay_by_exponent(a, d, q) <= a,
{
    let s = SCALE as int;
    lemma_div_pos_is_pos(q, s);
    lemma_remainder_lower(q, s);
    lemma_remainder_upper(q, s);
    let i = (q / s) as nat;
    let f = q % s;
    lemma_decayed_times_bounds(a, d, i);
    lemma_partial_decay_bounds(d, f);
    lemma_mul_fp_bounds(decayed_times(a, d, i), partial_decay(d, f));
}

/// Decay is monotone: a larger exponent never leaves more activation.
pub proof fn lemma_decay_by_exponent_mono(a: int, d: int, q1: int, q2: int)
    requires
        0 <= a,
        0 <= d <= SCALE,
        0 <= q1 <= q2,
    ensures
        decay_by_exponent(a, d, q2) <= decay_by_exponent(a, d, q1),
    decreases q2 / (SCALE as int) - q1 / (SCALE as int),
{
    let s = SCALE as int;
    lemma_div_pos_is_pos(q1, s);
    lemma_div_pos_is_pos(q2, s);
    lemma_remainder_lower(q1, s);
    lemma_remainder_lower(q2, s);
    lemma_remainder_upper(q1, s);
    lemma_remainder_upper(q2, s);
    lemma_div_is_ordered(q1, q2, s);
    let i1 = (q1 / s) as nat;
    let i2 = (q2 / s) as nat;
    let f1 = q1 % s;
    let f2 = q2 % s;
    lemma_decayed_times_bounds(a, d, i1);
    lemma_decayed_times_bounds(a, d, i2);
    if i1 == i2 {
        lemma_fundamental_div_mod(q1, s);
        lemma_fundamental_div_mod(q2, s);
        lemma_partial_decay_mono(d, f1, f2);
        lemma_mul_fp_mono(decayed_times(a, d, i1), partial_decay(d, f2), partial_decay(d, f1));
    } else {
        // Step down one whole decay: the value at exponent exactly
        // `(i1 + 1) * SCALE` sits between the two sides.
        let mid = (i1 + 1) * s;
        lemma_mul_nonnegative((i1 + 1) as int, s);
        lemma_div_multiples_vanish((i1 + 1) as int, s);
        assert(mid % s == 0) by {
            lemma_fundamental_div_mod(mid, s);
        };
        // mid <= q2 because i1 + 1 <= i2.
        assert(mid <= q2) by {
            lemma_fundamental_div_mod(q2, s);
            lemma_mul_inequality((i1 + 1) as int, i2 as int, s);
            assert((i1 + 1) as int * s == s * (i1 + 1) as int) by (nonlinear_arith);
            assert(i2 as int * s == s * i2 as int) by (nonlinear_arith);
        };
        lemma_decay_by_exponent_mono(a, d, mid, q2);
        // decay_by_exponent(a, d, mid) == decayed_times(a, d, i1 + 1).
        lemma_partial_decay_bounds(d, 0);
        assert((SCALE - d) * 0 == 0) by (nonlinear_arith);
        lemma_decayed_times_bounds(a, d, (i1 + 1) as nat);
        lemma_div_multiples_vanish(decayed_times(a, d, (i1 + 1) as nat), s);
        assert(decayed_times(a, d, (i1 + 1) as nat) * s == s * decayed_times(a, d, (i1 + 1) as nat))
            by (nonlinear_arith);
        assert(decay_by_exponent(a, d, mid) == decayed_times(a, d, (i1 + 1) as nat));
        // decayed_times(a, d, i1 + 1) <= mul_fp(decayed_times(a, d, i1), partial_decay(d, f1))
        // because d <= partial_decay(d, f1).
        lemma_partial_decay_bounds(d, f1);
        lemma_mul_fp_mono(decayed_times(a, d, i1), d, partial_decay(d, f1));
    }
}

/// With no elapsed exponent nothing decays.
pub proof fn lemma_decay_by_exponent_zero(a: int, d: int)
    requires
        0 <= a,
        0 <= d <= SCALE,
    ensures
        decay_by_exponent(a, d, 0) == a,
{
    let s = SCALE as int;
    assert((SCALE - d) * 0 == 0) by (nonlinear_arith);
    lemma_div_multiples_vanish(a, s);
    assert(a * s == s * a) by (nonlinear_arith);
}

/// `projected_decay` never raises activation and stays non-negative.
pub proof fn lemma_projected_decay_bounds(a: int, d: int, delta: int, s: int)
    requires
        0 <= a,
        0 <= d <= SCALE,
        0 <= delta,
        1 <= s,
    ensures
        0 <= projected_decay(a, d, delta, s) <= a,
{
    let sc = SCALE as int;
    lemma_mul_nonnegative(delta, sc);
    lemma_mul_nonnegative(delta * sc, sc);
    lemma_div_pos_is_pos(delta * sc * sc, s);
    lemma_decay_by_exponent_bounds(a, d, decay_exponent(delta, s));
}

/// The exponent grows with the elapsed ticks.
pub proof fn lemma_decay_exponent_mono(delta1: int, delta2: int, s: int)
    requires
        0 <= delta1 <= delta2,
        1 <= s,
    ensures
        0 <= decay_exponent(delta1, s) <= decay_exponent(delta2, s),
{
    let sc = SCALE as int;
    lemma_mul_nonnegative(delta1, sc);
    lemma_mul_nonnegative(delta1 * sc, sc);
    lemma_div_pos_is_pos(delta1 * sc * sc, s);
    lemma_mul_inequality(delta1, delta2, sc);
    assert(delta1 * sc * sc <= delta2 * sc * sc) by (nonlinear_arith)
        requires delta1 * sc <= delta2 * sc && sc > 0;
    lemma_div_is_ordered(delta1 * sc * sc, delta2 * sc * sc, s);
}

/// Boost never lowers activation and never exceeds 1.0.
pub proof fn lemma_boosted_bounds(a: int, m: int)
    requires
        0 <= a <= SCALE,
        0 <= m,
    ensures
        a <= boosted(a, m) <= SCALE,
{
    lemma_mul_nonnegative(SCALE - a, m);
    lemma_div_pos_is_pos((SCALE - a) * m, SCALE as int);
}

/// A full-strength boost saturates activation at exactly 1.0.
pub proof fn lemma_boosted_full(a: int)
    requires
        0 <= a <= SCALE,
    ensures
        boosted(a, SCALE as int) == SCALE,
{
    lemma_div_multiples_vanish(SCALE - a, SCALE as int);
    assert((SCALE - a) * (SCALE as int) == (SCALE as int) * (SCALE - a)) by (nonlinear_arith);
}

/// A boost whose gap-weighted strength reaches one micro-unit strictly
/// raises activation.
pub proof fn lemma_boosted_strict(a: int, m: int)
    requires
        0 <= a <= SCALE,
        0 <= m,
        (SCALE - a) * m >= SCALE,
    ensures
        boosted(a, m) > a,
{
    let sc = SCALE as int;
    lemma_div_is_ordered(sc, (SCALE - a) * m, sc);
    vstd::arithmetic::div_mod::lemma_div_by_self(sc);
    assert(mul_fp(SCALE - a, m) >= 1);
    assert(a < SCALE) by (nonlinear_arith)
        requires (SCALE - a) * m >= SCALE && a <= SCALE && m >= 0;
}

/// Long-term potentiation keeps stability at least one micro-unit and moves
/// it toward the cap, never past it from either side.
pub proof fn lemma_ltp_bounds(s: int, m: int)
    requires
        1 <= s,
        0 <= m,
    ensures
        s <= STABILITY_CAP ==> s <= ltp_stability(s, m) <= STABILITY_CAP,
        s > STABILITY_CAP ==> STABILITY_CAP <= ltp_stability(s, m) <= s,
        1 <= ltp_stability(s, m),
{
    let sc = SCALE as int;
    let cap = STABILITY_CAP as int;
    lemma_mul_nonnegative(m, LTP_RATE as int);
    lemma_div_pos_is_pos(m * (LTP_RATE as int), sc);
    let x = ltp_mult(m);
    if s <= cap {
        lemma_mul_nonnegative(cap - s, x);
        lemma_div_pos_is_pos((cap - s) * x, sc);
        lemma_mul_inequality(x, sc, cap - s);
        assert((cap - s) * x == x * (cap - s)) by (nonlinear_arith);
        assert((cap - s) * sc == sc * (cap - s)) by (nonlinear_arith);
        lemma_div_is_ordered((cap - s) * x, (cap - s) * sc, sc);
        lemma_div_multiples_vanish(cap - s, sc);
    } else {
        lemma_mul_nonnegative(s - cap, x);
        lemma_div_pos_is_pos((s - cap) * x, sc);
        lemma_mul_inequality(x, sc, s - cap);
        assert((s - cap) * x == x * (s - cap)) by (nonlinear_arith);
        assert((s - cap) * sc == sc * (s - cap)) by (nonlinear_arith);
        lemma_div_is_ordered((s - cap) * x, (s - cap) * sc, sc);
        lemma_div_multiples_vanish(s - cap, sc);
    }
}

/// Dream keeps stability at least one micro-unit.
pub proof fn lemma_dream_stability_bounds(s: int)
    requires
        1 <= s,
    ensures
        1 <= dream_stability(s),
        s <= STABILITY_CAP ==> dream_stability(s) > s,
{
    let h = s / 200;
    lemma_div_pos_is_pos(s, 200);
    if h > 500_000 {
        lemma_div_is_ordered(s, s, 200);
        assert(h * 200 <= s) by {
            lemma_fundamental_div_mod(s, 200);
            lemma_remainder_lower(s, 200);
        };
        assert(h <= s) by (nonlinear_arith)
            requires h * 200 <= s && h >= 0;
    }
    if s <= STABILITY_CAP {
        lemma_div_is_ordered(s, STABILITY_CAP as int, 200);
    }
}

/// Dream compresses activation into `[0, SCALE]`.
pub proof fn lemma_dream_activation_bounds(a: int, s: int)
    requires
        0 <= a <= SCALE,
        0 <= s,
    ensures
        0 <= dream_activation(a, s) <= 500_000,
{
    lemma_mul_fp_bounds(a, 300_000);
    lemma_mul_nonnegative(a, 300_000);
    lemma_mul_inequality(a, SCALE as int, 300_000);
    assert(a * 300_000 == 300_000 * a) by (nonlinear_arith);
    assert((SCALE as int) * 300_000 == 300_000 * (SCALE as int)) by (nonlinear_arith);
    lemma_div_is_ordered(a * 300_000, (SCALE as int) * 300_000, SCALE as int);
    lemma_div_multiples_vanish(300_000, SCALE as int);
    lemma_div_pos_is_pos(s, 100);
}

/// Computes `projected_decay`: the activation left after `delta` ticks.
pub fn decay_value(a: u64, d: u64, delta: u64, s: u64) -> (r: u64)
    requires
        a <= SCALE,
        0 < d < SCALE,
        s >= 1,
    ensures
        r as int == projected_decay(a as int, d as int, delta as int, s as int),
        r <= a,
{
    proof {
        lemma_projected_decay_bounds(a as int, d as int, delta as int, s as int);
    }
    let sc: u128 = SCALE as u128;
    assert((delta as u128) * sc * sc <= 0xffff_ffff_ffff_ffffu128 * 0xf_4240u128 * 0xf_4240u128)
        by (nonlinear_arith)
        requires (delta as u128) <= 0xffff_ffff_ffff_ffffu128 && sc == 0xf_4240u128;
    let q: u128 = (delta as u128) * sc * sc / (s as u128);
    let ghost qi: int = decay_exponent(delta as int, s as int);
    assert(q as int == qi);
    let mut k: u128 = q / sc;
    let f: u64 = (q % sc) as u64;
    proof {
        lemma_div_pos_is_pos(qi, SCALE as int);
        lemma_remainder_lower(qi, SCALE as int);
        lemma_remainder_upper(qi, SCALE as int);
    }
    let ghost i: nat = (qi / (SCALE as int)) as nat;
    let mut acc: u64 = a;
    proof {
        lemma_decayed_times_bounds(a as int, d as int, i);
    }
    while k > 0 && acc > 0
        invariant
            acc <= a <= SCALE,
            0 < d < SCALE,
            k <= i,
            decayed_times(a as int, d as int, i) == decayed_times(acc as int, d as int, k as nat),
        decreases k,
    {
        proof {
            lemma_mul_fp_bounds(acc as int, d as int);
            lemma_decayed_times_shift(acc as int, d as int, (k - 1) as nat);
            assert((acc as u128) * (d as u128) < 0xf_4240u128 * 0xf_4240u128) by (nonlinear_arith)
                requires (acc as u128) <= 0xf_4240u128 && (d as u128) < 0xf_4240u128;
        }
        acc = ((acc as u128) * (d as u128) / (SCALE as u128)) as u64;
        k = k - 1;
    }
    proof {
        if acc == 0 {
            lemma_decayed_times_zero(d as int, k as nat);
        }
        assert(acc as int == decayed_times(a as int, d as int, i));
        assert((SCALE - d) * (f as int) <= 0xf_4240 * 0xf_4240) by (nonlinear_arith)
            requires 0 <= SCALE - d <= 0xf_4240 && 0 <= f <= 0xf_4240;
        lemma_partial_decay_bounds(d as int, f as int);
    }
    let fr: u64 = SCALE - ((SCALE - d) * f / SCALE);
    proof {
        lemma_mul_fp_bounds(acc as int, fr as int);
        assert((acc as u128) * (fr as u128) <= 0xf_4240u128 * 0xf_4240u128) by (nonlinear_arith)
            requires (acc as u128) <= 0xf_4240u128 && (fr as u128) <= 0xf_4240u128;
    }
    ((acc as u128) * (fr as u128) / (SCALE as u128)) as u64
}

/// Computes `boosted`: activation raised asymptotically toward 1.0.
pub fn boost_value(a: u64, m: u64) -> (r: u64)
    requires
        a <= SCALE,
    ensures
        r as int == boosted(a as int, m as int),
        a <= r <= SCALE,
{
    proof {
        lemma_boosted_bounds(a as int, m as int);
        assert(((SCALE - a) as u128) * (m as u128) <= 0xf_4240u128 * 0xffff_ffff_ffff_ffffu128)
            by (nonlinear_arith)
            requires
                ((SCALE - a) as u128) <= 0xf_4240u128,
                (m as u128) <= 0xffff_ffff_ffff_ffffu128,
        ;
    }
    let gain: u128 = ((SCALE - a) as u128) * (m as u128) / (SCALE as u128);
    let total: u128 = (a as u128) + gain;
    if total >= SCALE as u128 {
        SCALE
    } else {
        total as u64
    }
}

/// Computes `ltp_stability`: stability after a boost of strength `m`.
pub fn ltp_value(s: u64, m: u64) -> (r: u64)
    requires
        s >= 1,
    ensures
        r as int == ltp_stability(s as int, m as int),
        r >= 1,
{
    proof {
        lemma_ltp_bounds(s as int, m as int);
        assert((m as u128) * (LTP_RATE as u128) <= 0xffff_ffff_ffff_ffffu128 * 0xc350u128)
            by (nonlinear_arith)
            requires
                (m as u128) <= 0xffff_ffff_ffff_ffffu128,
                (LTP_RATE as u128) <= 0xc350u128,
        ;
    }
    let x128: u128 = (m as u128) * (LTP_RATE as u128) / (SCALE as u128);
    let x: u64 = if x128 >= SCALE as u128 {
        SCALE
    } else {
        x128 as u64
    };
    if s <= STABILITY_CAP {
        proof {
            assert(((STABILITY_CAP - s) as u128) * (x as u128) <= 0x2faf_080u128
                * 0xf_4240u128) by (nonlinear_arith)
                requires
                    ((STABILITY_CAP - s) as u128) <= 0x2faf_080u128,
                    (x as u128) <= 0xf_4240u128,
            ;
        }
        let gain: u64 = (((STABILITY_CAP - s) as u128) * (x as u128) / (SCALE as u128)) as u64;
        s + gain
    } else {
        proof {
            assert(((s - STABILITY_CAP) as u128) * (x as u128) <= 0xffff_ffff_ffff_ffffu128
                * 0xf_4240u128) by (nonlinear_arith)
                requires
                    ((s - STABILITY_CAP) as u128) <= 0xffff_ffff_ffff_ffffu128,
                    (x as u128) <= 0xf_4240u128,
            ;
        }
        let loss: u64 = (((s - STABILITY_CAP) as u128) * (x as u128) / (SCALE as u128)) as u64;
        s - loss
    }
}

/// Computes `ripple_magnitude`: the damped strength a boost sends along an
/// edge of weight `w`.
pub fn ripple_value(m: u64, w: i64) -> (r: u64)
    ensures
        r as int == ripple_magnitude(m as int, w as int),
{
    let wi: i128 = w as i128;
    let wa: u128 = if wi >= 0 {
        wi as u128
    } else {
        (-wi) as u128
    };
    assert((m as u128) * wa <= 0xffff_ffff_ffff_ffffu128 * 0x8000_0000_0000_0000u128)
        by (nonlinear_arith)
        requires (m as u128) <= 0xffff_ffff_ffff_ffffu128 && wa <= 0x8000_0000_0000_0000u128;
    let raw: u128 = (m as u128) * wa / (2 * SCALE as u128);
    if raw > u64::MAX as u128 {
        u64::MAX
    } else {
        raw as u64
    }
}

/// Computes `dream_stability`.
pub fn dream_stability_value(s: u64) -> (r: u64)
    requires
        s >= 1,
    ensures
        r as int == dream_stability(s as int),
        r >= 1,
{
    proof {
        lemma_dream_stability_bounds(s as int);
    }
    let h: u64 = s / 200;
    if h <= 500_000 {
        s + 500_000 - h
    } else {
        s - (h - 500_000)
    }
}

/// Computes `dream_activation`.
pub fn dream_activation_value(a: u64, s: u64) -> (r: u64)
    requires
        a <= SCALE,
    ensures
        r as int == dream_activation(a as int, s as int),
        r <= SCALE,
{
    proof {
        lemma_dream_activation_bounds(a as int, s as int);
        lemma_mul_nonnegative(a as int, 300_000);
        lemma_mul_inequality(a as int, SCALE as int, 300_000);
        assert((a as int) * 300_000 == 300_000 * (a as int)) by (nonlinear_arith);
        assert((SCALE as int) * 300_000 == 300_000 * (SCALE as int)) by (nonlinear_arith);
        lemma_div_is_ordered((a as int) * 300_000, (SCALE as int) * 300_000, SCALE as int);
        lemma_div_multiples_vanish(300_000, SCALE as int);
        assert((a as u128) * 300_000u128 <= 0xf_4240u128 * 300_000u128) by (nonlinear_arith)
            requires (a as u128) <= 0xf_4240u128;
    }
    let compressed: u64 = ((a as u128) * 300_000u128 / (SCALE as u128)) as u64;
    let b: u64 = s / 100;
    let baseline: u64 = if b >= 200_000 {
        200_000
    } else {
        b
    };
    compressed + baseline
}

} // verus!
