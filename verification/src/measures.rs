//! Measures: pure combination functions over weighted child scores, used by
//! the measured composite scorer. Scores are fixed-point fractions of
//! [`SCORE_ONE`](crate::scorer::SCORE_ONE); weights are arbitrary
//! fixed-point factors (`SCORE_ONE` is a weight of 1.0), so a weighted score
//! may exceed the unit interval, and the running sums and products saturate
//! at the machine's largest word instead of wrapping.

use vstd::prelude::*;

use crate::scorer::SCORE_ONE;

verus! {

/// One child's score together with the weight its parent assigned to it.
#[derive(Clone, Copy, PartialEq, Eq, Structural, Debug)]
pub struct WeightedScore {
    pub score: u64,
    pub weight: u64,
}

/// The measures a measured scorer can combine its children with.
#[derive(Clone, Copy, PartialEq, Eq, Structural, Debug)]
pub enum MeasureKind {
    /// The sum of the weighted scores.
    WeightedSum,
    /// The product of the weighted scores.
    WeightedProduct,
    /// The largest weighted score (the one-dimensional Chebyshev distance
    /// from the origin).
    Chebyshev,
    /// The square root of the weighted average of the squared scores; 0 when
    /// the total weight is 0.
    WeightedMeasure,
}

/// Every score of the list is a valid fixed-point fraction; the weights are
/// unconstrained.
pub open spec fn measure_scores_valid(ws: Seq<WeightedScore>) -> bool {
    forall|i: int| 0 <= i < ws.len() ==> (#[trigger] ws[i]).score <= SCORE_ONE
}

/// Length cap on weighted-score lists; it keeps the quadratic measure's
/// accumulator inside the machine's integer range.
pub open spec fn measure_len_ok(n: int) -> bool {
    n <= 0x1000_0000
}

/// Saturation at the machine's largest unsigned word: running measure values
/// beyond it are capped rather than wrapped, which leaves every threshold
/// comparison and the final unit-interval clamp unchanged.
pub open spec fn sat64(x: int) -> int {
    if x > u64::MAX {
        u64::MAX as int
    } else {
        x
    }
}

/// A score multiplied by its weight, in fixed point.
pub open spec fn spec_weighted(w: WeightedScore) -> int {
    w.score * w.weight / (SCORE_ONE as int)
}

/// A weighted valid score is non-negative and at most its weight.
pub proof fn lemma_spec_weighted_bound(w: WeightedScore)
    requires
        w.score <= SCORE_ONE,
    ensures
        0 <= spec_weighted(w) <= w.weight,
{
    assert(w.score * w.weight <= SCORE_ONE * w.weight) by (nonlinear_arith)
        requires
            w.score <= SCORE_ONE,
            0 <= w.weight,
    ;
    vstd::arithmetic::div_mod::lemma_div_is_ordered(
        w.score * w.weight,
        SCORE_ONE * w.weight,
        SCORE_ONE as int,
    );
    vstd::arithmetic::div_mod::lemma_div_multiples_vanish(w.weight as int, SCORE_ONE as int);
    vstd::arithmetic::div_mod::lemma_div_pos_is_pos(w.score * w.weight, SCORE_ONE as int);
}

/// The saturating sum of the weighted scores.
pub open spec fn spec_weighted_sum(ws: Seq<WeightedScore>) -> int
    decreases ws,
{
    if ws.len() == 0 {
        0
    } else {
        sat64(spec_weighted_sum(ws.drop_last()) + spec_weighted(ws.last()))
    }
}

/// The saturating product of the weighted scores, folded left in fixed point
/// starting from 1.
pub open spec fn spec_weighted_product(ws: Seq<WeightedScore>) -> int
    decreases ws,
{
    if ws.len() == 0 {
        SCORE_ONE as int
    } else {
        sat64(spec_weighted_product(ws.drop_last()) * spec_weighted(ws.last()) / (SCORE_ONE as int))
    }
}

/// The largest weighted score, or 0 if there is none.
pub open spec fn spec_chebyshev(ws: Seq<WeightedScore>) -> int
    decreases ws,
{
    if ws.len() == 0 {
        0
    } else {
        let rest = spec_chebyshev(ws.drop_last());
        let last = spec_weighted(ws.last());
        if last > rest {
            last
        } else {
            rest
        }
    }
}

/// The total weight.
pub open spec fn spec_weight_sum(ws: Seq<WeightedScore>) -> int
    decreases ws,
{
    if ws.len() == 0 {
        0
    } else {
        spec_weight_sum(ws.drop_last()) + ws.last().weight
    }
}

/// The sum of each weight times its squared score.
pub open spec fn spec_weighted_square_sum(ws: Seq<WeightedScore>) -> int
    decreases ws,
{
    if ws.len() == 0 {
        0
    } else {
        spec_weighted_square_sum(ws.drop_last()) + ws.last().weight * ws.last().score
            * ws.last().score
    }
}

/// The integer square root: the largest `r` with `r * r <= x` (0 for
/// non-positive `x`).
pub open spec fn spec_isqrt(x: int) -> int
    decreases (if x >= 0 {
        x
    } else {
        0
    }),
{
    if x <= 0 {
        0
    } else {
        let r = spec_isqrt(x - 1);
        if (r + 1) * (r + 1) <= x {
            r + 1
        } else {
            r
        }
    }
}

/// `spec_isqrt` is the rounded-down square root.
pub proof fn lemma_spec_isqrt(x: int)
    requires
        x >= 0,
    ensures
        spec_isqrt(x) >= 0,
        spec_isqrt(x) * spec_isqrt(x) <= x,
        x < (spec_isqrt(x) + 1) * (spec_isqrt(x) + 1),
    decreases x,
{
    if x > 0 {
        lemma_spec_isqrt(x - 1);
        let r0 = spec_isqrt(x - 1);
        if (r0 + 1) * (r0 + 1) <= x {
            assert((r0 + 2) * (r0 + 2) > (r0 + 1) * (r0 + 1)) by (nonlinear_arith)
                requires
                    r0 >= 0,
            ;
        }
    }
}

/// Any value with the rounded-down-square-root bounds is `spec_isqrt`.
pub proof fn lemma_isqrt_unique(x: int, r: int)
    requires
        x >= 0,
        r >= 0,
        r * r <= x,
        x < (r + 1) * (r + 1),
    ensures
        r == spec_isqrt(x),
{
    lemma_spec_isqrt(x);
    let s = spec_isqrt(x);
    if r < s {
        assert((r + 1) * (r + 1) <= s * s) by (nonlinear_arith)
            requires
                0 <= r + 1 <= s,
        ;
    }
    if s < r {
        assert((s + 1) * (s + 1) <= r * r) by (nonlinear_arith)
            requires
                0 <= s + 1 <= r,
        ;
    }
}

/// The normalized quadratic measure: the square root of the weighted average
/// of the squared scores, with 0 guarding a zero total weight.
pub open spec fn spec_weighted_measure(ws: Seq<WeightedScore>) -> int {
    let wsum = spec_weight_sum(ws);
    if wsum == 0 {
        0
    } else {
        spec_isqrt(spec_weighted_square_sum(ws) / wsum)
    }
}

/// The value a measure assigns to a list of weighted scores.
pub open spec fn spec_measure(m: MeasureKind, ws: Seq<WeightedScore>) -> int {
    match m {
        MeasureKind::WeightedSum => spec_weighted_sum(ws),
        MeasureKind::WeightedProduct => spec_weighted_product(ws),
        MeasureKind::Chebyshev => spec_chebyshev(ws),
        MeasureKind::WeightedMeasure => spec_weighted_measure(ws),
    }
}

/// The sums entering the normalized quadratic measure are bounded: the
/// square sum by `wsum * SCORE_ONE * SCORE_ONE`, so the weighted average of
/// squares is at most `SCORE_ONE * SCORE_ONE` whatever the weights are.
pub proof fn lemma_square_sum_bound(ws: Seq<WeightedScore>)
    requires
        measure_scores_valid(ws),
    ensures
        0 <= spec_weight_sum(ws) <= ws.len() * (u64::MAX as int),
        0 <= spec_weighted_square_sum(ws) <= spec_weight_sum(ws) * SCORE_ONE * SCORE_ONE,
    decreases ws,
{
    if ws.len() == 0 {
    } else {
        assert(measure_scores_valid(ws.drop_last()));
        lemma_square_sum_bound(ws.drop_last());
        let l = ws.last();
        assert((ws.len() - 1) * (u64::MAX as int) + u64::MAX == ws.len() * (u64::MAX as int)) by (
        nonlinear_arith);
        assert(l.weight * l.score * l.score <= l.weight * SCORE_ONE * SCORE_ONE) by (
        nonlinear_arith)
            requires
                l.score <= SCORE_ONE,
                0 <= l.weight,
        ;
        assert(l.weight * l.score * l.score >= 0) by (nonlinear_arith)
            requires
                0 <= l.weight,
                0 <= l.score,
        ;
        assert(spec_weight_sum(ws.drop_last()) * SCORE_ONE * SCORE_ONE + l.weight * SCORE_ONE
            * SCORE_ONE == spec_weight_sum(ws) * SCORE_ONE * SCORE_ONE) by (nonlinear_arith)
            requires
                spec_weight_sum(ws) == spec_weight_sum(ws.drop_last()) + l.weight,
        ;
    }
}

/// If `x` is at most `b * b` then its rounded-down square root is at most
/// `b`.
pub proof fn lemma_isqrt_bound_by_square(x: int, b: int)
    requires
        0 <= x,
        0 <= b,
        x <= b * b,
    ensures
        spec_isqrt(x) <= b,
{
    lemma_spec_isqrt(x);
    let r = spec_isqrt(x);
    if r > b {
        assert(r * r > b * b) by (nonlinear_arith)
            requires
                0 <= b < r,
        ;
    }
}

/// The integer square root of `x`: the largest `r` with `r * r <= x`.
pub fn isqrt(x: u64) -> (r: u64)
    ensures
        r as int == spec_isqrt(x as int),
        r * r <= x,
{
    let mut lo: u64 = 0;
    let mut hi: u64 = 0xFFFF_FFFF;
    if x < 0xFFFF_FFFF {
        hi = x;
    }
    proof {
        assert((hi + 1) * (hi + 1) > x) by (nonlinear_arith)
            requires
                hi + 1 > 0xFFFF_FFFF || hi >= x,
                x <= u64::MAX,
                hi <= 0xFFFF_FFFF,
        ;
    }
    while lo < hi
        invariant
            lo <= hi <= 0xFFFF_FFFF,
            lo * lo <= x,
            (hi + 1) * (hi + 1) > x,
        decreases hi - lo,
    {
        let mid: u64 = lo + (hi - lo + 1) / 2;
        proof {
            assert(mid * mid <= 0xFFFF_FFFF * 0xFFFF_FFFF) by (nonlinear_arith)
                requires
                    mid <= 0xFFFF_FFFF,
            ;
        }
        if mid * mid <= x {
            lo = mid;
        } else {
            hi = mid - 1;
        }
    }
    proof {
        lemma_isqrt_unique(x as int, lo as int);
    }
    lo
}

/// A score multiplied by its weight, in fixed point; widened internally so
/// any weight is accepted.
fn weighted_term(w: WeightedScore) -> (r: u64)
    requires
        w.score <= SCORE_ONE,
    ensures
        r as int == spec_weighted(w),
        r <= w.weight,
{
    proof {
        lemma_spec_weighted_bound(w);
    }
    let wide: u128 = (w.score as u128) * (w.weight as u128) / (SCORE_ONE as u128);
    proof {
        assert(wide <= u64::MAX as u128);
    }
    wide as u64
}

/// The sum of the weighted scores, in fixed point, saturating at the
/// machine's largest word.
pub fn weighted_sum(scores: &Vec<WeightedScore>) -> (r: u64)
    requires
        measure_scores_valid(scores@),
    ensures
        r as int == spec_weighted_sum(scores@),
{
    let mut sum: u64 = 0;
    let n = scores.len();
    let mut i: usize = 0;
    while i < n
        invariant
            n == scores@.len(),
            i <= n,
            measure_scores_valid(scores@),
            sum as int == spec_weighted_sum(scores@.take(i as int)),
        decreases n - i,
    {
        let w = scores[i];
        proof {
            assert(scores@.take(i + 1).drop_last() =~= scores@.take(i as int));
            assert(scores@.take(i + 1).last() == scores@[i as int]);
        }
        let term = weighted_term(w);
        sum = if term > u64::MAX - sum {
            u64::MAX
        } else {
            sum + term
        };
        i += 1;
    }
    proof {
        assert(scores@.take(n as int) =~= scores@);
    }
    sum
}

/// The product of the weighted scores, in fixed point, saturating at the
/// machine's largest word.
pub fn weighted_product(scores: &Vec<WeightedScore>) -> (r: u64)
    requires
        measure_scores_valid(scores@),
    ensures
        r as int == spec_weighted_product(scores@),
{
    let mut p: u64 = SCORE_ONE;
    let n = scores.len();
    let mut i: usize = 0;
    while i < n
        invariant
            n == scores@.len(),
            i <= n,
            measure_scores_valid(scores@),
            p as int == spec_weighted_product(scores@.take(i as int)),
        decreases n - i,
    {
        let w = scores[i];
        proof {
            assert(scores@.take(i + 1).drop_last() =~= scores@.take(i as int));
            assert(scores@.take(i + 1).last() == scores@[i as int]);
        }
        let term = weighted_term(w);
        proof {
            assert((p as int) * (term as int) <= (u64::MAX as int) * (u64::MAX as int)) by (
            nonlinear_arith)
                requires
                    p <= u64::MAX,
                    term <= u64::MAX,
            ;
            assert((u64::MAX as int) * (u64::MAX as int)
                < 0x1_0000_0000_0000_0000_0000_0000_0000_0000int) by (nonlinear_arith);
        }
        let wide: u128 = (p as u128) * (term as u128) / (SCORE_ONE as u128);
        p = if wide > (u64::MAX as u128) {
            u64::MAX
        } else {
            wide as u64
        };
        i += 1;
    }
    proof {
        assert(scores@.take(n as int) =~= scores@);
    }
    p
}

/// The largest weighted score, in fixed point; 0 if the list is empty.
pub fn chebyshev_distance(scores: &Vec<WeightedScore>) -> (r: u64)
    requires
        measure_scores_valid(scores@),
    ensures
        r as int == spec_chebyshev(scores@),
{
    let mut best: u64 = 0;
    let n = scores.len();
    let mut i: usize = 0;
    while i < n
        invariant
            n == scores@.len(),
            i <= n,
            measure_scores_valid(scores@),
            best as int == spec_chebyshev(scores@.take(i as int)),
        decreases n - i,
    {
        let w = scores[i];
        proof {
            assert(scores@.take(i + 1).drop_last() =~= scores@.take(i as int));
            assert(scores@.take(i + 1).last() == scores@[i as int]);
        }
        let term = weighted_term(w);
        if term > best {
            best = term;
        }
        i += 1;
    }
    proof {
        assert(scores@.take(n as int) =~= scores@);
    }
    best
}

/// The normalized quadratic measure: the square root of the weighted average
/// of the squared scores, or 0 when the total weight is 0. The result never
/// exceeds the unit interval, whatever the weights are.
pub fn weighted_measure(scores: &Vec<WeightedScore>) -> (r: u64)
    requires
        measure_scores_valid(scores@),
        measure_len_ok(scores@.len() as int),
    ensures
        r as int == spec_weighted_measure(scores@),
        r <= SCORE_ONE,
{
    let n = scores.len();
    let mut wsum: u128 = 0;
    let mut total: u128 = 0;
    let mut i: usize = 0;
    while i < n
        invariant
            n == scores@.len(),
            i <= n,
            measure_scores_valid(scores@),
            measure_len_ok(n as int),
            wsum as int == spec_weight_sum(scores@.take(i as int)),
            total as int == spec_weighted_square_sum(scores@.take(i as int)),
            wsum as int <= i * (u64::MAX as int),
            total as int <= i * ((u64::MAX as int) * SCORE_ONE * SCORE_ONE),
        decreases n - i,
    {
        let w = scores[i];
        proof {
            assert(scores@.take(i + 1).drop_last() =~= scores@.take(i as int));
            assert(scores@.take(i + 1).last() == scores@[i as int]);
            assert((w.weight as int) * w.score * w.score <= (w.weight as int) * SCORE_ONE
                * SCORE_ONE) by (nonlinear_arith)
                requires
                    w.score <= SCORE_ONE,
                    0 <= w.weight,
            ;
            assert((w.weight as int) * SCORE_ONE * SCORE_ONE <= (u64::MAX as int) * SCORE_ONE
                * SCORE_ONE) by (nonlinear_arith)
                requires
                    w.weight <= u64::MAX,
            ;
            assert((w.weight as int) * w.score * w.score >= 0) by (nonlinear_arith)
                requires
                    0 <= w.weight,
                    0 <= w.score,
            ;
            assert(i * (u64::MAX as int) + u64::MAX == (i + 1) * (u64::MAX as int)) by (
            nonlinear_arith);
            assert(i * ((u64::MAX as int) * SCORE_ONE * SCORE_ONE) + (u64::MAX as int) * SCORE_ONE
                * SCORE_ONE == (i + 1) * ((u64::MAX as int) * SCORE_ONE * SCORE_ONE)) by (
            nonlinear_arith);
            assert((0x1000_0000int + 1) * ((u64::MAX as int) * SCORE_ONE * SCORE_ONE)
                < 0x1_0000_0000_0000_0000_0000_0000_0000_0000int) by (nonlinear_arith);
            assert((i + 1) * ((u64::MAX as int) * SCORE_ONE * SCORE_ONE) <= (0x1000_0000int + 1) * (
            (u64::MAX as int) * SCORE_ONE * SCORE_ONE)) by (nonlinear_arith)
                requires
                    i + 1 <= 0x1000_0000int + 1,
            ;
            assert((i + 1) * (u64::MAX as int) <= (0x1000_0000int + 1) * (u64::MAX as int)) by (
            nonlinear_arith)
                requires
                    i + 1 <= 0x1000_0000int + 1,
            ;
            assert((0x1000_0000int + 1) * (u64::MAX as int)
                < 0x1_0000_0000_0000_0000_0000_0000_0000_0000int) by (nonlinear_arith);
            assert((w.weight as int) * (w.score as int) <= (u64::MAX as int) * SCORE_ONE) by (
            nonlinear_arith)
                requires
                    w.score <= SCORE_ONE,
                    w.weight <= u64::MAX,
            ;
            assert((u64::MAX as int) * SCORE_ONE * SCORE_ONE
                < 0x1_0000_0000_0000_0000_0000_0000_0000_0000int) by (nonlinear_arith);
            assert((u64::MAX as int) * SCORE_ONE
                < 0x1_0000_0000_0000_0000_0000_0000_0000_0000int) by (nonlinear_arith);
        }
        wsum = wsum + (w.weight as u128);
        total = total + (w.weight as u128) * (w.score as u128) * (w.score as u128);
        i += 1;
    }
    proof {
        assert(scores@.take(n as int) =~= scores@);
    }
    if wsum == 0 {
        0
    } else {
        let q: u128 = total / wsum;
        proof {
            lemma_square_sum_bound(scores@);
            assert(total as int <= wsum as int * (SCORE_ONE * SCORE_ONE)) by (nonlinear_arith)
                requires
                    total as int <= wsum as int * SCORE_ONE * SCORE_ONE,
            ;
            vstd::arithmetic::div_mod::lemma_div_multiples_vanish(
                SCORE_ONE * SCORE_ONE,
                wsum as int,
            );
            vstd::arithmetic::div_mod::lemma_div_is_ordered(
                total as int,
                wsum as int * (SCORE_ONE * SCORE_ONE),
                wsum as int,
            );
            vstd::arithmetic::div_mod::lemma_div_pos_is_pos(total as int, wsum as int);
            lemma_isqrt_bound_by_square(q as int, SCORE_ONE as int);
        }
        let r = isqrt(q as u64);
        proof {
            lemma_spec_isqrt(q as int);
            lemma_isqrt_bound_by_square(q as int, SCORE_ONE as int);
        }
        r
    }
}

} // verus!
