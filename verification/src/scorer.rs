//! Scorers boil world observations down to a [`Score`] in the unit interval.
//! Scores are fixed-point fractions: [`SCORE_ONE`] stands for 1.0. A scorer
//! is an owned tree: leaves hold values fed by the application, composite
//! nodes combine their children's scores once per tick.

use vstd::prelude::*;

use crate::evaluator::{linear_eval_spec, linear_wf, Linear};
use crate::measures::{measure_len_ok, spec_measure, MeasureKind, WeightedScore};

verus! {

/// The fixed-point representation of the score 1.0; scores range over
/// `0..=SCORE_ONE`.
pub const SCORE_ONE: u64 = 10_000;

/// A score between 0 and [`SCORE_ONE`], expressing how desirable a candidate
/// behavior currently is.
#[derive(Clone, Copy, PartialEq, Eq, Structural, Debug)]
pub struct Score(pub u64);

impl Score {
    /// True of a score inside the unit interval.
    pub open spec fn is_valid(self) -> bool {
        self.0 <= SCORE_ONE
    }

    /// Returns the score's current value.
    pub fn get(&self) -> (v: u64)
        ensures
            v == self.0,
    {
        self.0
    }

    /// Sets the score's value; the value must lie inside the unit interval.
    pub fn set(&mut self, value: u64)
        requires
            value <= SCORE_ONE,
        ensures
            final(self).0 == value,
    {
        self.0 = value;
    }

    /// Sets the score's value without the unit-interval bound. Composite
    /// scorers are much harder to write against scores outside a fixed
    /// scale; prefer [`Score::set`].
    pub fn set_unchecked(&mut self, value: u64)
        ensures
            final(self).0 == value,
    {
        self.0 = value;
    }
}

/// What a scorer node is: a leaf producing a score, or a composite combining
/// its children's scores.
pub enum ScorerKind {
    /// Always scores the minimal positive score, 1; for default behaviors.
    Idle,
    /// Always scores the same fixed value.
    Fixed(u64),
    /// A leaf fed by the application under a tag.
    Input(u64),
    /// The sum of the children, if every child reaches the threshold; else 0.
    AllOrNothing(u64),
    /// The sum of the children, if the total reaches the threshold; else 0.
    SumOfScorers(u64),
    /// The product of the children, if it reaches the threshold; else 0.
    ProductOfScorers(u64),
    /// The product of the children, compensated for the child count, if it
    /// reaches the threshold; else 0.
    CompensatedProductOfScorers(u64),
    /// The largest child score, if it reaches the threshold; else 0.
    WinningScorer(u64),
    /// A measure over the weighted children, if it reaches the threshold;
    /// else 0.
    Measured(u64, MeasureKind, Vec<u64>),
    /// Its single child's score, reshaped through a linear curve.
    Evaluating(Linear),
}

/// A scorer node: what it is, its current score, and its owned children.
pub struct Scorer {
    pub kind: ScorerKind,
    pub score: Score,
    pub children: Vec<Scorer>,
}

/// The mathematical model of a [`ScorerKind`].
pub enum ScorerKindView {
    Idle,
    Fixed(u64),
    Input(u64),
    AllOrNothing(u64),
    SumOfScorers(u64),
    ProductOfScorers(u64),
    CompensatedProductOfScorers(u64),
    WinningScorer(u64),
    Measured(u64, MeasureKind, Seq<u64>),
    Evaluating(Linear),
}

/// The mathematical model of a scorer tree.
pub struct ScorerView {
    pub kind: ScorerKindView,
    pub score: u64,
    pub children: Seq<ScorerView>,
}

/// The model of a scorer node's kind.
pub open spec fn kind_view(k: ScorerKind) -> ScorerKindView {
    match k {
        ScorerKind::Idle => ScorerKindView::Idle,
        ScorerKind::Fixed(v) => ScorerKindView::Fixed(v),
        ScorerKind::Input(tag) => ScorerKindView::Input(tag),
        ScorerKind::AllOrNothing(th) => ScorerKindView::AllOrNothing(th),
        ScorerKind::SumOfScorers(th) => ScorerKindView::SumOfScorers(th),
        ScorerKind::ProductOfScorers(th) => ScorerKindView::ProductOfScorers(th),
        ScorerKind::CompensatedProductOfScorers(th) => ScorerKindView::CompensatedProductOfScorers(
            th,
        ),
        ScorerKind::WinningScorer(th) => ScorerKindView::WinningScorer(th),
        ScorerKind::Measured(th, m, ws) => ScorerKindView::Measured(th, m, ws@),
        ScorerKind::Evaluating(l) => ScorerKindView::Evaluating(l),
    }
}

impl View for ScorerKind {
    type V = ScorerKindView;

    open spec fn view(&self) -> ScorerKindView {
        kind_view(*self)
    }
}

/// The model of a scorer node, as a [`ScorerView`].
pub open spec fn scorer_view(s: Scorer) -> ScorerView
    decreases s,
    via scorer_view_decreases
{
    ScorerView { kind: kind_view(s.kind), score: s.score.0, children: scorer_views(s.children@) }
}

/// The models of a sequence of scorer nodes, element by element.
pub open spec fn scorer_views(cs: Seq<Scorer>) -> Seq<ScorerView>
    decreases cs,
{
    if cs.len() == 0 {
        Seq::empty()
    } else {
        scorer_views(cs.drop_last()).push(scorer_view(cs.last()))
    }
}

#[via_fn]
proof fn scorer_view_decreases(s: Scorer) {
    assert(decreases_to!(s => s.children));
    assert(decreases_to!(s.children => s.children@));
}

/// `scorer_views` maps `scorer_view` over the sequence, element by element.
pub proof fn lemma_scorer_views(cs: Seq<Scorer>)
    ensures
        scorer_views(cs).len() == cs.len(),
        forall|i: int| 0 <= i < cs.len() ==> scorer_views(cs)[i] == scorer_view(cs[i]),
    decreases cs.len(),
{
    if cs.len() > 0 {
        lemma_scorer_views(cs.drop_last());
    }
}

impl View for Scorer {
    type V = ScorerView;

    open spec fn view(&self) -> ScorerView {
        scorer_view(*self)
    }
}

/// Per-kind structural constraints: leaves have no children, a fixed score
/// is a valid fraction, a measured scorer has one weight per child and a
/// machine-bounded child count (the weights themselves are unconstrained),
/// an evaluating scorer has exactly one child and a usable curve.
pub open spec fn kind_wf(kind: ScorerKindView, n_children: int) -> bool {
    match kind {
        ScorerKindView::Idle => n_children == 0,
        ScorerKindView::Input(_) => n_children == 0,
        ScorerKindView::Fixed(v) => v <= SCORE_ONE && n_children == 0,
        ScorerKindView::Measured(_, _, ws) => {
            &&& ws.len() == n_children
            &&& measure_len_ok(n_children)
        },
        ScorerKindView::Evaluating(l) => n_children == 1 && linear_wf(l),
        _ => true,
    }
}

/// Well-formedness of a scorer tree: every score is a valid fraction and
/// every node satisfies its kind's structural constraints.
pub open spec fn scorer_wf(s: ScorerView) -> bool
    decreases s,
{
    &&& s.score <= SCORE_ONE
    &&& kind_wf(s.kind, s.children.len() as int)
    &&& scorers_wf(s.children)
}

/// Well-formedness of a sequence of scorer trees, element by element.
pub open spec fn scorers_wf(cs: Seq<ScorerView>) -> bool
    decreases cs,
{
    if cs.len() == 0 {
        true
    } else {
        scorers_wf(cs.drop_last()) && scorer_wf(cs.last())
    }
}

/// `scorers_wf` holds exactly when every element is well-formed.
pub proof fn lemma_scorers_wf(cs: Seq<ScorerView>)
    ensures
        scorers_wf(cs) <==> (forall|i: int| 0 <= i < cs.len() ==> scorer_wf(#[trigger] cs[i])),
    decreases cs.len(),
{
    if cs.len() > 0 {
        lemma_scorers_wf(cs.drop_last());
        if scorers_wf(cs) {
            assert forall|i: int| 0 <= i < cs.len() implies scorer_wf(#[trigger] cs[i]) by {
                if i < cs.len() - 1 {
                    assert(cs.drop_last()[i] == cs[i]);
                }
            }
        } else {
            if forall|i: int| 0 <= i < cs.len() ==> scorer_wf(#[trigger] cs[i]) {
                assert forall|i: int|
                    0 <= i < cs.drop_last().len() implies scorer_wf(
                    #[trigger] cs.drop_last()[i]) by {
                    assert(cs.drop_last()[i] == cs[i]);
                }
                assert(scorer_wf(cs.last()));
                assert(false);
            }
        }
    }
}

// ------------------------------------------------------------ combine specs

/// Clamps an exact value into the unit interval.
pub open spec fn clamp_one(v: int) -> u64 {
    if v >= SCORE_ONE {
        SCORE_ONE
    } else if v <= 0 {
        0
    } else {
        v as u64
    }
}

/// The exact sum of a list of scores.
pub open spec fn spec_sum(scores: Seq<u64>) -> int
    decreases scores,
{
    if scores.len() == 0 {
        0
    } else {
        spec_sum(scores.drop_last()) + scores.last()
    }
}

/// The fixed-point product of a list of scores, folded left starting from 1.
pub open spec fn spec_product(scores: Seq<u64>) -> int
    decreases scores,
{
    if scores.len() == 0 {
        SCORE_ONE as int
    } else {
        spec_product(scores.drop_last()) * scores.last() / (SCORE_ONE as int)
    }
}

/// The largest of a list of scores, or 0 if there is none.
pub open spec fn spec_max(scores: Seq<u64>) -> int
    decreases scores,
{
    if scores.len() == 0 {
        0
    } else {
        let rest = spec_max(scores.drop_last());
        if scores.last() > rest {
            scores.last() as int
        } else {
            rest
        }
    }
}

/// All-or-nothing: the clamped sum of the children, or 0 as soon as any
/// child scores under the threshold.
pub open spec fn aon_score(threshold: u64, scores: Seq<u64>) -> u64 {
    if exists|i: int| 0 <= i < scores.len() && #[trigger] scores[i] < threshold {
        0
    } else {
        clamp_one(spec_sum(scores))
    }
}

/// Sum-of-scorers: the clamped sum of the children, or 0 when the total
/// stays under the threshold.
pub open spec fn sum_score(threshold: u64, scores: Seq<u64>) -> u64 {
    if spec_sum(scores) < threshold {
        0
    } else {
        clamp_one(spec_sum(scores))
    }
}

/// Product-of-scorers: the clamped fixed-point product of the children, or 0
/// when it stays under the threshold.
pub open spec fn product_score(threshold: u64, scores: Seq<u64>) -> u64 {
    if spec_product(scores) < threshold {
        0
    } else {
        clamp_one(spec_product(scores))
    }
}

/// The compensated product: while the raw product is under 1, it is pulled
/// back up by `(1 - product) * (1 - 1/n) * product`, damping the decay a
/// long child list forces on a plain product.
pub open spec fn compensated(p: int, n: int) -> int {
    if p < SCORE_ONE {
        let mod_factor = SCORE_ONE - (SCORE_ONE as int) / n;
        let makeup = (SCORE_ONE - p) * mod_factor / (SCORE_ONE as int);
        p + makeup * p / (SCORE_ONE as int)
    } else {
        p
    }
}

/// Compensated-product-of-scorers: the compensated product, thresholded and
/// clamped.
pub open spec fn compensated_score(threshold: u64, scores: Seq<u64>) -> u64 {
    let p = compensated(spec_product(scores), scores.len() as int);
    if p < threshold {
        0
    } else {
        clamp_one(p)
    }
}

/// Winning-scorer: the largest child score, or 0 when even it stays under
/// the threshold.
pub open spec fn winning_score(threshold: u64, scores: Seq<u64>) -> u64 {
    if spec_max(scores) >= threshold {
        clamp_one(spec_max(scores))
    } else {
        0
    }
}

/// The children's scores paired with their configured weights.
pub open spec fn weighted_of(scores: Seq<u64>, weights: Seq<u64>) -> Seq<WeightedScore> {
    Seq::new(scores.len(), |i: int| WeightedScore { score: scores[i], weight: weights[i] })
}

/// Measured scorer: the measure over the weighted children, thresholded and
/// clamped.
pub open spec fn measured_score(
    threshold: u64,
    m: MeasureKind,
    weights: Seq<u64>,
    scores: Seq<u64>,
) -> u64 {
    let v = spec_measure(m, weighted_of(scores, weights));
    if v >= threshold {
        clamp_one(v)
    } else {
        0
    }
}

/// The score a node's kind assigns to it, from its children's fresh scores
/// and its own previous score (which only input leaves keep).
pub open spec fn combined(kind: ScorerKindView, scores: Seq<u64>, own: u64) -> u64 {
    match kind {
        ScorerKindView::Idle => 1,
        ScorerKindView::Fixed(v) => v,
        ScorerKindView::Input(_) => own,
        ScorerKindView::AllOrNothing(th) => aon_score(th, scores),
        ScorerKindView::SumOfScorers(th) => sum_score(th, scores),
        ScorerKindView::ProductOfScorers(th) => product_score(th, scores),
        ScorerKindView::CompensatedProductOfScorers(th) => compensated_score(th, scores),
        ScorerKindView::WinningScorer(th) => winning_score(th, scores),
        ScorerKindView::Measured(th, m, ws) => measured_score(th, m, ws, scores),
        ScorerKindView::Evaluating(l) => if scores.len() > 0 {
            clamp_one(linear_eval_spec(l, scores[0]))
        } else {
            0
        },
    }
}

/// The children's scores, in order.
pub open spec fn scores_of(cs: Seq<ScorerView>) -> Seq<u64> {
    Seq::new(cs.len(), |i: int| cs[i].score)
}

/// One scorer pass over a tree: children are evaluated first (leaves keep
/// the score the application last fed them), then each composite combines
/// its children's fresh scores.
pub open spec fn evaluated(s: ScorerView) -> ScorerView
    decreases s,
{
    let cs = evaluated_children(s.children);
    ScorerView { kind: s.kind, score: combined(s.kind, scores_of(cs), s.score), children: cs }
}

/// The scorer pass applied to each tree of a sequence, element by element.
pub open spec fn evaluated_children(cs: Seq<ScorerView>) -> Seq<ScorerView>
    decreases cs,
{
    if cs.len() == 0 {
        Seq::empty()
    } else {
        evaluated_children(cs.drop_last()).push(evaluated(cs.last()))
    }
}

/// `evaluated_children` maps `evaluated` over the sequence.
pub proof fn lemma_evaluated_children(cs: Seq<ScorerView>)
    ensures
        evaluated_children(cs).len() == cs.len(),
        forall|i: int| 0 <= i < cs.len() ==> evaluated_children(cs)[i] == evaluated(cs[i]),
    decreases cs.len(),
{
    if cs.len() > 0 {
        lemma_evaluated_children(cs.drop_last());
    }
}

/// Score bound: after a scorer pass every node's score lies inside the unit
/// interval again, whatever the children scored and however the weights are
/// configured (a zero total weight included), and the tree stays
/// well-formed.
pub proof fn lemma_score_bound(s: ScorerView)
    requires
        scorer_wf(s),
    ensures
        scorer_wf(evaluated(s)),
        evaluated(s).score <= SCORE_ONE,
    decreases s,
{
    lemma_scorers_wf(s.children);
    lemma_children_score_bound(s.children);
    lemma_evaluated_children(s.children);
    let cs = evaluated_children(s.children);
    lemma_scorers_wf(cs);
}

/// The scorer pass keeps every tree of a well-formed list well-formed.
pub proof fn lemma_children_score_bound(cs: Seq<ScorerView>)
    requires
        scorers_wf(cs),
    ensures
        scorers_wf(evaluated_children(cs)),
    decreases cs,
{
    if cs.len() > 0 {
        lemma_children_score_bound(cs.drop_last());
        lemma_score_bound(cs.last());
        assert(evaluated_children(cs).drop_last() =~= evaluated_children(cs.drop_last()));
    }
}

// ------------------------------------------------------------- score bounds

/// The exact sum of valid scores grows by at most `SCORE_ONE` per element.
pub proof fn lemma_spec_sum_bound(scores: Seq<u64>)
    requires
        forall|i: int| 0 <= i < scores.len() ==> #[trigger] scores[i] <= SCORE_ONE,
    ensures
        0 <= spec_sum(scores) <= scores.len() * SCORE_ONE,
    decreases scores,
{
    if scores.len() > 0 {
        assert(forall|i: int|
            0 <= i < scores.drop_last().len() ==> #[trigger] scores.drop_last()[i] <= SCORE_ONE);
        lemma_spec_sum_bound(scores.drop_last());
        assert((scores.len() - 1) * SCORE_ONE + SCORE_ONE == scores.len() * SCORE_ONE) by (
        nonlinear_arith);
    }
}

/// The fixed-point product of valid scores stays inside the unit interval.
pub proof fn lemma_spec_product_bound(scores: Seq<u64>)
    requires
        forall|i: int| 0 <= i < scores.len() ==> #[trigger] scores[i] <= SCORE_ONE,
    ensures
        0 <= spec_product(scores) <= SCORE_ONE,
    decreases scores,
{
    if scores.len() > 0 {
        assert(forall|i: int|
            0 <= i < scores.drop_last().len() ==> #[trigger] scores.drop_last()[i] <= SCORE_ONE);
        lemma_spec_product_bound(scores.drop_last());
        let p = spec_product(scores.drop_last());
        let t = scores.last() as int;
        assert(p * t <= SCORE_ONE * SCORE_ONE) by (nonlinear_arith)
            requires
                0 <= p <= SCORE_ONE,
                0 <= t <= SCORE_ONE,
        ;
        vstd::arithmetic::div_mod::lemma_div_is_ordered(
            p * t,
            SCORE_ONE * SCORE_ONE,
            SCORE_ONE as int,
        );
        vstd::arithmetic::div_mod::lemma_div_pos_is_pos(p * t, SCORE_ONE as int);
    }
}

// ----------------------------------------------------------- scoring rules

/// All scores of the list are valid fixed-point fractions.
pub open spec fn scores_valid(scores: Seq<u64>) -> bool {
    forall|i: int| 0 <= i < scores.len() ==> #[trigger] scores[i] <= SCORE_ONE
}

/// Clamps an exact non-negative value held in a wide accumulator.
fn clamp_u128(v: u128) -> (r: u64)
    ensures
        r == clamp_one(v as int),
{
    if v >= (SCORE_ONE as u128) {
        SCORE_ONE
    } else {
        v as u64
    }
}

/// The sum of the scores, exactly, in a wide accumulator.
fn sum_scores(scores: &Vec<u64>) -> (r: u128)
    requires
        scores_valid(scores@),
    ensures
        r as int == spec_sum(scores@),
{
    let mut sum: u128 = 0;
    let n = scores.len();
    let mut i: usize = 0;
    while i < n
        invariant
            n == scores@.len(),
            i <= n,
            scores_valid(scores@),
            sum as int == spec_sum(scores@.take(i as int)),
            sum as int <= i * SCORE_ONE,
        decreases n - i,
    {
        proof {
            assert(scores@.take(i + 1).drop_last() =~= scores@.take(i as int));
            assert(scores@.take(i + 1).last() == scores@[i as int]);
            assert(i * SCORE_ONE + SCORE_ONE == (i + 1) * SCORE_ONE) by (nonlinear_arith);
            assert((i + 1) * SCORE_ONE <= 0xFFFF_FFFF_FFFF_FFFFu64 * SCORE_ONE) by (
            nonlinear_arith)
                requires
                    i + 1 <= 0xFFFF_FFFF_FFFF_FFFFu64,
            ;
        }
        sum = sum + (scores[i] as u128);
        i += 1;
    }
    proof {
        assert(scores@.take(n as int) =~= scores@);
    }
    sum
}

/// All-or-nothing: the clamped sum of the scores, or 0 as soon as any score
/// is under the threshold.
pub fn all_or_nothing_score(threshold: u64, scores: &Vec<u64>) -> (r: u64)
    requires
        scores_valid(scores@),
    ensures
        r == aon_score(threshold, scores@),
        r <= SCORE_ONE,
{
    let n = scores.len();
    let mut i: usize = 0;
    while i < n
        invariant
            n == scores@.len(),
            i <= n,
            scores_valid(scores@),
            forall|j: int| 0 <= j < i ==> !(#[trigger] scores@[j] < threshold),
        decreases n - i,
    {
        if scores[i] < threshold {
            return 0;
        }
        i += 1;
    }
    let sum = sum_scores(scores);
    proof {
        lemma_spec_sum_bound(scores@);
    }
    clamp_u128(sum)
}

/// Sum-of-scorers: the clamped sum of the scores, or 0 when the total stays
/// under the threshold.
pub fn sum_of_scorers_score(threshold: u64, scores: &Vec<u64>) -> (r: u64)
    requires
        scores_valid(scores@),
    ensures
        r == sum_score(threshold, scores@),
        r <= SCORE_ONE,
{
    let sum = sum_scores(scores);
    proof {
        lemma_spec_sum_bound(scores@);
    }
    if sum < (threshold as u128) {
        0
    } else {
        clamp_u128(sum)
    }
}

/// The fixed-point product of the scores, folded left starting from 1.
fn product_scores(scores: &Vec<u64>) -> (r: u64)
    requires
        scores_valid(scores@),
    ensures
        r as int == spec_product(scores@),
        r <= SCORE_ONE,
{
    let mut p: u64 = SCORE_ONE;
    let n = scores.len();
    let mut i: usize = 0;
    while i < n
        invariant
            n == scores@.len(),
            i <= n,
            scores_valid(scores@),
            p as int == spec_product(scores@.take(i as int)),
            p <= SCORE_ONE,
        decreases n - i,
    {
        proof {
            assert(scores@.take(i + 1).drop_last() =~= scores@.take(i as int));
            assert(scores@.take(i + 1).last() == scores@[i as int]);
            assert(scores_valid(scores@.take(i + 1)));
            lemma_spec_product_bound(scores@.take(i + 1));
            assert(p * scores@[i as int] <= SCORE_ONE * SCORE_ONE) by (nonlinear_arith)
                requires
                    p <= SCORE_ONE,
                    scores@[i as int] <= SCORE_ONE,
            ;
        }
        p = p * scores[i] / SCORE_ONE;
        i += 1;
    }
    proof {
        assert(scores@.take(n as int) =~= scores@);
    }
    p
}

/// Product-of-scorers: the clamped fixed-point product, or 0 when it stays
/// under the threshold.
pub fn product_of_scorers_score(threshold: u64, scores: &Vec<u64>) -> (r: u64)
    requires
        scores_valid(scores@),
    ensures
        r == product_score(threshold, scores@),
        r <= SCORE_ONE,
{
    let p = product_scores(scores);
    if p < threshold {
        0
    } else {
        p
    }
}

/// Compensated-product-of-scorers: the product compensated for the child
/// count, thresholded and clamped.
pub fn compensated_product_of_scorers_score(threshold: u64, scores: &Vec<u64>) -> (r: u64)
    requires
        scores_valid(scores@),
    ensures
        r == compensated_score(threshold, scores@),
        r <= SCORE_ONE,
{
    let p = product_scores(scores);
    let mut value = p;
    if p < SCORE_ONE {
        proof {
            if scores@.len() == 0 {
                assert(spec_product(scores@) == SCORE_ONE);
            }
        }
        let nf = scores.len() as u64;
        let mod_factor = SCORE_ONE - SCORE_ONE / nf;
        proof {
            vstd::arithmetic::div_mod::lemma_div_pos_is_pos(SCORE_ONE as int, nf as int);
            vstd::arithmetic::div_mod::lemma_div_is_ordered(0, SCORE_ONE as int, nf as int);
            assert((SCORE_ONE - p) * mod_factor <= SCORE_ONE * SCORE_ONE) by (nonlinear_arith)
                requires
                    SCORE_ONE - p <= SCORE_ONE,
                    mod_factor <= SCORE_ONE,
                    0 <= SCORE_ONE - p,
                    0 <= mod_factor,
            ;
            vstd::arithmetic::div_mod::lemma_div_is_ordered(
                (SCORE_ONE - p) as int * mod_factor as int,
                SCORE_ONE * SCORE_ONE,
                SCORE_ONE as int,
            );
            vstd::arithmetic::div_mod::lemma_div_pos_is_pos(
                (SCORE_ONE - p) as int * mod_factor as int,
                SCORE_ONE as int,
            );
        }
        let makeup = (SCORE_ONE - p) * mod_factor / SCORE_ONE;
        proof {
            assert(makeup * p <= SCORE_ONE * SCORE_ONE) by (nonlinear_arith)
                requires
                    makeup <= SCORE_ONE,
                    p <= SCORE_ONE,
            ;
            vstd::arithmetic::div_mod::lemma_div_is_ordered(
                makeup as int * p as int,
                SCORE_ONE * SCORE_ONE,
                SCORE_ONE as int,
            );
            vstd::arithmetic::div_mod::lemma_div_pos_is_pos(
                makeup as int * p as int,
                SCORE_ONE as int,
            );
        }
        value = p + makeup * p / SCORE_ONE;
    }
    if value < threshold {
        0
    } else {
        if value >= SCORE_ONE {
            SCORE_ONE
        } else {
            value
        }
    }
}

/// Winning-scorer: the largest score, or 0 when even it stays under the
/// threshold.
pub fn winning_scorer_score(threshold: u64, scores: &Vec<u64>) -> (r: u64)
    requires
        scores_valid(scores@),
    ensures
        r == winning_score(threshold, scores@),
        r <= SCORE_ONE,
{
    let mut best: u64 = 0;
    let n = scores.len();
    let mut i: usize = 0;
    while i < n
        invariant
            n == scores@.len(),
            i <= n,
            scores_valid(scores@),
            best as int == spec_max(scores@.take(i as int)),
            best <= SCORE_ONE,
        decreases n - i,
    {
        proof {
            assert(scores@.take(i + 1).drop_last() =~= scores@.take(i as int));
            assert(scores@.take(i + 1).last() == scores@[i as int]);
        }
        if scores[i] > best {
            best = scores[i];
        }
        i += 1;
    }
    proof {
        assert(scores@.take(n as int) =~= scores@);
    }
    if best >= threshold {
        best
    } else {
        0
    }
}

/// Measured scorer: the configured measure over the weighted scores,
/// thresholded and clamped.
pub fn measured_scorers_score(
    threshold: u64,
    measure: MeasureKind,
    weights: &Vec<u64>,
    scores: &Vec<u64>,
) -> (r: u64)
    requires
        scores_valid(scores@),
        weights@.len() == scores@.len(),
        measure_len_ok(scores@.len() as int),
    ensures
        r == measured_score(threshold, measure, weights@, scores@),
        r <= SCORE_ONE,
{
    let n = scores.len();
    let mut pairs: Vec<WeightedScore> = Vec::new();
    let mut i: usize = 0;
    while i < n
        invariant
            n == scores@.len(),
            n == weights@.len(),
            i <= n,
            pairs@.len() == i,
            forall|j: int|
                0 <= j < i ==> #[trigger] pairs@[j] == (WeightedScore {
                    score: scores@[j],
                    weight: weights@[j],
                }),
        decreases n - i,
    {
        pairs.push(WeightedScore { score: scores[i], weight: weights[i] });
        i += 1;
    }
    proof {
        assert(pairs@ =~= weighted_of(scores@, weights@));
    }
    let v = match measure {
        MeasureKind::WeightedSum => crate::measures::weighted_sum(&pairs),
        MeasureKind::WeightedProduct => crate::measures::weighted_product(&pairs),
        MeasureKind::Chebyshev => crate::measures::chebyshev_distance(&pairs),
        MeasureKind::WeightedMeasure => crate::measures::weighted_measure(&pairs),
    };
    if v >= threshold {
        if v >= SCORE_ONE {
            SCORE_ONE
        } else {
            v
        }
    } else {
        0
    }
}

/// The score a node's kind assigns to it, from its children's fresh scores
/// and its own previous one.
fn combine(kind: &ScorerKind, scores: &Vec<u64>, own: u64) -> (v: u64)
    requires
        kind_wf(kind@, scores@.len() as int),
        scores_valid(scores@),
        own <= SCORE_ONE,
    ensures
        v == combined(kind@, scores@, own),
        v <= SCORE_ONE,
{
    match kind {
        ScorerKind::Idle => 1,
        ScorerKind::Fixed(v) => *v,
        ScorerKind::Input(_) => own,
        ScorerKind::AllOrNothing(th) => all_or_nothing_score(*th, scores),
        ScorerKind::SumOfScorers(th) => sum_of_scorers_score(*th, scores),
        ScorerKind::ProductOfScorers(th) => product_of_scorers_score(*th, scores),
        ScorerKind::CompensatedProductOfScorers(th) => compensated_product_of_scorers_score(
            *th,
            scores,
        ),
        ScorerKind::WinningScorer(th) => winning_scorer_score(*th, scores),
        ScorerKind::Measured(th, mk, ws) => measured_scorers_score(*th, *mk, ws, scores),
        ScorerKind::Evaluating(l) => {
            let r = l.eval(scores[0]);
            r
        }
    }
}

// -------------------------------------------------------------- implementation

/// Clones a scorer node's kind; the clone has the same model.
fn clone_kind(k: &ScorerKind) -> (r: ScorerKind)
    ensures
        r@ == k@,
{
    match k {
        ScorerKind::Idle => ScorerKind::Idle,
        ScorerKind::Fixed(v) => ScorerKind::Fixed(*v),
        ScorerKind::Input(tag) => ScorerKind::Input(*tag),
        ScorerKind::AllOrNothing(th) => ScorerKind::AllOrNothing(*th),
        ScorerKind::SumOfScorers(th) => ScorerKind::SumOfScorers(*th),
        ScorerKind::ProductOfScorers(th) => ScorerKind::ProductOfScorers(*th),
        ScorerKind::CompensatedProductOfScorers(th) => ScorerKind::CompensatedProductOfScorers(
            *th,
        ),
        ScorerKind::WinningScorer(th) => ScorerKind::WinningScorer(*th),
        ScorerKind::Measured(th, m, ws) => {
            let mut rs: Vec<u64> = Vec::new();
            let n = ws.len();
            let mut i: usize = 0;
            while i < n
                invariant
                    n == ws@.len(),
                    i <= n,
                    rs@.len() == i,
                    forall|j: int| 0 <= j < i ==> #[trigger] rs@[j] == ws@[j],
                decreases n - i,
            {
                let w = ws[i];
                rs.push(w);
                i += 1;
            }
            proof {
                assert(rs@ =~= ws@);
            }
            ScorerKind::Measured(*th, *m, rs)
        }
        ScorerKind::Evaluating(l) => ScorerKind::Evaluating(*l),
    }
}

impl Clone for Scorer {
    /// Cloning a scorer tree preserves its model.
    fn clone(&self) -> (r: Self)
        ensures
            r@ == self@,
        decreases *self,
    {
        let kind = clone_kind(&self.kind);
        let mut rs: Vec<Scorer> = Vec::new();
        let n = self.children.len();
        let mut i: usize = 0;
        #[verifier::loop_isolation(false)]
        while i < n
            invariant
                i <= n,
                rs@.len() == i,
                forall|j: int| 0 <= j < i ==> (#[trigger] rs@[j])@ == self.children@[j]@,
            decreases n - i,
        {
            proof {
                assert(decreases_to!(*self => self.children));
                assert(decreases_to!(self.children => self.children@));
                assert(decreases_to!(self.children@ => self.children@[i as int]));
            }
            let c = (&self.children[i]).clone();
            rs.push(c);
            i += 1;
        }
        proof {
            lemma_scorer_views(rs@);
            lemma_scorer_views(self.children@);
            assert(scorer_views(rs@) =~= scorer_views(self.children@));
        }
        Scorer { kind, score: self.score, children: rs }
    }
}

impl Scorer {
    /// Runs one scorer pass over this tree and hands it back: children are
    /// evaluated before their parent, so every composite sees its children's
    /// fresh scores, and the result stays well-formed with every score in
    /// the unit interval.
    pub fn evaluate(self) -> (r: Scorer)
        requires
            scorer_wf(self@),
        ensures
            r@ == evaluated(self@),
            scorer_wf(r@),
        decreases self,
    {
        let ghost s0 = self;
        proof {
            lemma_score_bound(s0@);
        }
        let Scorer { kind, score, children } = self;
        let ghost cs0 = children@;
        let mut rest = children;
        let mut ticked: Vec<Scorer> = Vec::new();
        let mut child_scores: Vec<u64> = Vec::new();
        proof {
            lemma_scorer_views(cs0);
            lemma_scorers_wf(scorer_views(cs0));
            assert(rest@ =~= cs0.subrange(0, cs0.len() as int));
        }
        #[verifier::loop_isolation(false)]
        while rest.len() > 0
            invariant
                ticked@.len() + rest@.len() == cs0.len(),
                rest@ == cs0.subrange(ticked@.len() as int, cs0.len() as int),
                child_scores@.len() == ticked@.len(),
                forall|j: int|
                    0 <= j < ticked@.len() ==> (#[trigger] ticked@[j])@ == evaluated(cs0[j]@)
                        && scorer_wf(ticked@[j]@),
                forall|j: int|
                    0 <= j < ticked@.len() ==> #[trigger] child_scores@[j] == evaluated(
                        cs0[j]@,
                    ).score,
            decreases rest@.len(),
        {
            let ghost idx = ticked@.len() as int;
            let c = rest.remove(0);
            proof {
                assert(c == cs0[idx]);
                assert(rest@ =~= cs0.subrange(idx + 1, cs0.len() as int));
                assert(scorer_views(cs0)[idx] == cs0[idx]@);
                assert(decreases_to!(s0 => s0.children));
                assert(decreases_to!(s0.children => s0.children@));
                assert(decreases_to!(cs0 => cs0[idx]));
                assert(decreases_to!(s0 => c));
            }
            let t = c.evaluate();
            let sc = t.score.0;
            child_scores.push(sc);
            ticked.push(t);
        }
        let ghost avs = scorer_views(cs0);
        let ghost ecs = evaluated_children(avs);
        proof {
            lemma_scorer_views(ticked@);
            lemma_evaluated_children(avs);
            assert(scorer_views(ticked@) =~= ecs);
            assert(child_scores@ =~= scores_of(ecs));
            lemma_children_score_bound(avs);
            lemma_scorers_wf(ecs);
            assert forall|j: int|
                0 <= j < child_scores@.len() implies #[trigger] child_scores@[j]
                <= SCORE_ONE by {
                assert(scorer_wf(ecs[j]));
            }
        }
        let v = combine(&kind, &child_scores, score.0);
        Scorer { kind, score: Score(v), children: ticked }
    }
}

/// The same tree with every input leaf under `tag` rescored to `value`.
pub open spec fn with_input(s: ScorerView, tag: u64, value: u64) -> ScorerView
    decreases s,
{
    ScorerView {
        kind: s.kind,
        score: if s.kind matches ScorerKindView::Input(t) && t == tag {
            value
        } else {
            s.score
        },
        children: with_input_children(s.children, tag, value),
    }
}

/// `with_input` applied to each tree of a sequence, element by element.
pub open spec fn with_input_children(cs: Seq<ScorerView>, tag: u64, value: u64) -> Seq<ScorerView>
    decreases cs,
{
    if cs.len() == 0 {
        Seq::empty()
    } else {
        with_input_children(cs.drop_last(), tag, value).push(with_input(cs.last(), tag, value))
    }
}

/// `with_input_children` maps `with_input` over the sequence.
pub proof fn lemma_with_input_children(cs: Seq<ScorerView>, tag: u64, value: u64)
    ensures
        with_input_children(cs, tag, value).len() == cs.len(),
        forall|i: int|
            0 <= i < cs.len() ==> with_input_children(cs, tag, value)[i] == with_input(
                cs[i],
                tag,
                value,
            ),
    decreases cs.len(),
{
    if cs.len() > 0 {
        lemma_with_input_children(cs.drop_last(), tag, value);
    }
}

/// Feeding an input leaf a valid value keeps the tree well-formed.
pub proof fn lemma_with_input_wf(s: ScorerView, tag: u64, value: u64)
    requires
        scorer_wf(s),
        value <= SCORE_ONE,
    ensures
        scorer_wf(with_input(s, tag, value)),
    decreases s,
{
    lemma_with_input_children_wf(s.children, tag, value);
    lemma_with_input_children(s.children, tag, value);
}

/// Feeding input leaves keeps every tree of a well-formed list well-formed.
pub proof fn lemma_with_input_children_wf(cs: Seq<ScorerView>, tag: u64, value: u64)
    requires
        scorers_wf(cs),
        value <= SCORE_ONE,
    ensures
        scorers_wf(with_input_children(cs, tag, value)),
    decreases cs,
{
    if cs.len() > 0 {
        lemma_with_input_children_wf(cs.drop_last(), tag, value);
        lemma_with_input_wf(cs.last(), tag, value);
        assert(with_input_children(cs, tag, value).drop_last() =~= with_input_children(
            cs.drop_last(),
            tag,
            value,
        ));
    }
}

impl Scorer {
    /// Feeds `value` to every input leaf under `tag` and hands the tree
    /// back; everything else is untouched.
    pub fn set_input(self, tag: u64, value: u64) -> (r: Scorer)
        requires
            value <= SCORE_ONE,
        ensures
            r@ == with_input(self@, tag, value),
        decreases self,
    {
        let ghost s0 = self;
        let Scorer { kind, mut score, children } = self;
        if let ScorerKind::Input(t) = &kind {
            if *t == tag {
                score = Score(value);
            }
        }
        let ghost cs0 = children@;
        let mut rest = children;
        let mut fed: Vec<Scorer> = Vec::new();
        proof {
            lemma_scorer_views(cs0);
            assert(rest@ =~= cs0.subrange(0, cs0.len() as int));
        }
        #[verifier::loop_isolation(false)]
        while rest.len() > 0
            invariant
                fed@.len() + rest@.len() == cs0.len(),
                rest@ == cs0.subrange(fed@.len() as int, cs0.len() as int),
                forall|j: int|
                    0 <= j < fed@.len() ==> (#[trigger] fed@[j])@ == with_input(
                        cs0[j]@,
                        tag,
                        value,
                    ),
            decreases rest@.len(),
        {
            let ghost idx = fed@.len() as int;
            let c = rest.remove(0);
            proof {
                assert(c == cs0[idx]);
                assert(rest@ =~= cs0.subrange(idx + 1, cs0.len() as int));
                assert(decreases_to!(s0 => s0.children));
                assert(decreases_to!(s0.children => s0.children@));
                assert(decreases_to!(cs0 => cs0[idx]));
                assert(decreases_to!(s0 => c));
            }
            let t = c.set_input(tag, value);
            fed.push(t);
        }
        proof {
            lemma_scorer_views(fed@);
            lemma_with_input_children(scorer_views(cs0), tag, value);
            assert forall|j: int|
                0 <= j < fed@.len() implies scorer_views(fed@)[j] == with_input_children(
                scorer_views(cs0),
                tag,
                value,
            )[j] by {
                assert(scorer_views(cs0)[j] == cs0[j]@);
            }
            assert(scorer_views(fed@) =~= with_input_children(scorer_views(cs0), tag, value));
        }
        Scorer { kind, score, children: fed }
    }
}

// ------------------------------------------------------------------ builders

/// A freshly built scorer node with a zeroed score.
fn build_node(kind: ScorerKind, children: Vec<Scorer>) -> (s: Scorer)
    ensures
        s@ == (ScorerView {
            kind: kind_view(kind),
            score: 0,
            children: scorer_views(children@),
        }),
{
    Scorer { kind, score: Score(0), children }
}

/// Well-formedness of a list of scorer nodes, stated of the nodes.
pub open spec fn nodes_wf(cs: Seq<Scorer>) -> bool {
    forall|i: int| 0 <= i < cs.len() ==> scorer_wf((#[trigger] cs[i])@)
}

/// Scorer that always produces the minimal positive score; paired with a
/// fallback action it wins exactly when every other choice scores 0.
pub struct IdleScorer;

impl IdleScorer {
    /// A fresh idle scorer leaf.
    pub fn spawn(&self) -> (s: Scorer)
        ensures
            s@ == (ScorerView { kind: ScorerKindView::Idle, score: 0, children: Seq::empty() }),
            scorer_wf(s@),
    {
        build_node(ScorerKind::Idle, Vec::new())
    }
}

/// Scorer that always produces the same, fixed score.
pub struct FixedScorer(pub u64);

impl FixedScorer {
    /// A fresh fixed scorer leaf.
    pub fn spawn(&self) -> (s: Scorer)
        requires
            self.0 <= SCORE_ONE,
        ensures
            s@ == (ScorerView {
                kind: ScorerKindView::Fixed(self.0),
                score: 0,
                children: Seq::empty(),
            }),
            scorer_wf(s@),
    {
        build_node(ScorerKind::Fixed(self.0), Vec::new())
    }
}

/// Leaf scorer fed by the application: each tick, the application writes the
/// score it derived from the world under this leaf's tag.
pub struct InputScorer(pub u64);

impl InputScorer {
    /// A fresh input leaf under this tag.
    pub fn spawn(&self) -> (s: Scorer)
        ensures
            s@ == (ScorerView {
                kind: ScorerKindView::Input(self.0),
                score: 0,
                children: Seq::empty(),
            }),
            scorer_wf(s@),
    {
        build_node(ScorerKind::Input(self.0), Vec::new())
    }
}

/// Composite scorer that sums its children if each one reaches the
/// threshold, and scores 0 otherwise.
pub struct AllOrNothing;

impl AllOrNothing {
    /// A fresh all-or-nothing composite over `scorers`.
    pub fn build(threshold: u64, scorers: Vec<Scorer>) -> (s: Scorer)
        requires
            nodes_wf(scorers@),
        ensures
            s@ == (ScorerView {
                kind: ScorerKindView::AllOrNothing(threshold),
                score: 0,
                children: scorer_views(scorers@),
            }),
            scorer_wf(s@),
    {
        proof {
            lemma_scorer_views(scorers@);
            lemma_scorers_wf(scorer_views(scorers@));
        }
        build_node(ScorerKind::AllOrNothing(threshold), scorers)
    }
}

/// Composite scorer that sums its children if the total reaches the
/// threshold, and scores 0 otherwise.
pub struct SumOfScorers;

impl SumOfScorers {
    /// A fresh sum-of-scorers composite over `scorers`.
    pub fn build(threshold: u64, scorers: Vec<Scorer>) -> (s: Scorer)
        requires
            nodes_wf(scorers@),
        ensures
            s@ == (ScorerView {
                kind: ScorerKindView::SumOfScorers(threshold),
                score: 0,
                children: scorer_views(scorers@),
            }),
            scorer_wf(s@),
    {
        proof {
            lemma_scorer_views(scorers@);
            lemma_scorers_wf(scorer_views(scorers@));
        }
        build_node(ScorerKind::SumOfScorers(threshold), scorers)
    }
}

/// Composite scorer that multiplies its children and scores 0 when the
/// product stays under the threshold.
pub struct ProductOfScorers;

impl ProductOfScorers {
    /// A fresh product-of-scorers composite over `scorers`.
    pub fn build(threshold: u64, scorers: Vec<Scorer>) -> (s: Scorer)
        requires
            nodes_wf(scorers@),
        ensures
            s@ == (ScorerView {
                kind: ScorerKindView::ProductOfScorers(threshold),
                score: 0,
                children: scorer_views(scorers@),
            }),
            scorer_wf(s@),
    {
        proof {
            lemma_scorer_views(scorers@);
            lemma_scorers_wf(scorer_views(scorers@));
        }
        build_node(ScorerKind::ProductOfScorers(threshold), scorers)
    }
}

/// Composite scorer that multiplies its children, compensated for the child
/// count, and scores 0 when the result stays under the threshold.
pub struct CompensatedProductOfScorers;

impl CompensatedProductOfScorers {
    /// A fresh compensated-product composite over `scorers`.
    pub fn build(threshold: u64, scorers: Vec<Scorer>) -> (s: Scorer)
        requires
            nodes_wf(scorers@),
        ensures
            s@ == (ScorerView {
                kind: ScorerKindView::CompensatedProductOfScorers(threshold),
                score: 0,
                children: scorer_views(scorers@),
            }),
            scorer_wf(s@),
    {
        proof {
            lemma_scorer_views(scorers@);
            lemma_scorers_wf(scorer_views(scorers@));
        }
        build_node(ScorerKind::CompensatedProductOfScorers(threshold), scorers)
    }
}

/// Composite scorer that scores as its highest child if any child reaches
/// the threshold, and 0 otherwise.
pub struct WinningScorer;

impl WinningScorer {
    /// A fresh winning-scorer composite over `scorers`.
    pub fn build(threshold: u64, scorers: Vec<Scorer>) -> (s: Scorer)
        requires
            nodes_wf(scorers@),
        ensures
            s@ == (ScorerView {
                kind: ScorerKindView::WinningScorer(threshold),
                score: 0,
                children: scorer_views(scorers@),
            }),
            scorer_wf(s@),
    {
        proof {
            lemma_scorer_views(scorers@);
            lemma_scorers_wf(scorer_views(scorers@));
        }
        build_node(ScorerKind::WinningScorer(threshold), scorers)
    }
}

/// Composite scorer that combines its weighted children through a
/// configurable [`MeasureKind`].
pub struct MeasuredScorer;

impl MeasuredScorer {
    /// A fresh measured composite over weighted `scorers`, combining them
    /// through `measure`.
    pub fn custom(threshold: u64, measure: MeasureKind, scorers: Vec<(Scorer, u64)>) -> (s: Scorer)
        requires
            forall|i: int| 0 <= i < scorers@.len() ==> scorer_wf((#[trigger] scorers@[i]).0@),
            measure_len_ok(scorers@.len() as int),
        ensures
            s@ == (ScorerView {
                kind: ScorerKindView::Measured(
                    threshold,
                    measure,
                    Seq::new(scorers@.len(), |i: int| scorers@[i].1),
                ),
                score: 0,
                children: Seq::new(scorers@.len(), |i: int| scorers@[i].0@),
            }),
            scorer_wf(s@),
    {
        let mut children: Vec<Scorer> = Vec::new();
        let mut weights: Vec<u64> = Vec::new();
        let mut rest = scorers;
        let ghost ps = rest@;
        proof {
            assert(rest@ =~= ps.subrange(0, ps.len() as int));
        }
        #[verifier::loop_isolation(false)]
        while rest.len() > 0
            invariant
                children@.len() + rest@.len() == ps.len(),
                weights@.len() == children@.len(),
                rest@ == ps.subrange(children@.len() as int, ps.len() as int),
                forall|j: int|
                    0 <= j < children@.len() ==> (#[trigger] children@[j]) == ps[j].0
                        && weights@[j] == ps[j].1,
            decreases rest@.len(),
        {
            let ghost idx = children@.len() as int;
            let (c, w) = rest.remove(0);
            proof {
                assert((c, w) == ps[idx]);
                assert(rest@ =~= ps.subrange(idx + 1, ps.len() as int));
            }
            children.push(c);
            weights.push(w);
        }
        proof {
            lemma_scorer_views(children@);
            lemma_scorers_wf(scorer_views(children@));
            assert forall|j: int| 0 <= j < weights@.len() implies #[trigger] weights@[j]
                == ps[j].1 by {
                assert(children@[j] == ps[j].0);
            }
            assert(weights@ =~= Seq::new(ps.len(), |i: int| ps[i].1));
            assert(scorer_views(children@) =~= Seq::new(ps.len(), |i: int| ps[i].0@));
        }
        build_node(ScorerKind::Measured(threshold, measure, weights), children)
    }

    /// A fresh measured composite using the weighted sum.
    pub fn sum(threshold: u64, scorers: Vec<(Scorer, u64)>) -> (s: Scorer)
        requires
            forall|i: int| 0 <= i < scorers@.len() ==> scorer_wf((#[trigger] scorers@[i]).0@),
            measure_len_ok(scorers@.len() as int),
        ensures
            s@ == (ScorerView {
                kind: ScorerKindView::Measured(
                    threshold,
                    MeasureKind::WeightedSum,
                    Seq::new(scorers@.len(), |i: int| scorers@[i].1),
                ),
                score: 0,
                children: Seq::new(scorers@.len(), |i: int| scorers@[i].0@),
            }),
            scorer_wf(s@),
    {
        Self::custom(threshold, MeasureKind::WeightedSum, scorers)
    }

    /// A fresh measured composite using the weighted product.
    pub fn product(threshold: u64, scorers: Vec<(Scorer, u64)>) -> (s: Scorer)
        requires
            forall|i: int| 0 <= i < scorers@.len() ==> scorer_wf((#[trigger] scorers@[i]).0@),
            measure_len_ok(scorers@.len() as int),
        ensures
            s@ == (ScorerView {
                kind: ScorerKindView::Measured(
                    threshold,
                    MeasureKind::WeightedProduct,
                    Seq::new(scorers@.len(), |i: int| scorers@[i].1),
                ),
                score: 0,
                children: Seq::new(scorers@.len(), |i: int| scorers@[i].0@),
            }),
            scorer_wf(s@),
    {
        Self::custom(threshold, MeasureKind::WeightedProduct, scorers)
    }

    /// A fresh measured composite using the Chebyshev measure.
    pub fn chebyshev(threshold: u64, scorers: Vec<(Scorer, u64)>) -> (s: Scorer)
        requires
            forall|i: int| 0 <= i < scorers@.len() ==> scorer_wf((#[trigger] scorers@[i]).0@),
            measure_len_ok(scorers@.len() as int),
        ensures
            s@ == (ScorerView {
                kind: ScorerKindView::Measured(
                    threshold,
                    MeasureKind::Chebyshev,
                    Seq::new(scorers@.len(), |i: int| scorers@[i].1),
                ),
                score: 0,
                children: Seq::new(scorers@.len(), |i: int| scorers@[i].0@),
            }),
            scorer_wf(s@),
    {
        Self::custom(threshold, MeasureKind::Chebyshev, scorers)
    }

    /// A fresh measured composite using the normalized quadratic measure.
    pub fn measure(threshold: u64, scorers: Vec<(Scorer, u64)>) -> (s: Scorer)
        requires
            forall|i: int| 0 <= i < scorers@.len() ==> scorer_wf((#[trigger] scorers@[i]).0@),
            measure_len_ok(scorers@.len() as int),
        ensures
            s@ == (ScorerView {
                kind: ScorerKindView::Measured(
                    threshold,
                    MeasureKind::WeightedMeasure,
                    Seq::new(scorers@.len(), |i: int| scorers@[i].1),
                ),
                score: 0,
                children: Seq::new(scorers@.len(), |i: int| scorers@[i].0@),
            }),
            scorer_wf(s@),
    {
        Self::custom(threshold, MeasureKind::WeightedMeasure, scorers)
    }
}

/// Composite scorer that reshapes its single child's score through a linear
/// evaluator curve.
pub struct EvaluatingScorer;

impl EvaluatingScorer {
    /// A fresh evaluating composite over `scorer`.
    pub fn build(scorer: Scorer, evaluator: Linear) -> (s: Scorer)
        requires
            scorer_wf(scorer@),
            linear_wf(evaluator),
        ensures
            s@ == (ScorerView {
                kind: ScorerKindView::Evaluating(evaluator),
                score: 0,
                children: seq![scorer@],
            }),
            scorer_wf(s@),
    {
        let ghost sv = scorer@;
        let mut children: Vec<Scorer> = Vec::new();
        children.push(scorer);
        proof {
            lemma_scorer_views(children@);
            lemma_scorers_wf(scorer_views(children@));
            assert(scorer_views(children@) =~= seq![sv]);
        }
        build_node(ScorerKind::Evaluating(evaluator), children)
    }
}

} // verus!
