//! Pickers arbitrate: given the ordered list of choices and their current
//! scores, they select at most one winning choice.

use vstd::prelude::*;

use crate::action::{spawn_view, ActionSpawn, SpawnView};
use crate::scorer::{scorer_view, Score, Scorer, ScorerView};

verus! {

/// One candidate behavior: a score tree paired with the action template to
/// instantiate when the choice wins.
pub struct Choice {
    pub scorer: Scorer,
    pub action: ActionSpawn,
}

/// The mathematical model of a [`Choice`].
pub struct ChoiceView {
    pub scorer: ScorerView,
    pub action: SpawnView,
}

/// The model of a choice.
pub open spec fn choice_view(c: Choice) -> ChoiceView {
    ChoiceView { scorer: scorer_view(c.scorer), action: spawn_view(c.action) }
}

impl View for Choice {
    type V = ChoiceView;

    open spec fn view(&self) -> ChoiceView {
        choice_view(*self)
    }
}

impl Clone for Choice {
    /// Cloning a choice preserves its model.
    fn clone(&self) -> (r: Self)
        ensures
            r@ == self@,
    {
        Choice { scorer: self.scorer.clone(), action: self.action.clone() }
    }
}

impl Choice {
    /// The choice's current score: the root score of its score tree.
    pub fn calculate(&self) -> (s: Score)
        ensures
            s.0 == self@.scorer.score,
    {
        Score(self.scorer.score.0)
    }
}

/// The models of a sequence of choices, element by element.
pub open spec fn choice_views(cs: Seq<Choice>) -> Seq<ChoiceView>
    decreases cs,
{
    if cs.len() == 0 {
        Seq::empty()
    } else {
        choice_views(cs.drop_last()).push(choice_view(cs.last()))
    }
}

/// `choice_views` maps `choice_view` over the sequence, element by element.
pub proof fn lemma_choice_views(cs: Seq<Choice>)
    ensures
        choice_views(cs).len() == cs.len(),
        forall|i: int| 0 <= i < cs.len() ==> choice_views(cs)[i] == choice_view(cs[i]),
    decreases cs.len(),
{
    if cs.len() > 0 {
        lemma_choice_views(cs.drop_last());
    }
}

/// The choices' current scores, in list order.
pub open spec fn choice_scores(cs: Seq<ChoiceView>) -> Seq<u64> {
    Seq::new(cs.len(), |i: int| cs[i].scorer.score)
}

/// The first index (in list order) whose score is at or above the
/// threshold, or nothing when no score reaches it.
pub open spec fn first_to_score_pick(threshold: u64, scores: Seq<u64>) -> Option<int>
    decreases scores,
{
    if scores.len() == 0 {
        None
    } else {
        match first_to_score_pick(threshold, scores.drop_last()) {
            Some(k) => Some(k),
            None => if scores.last() >= threshold {
                Some(scores.len() - 1)
            } else {
                None
            },
        }
    }
}

/// The first index holding the strictly greatest score, provided that score
/// exceeds the threshold; ties keep the earlier index.
pub open spec fn highest_pick(threshold: u64, scores: Seq<u64>) -> Option<int>
    decreases scores,
{
    if scores.len() == 0 {
        None
    } else {
        let last_i = scores.len() - 1;
        match highest_pick(threshold, scores.drop_last()) {
            Some(k) => if scores[last_i] > scores[k] {
                Some(last_i)
            } else {
                Some(k)
            },
            None => if scores[last_i] > threshold {
                Some(last_i)
            } else {
                None
            },
        }
    }
}

/// What `first_to_score_pick` selects: the earliest choice at or above the
/// threshold, and nothing exactly when every score stays under it.
pub proof fn lemma_first_to_score_pick(threshold: u64, scores: Seq<u64>)
    ensures
        match first_to_score_pick(threshold, scores) {
            Some(i) => {
                &&& 0 <= i < scores.len()
                &&& scores[i] >= threshold
                &&& forall|j: int| 0 <= j < i ==> #[trigger] scores[j] < threshold
            },
            None => forall|j: int| 0 <= j < scores.len() ==> #[trigger] scores[j] < threshold,
        },
    decreases scores.len(),
{
    if scores.len() > 0 {
        lemma_first_to_score_pick(threshold, scores.drop_last());
        assert forall|j: int|
            0 <= j < scores.len() - 1 implies scores.drop_last()[j] == scores[j] by {}
    }
}

/// What `highest_pick` selects: the first index of the maximum, which must
/// exceed the threshold; nothing exactly when every score stays at or under
/// it.
pub proof fn lemma_highest_pick(threshold: u64, scores: Seq<u64>)
    ensures
        match highest_pick(threshold, scores) {
            Some(i) => {
                &&& 0 <= i < scores.len()
                &&& scores[i] > threshold
                &&& forall|j: int| 0 <= j < scores.len() ==> #[trigger] scores[j] <= scores[i]
                &&& forall|j: int| 0 <= j < i ==> #[trigger] scores[j] < scores[i]
            },
            None => forall|j: int| 0 <= j < scores.len() ==> #[trigger] scores[j] <= threshold,
        },
    decreases scores.len(),
{
    if scores.len() > 0 {
        lemma_highest_pick(threshold, scores.drop_last());
        assert forall|j: int|
            0 <= j < scores.len() - 1 implies scores.drop_last()[j] == scores[j] by {}
    }
}

/// Picker that selects the first choice (in list order) whose score is at
/// or above its threshold.
#[derive(Clone, Copy, PartialEq, Eq, Structural, Debug, Default)]
pub struct FirstToScore {
    pub threshold: u64,
}

impl FirstToScore {
    /// A first-to-score picker with the given threshold.
    pub fn new(threshold: u64) -> (p: FirstToScore)
        ensures
            p.threshold == threshold,
    {
        FirstToScore { threshold }
    }

    /// Picks the first choice whose score reaches the threshold.
    pub fn pick(&self, choices: &Vec<Choice>) -> (r: Option<usize>)
        ensures
            first_to_score_pick(self.threshold, choice_scores(choice_views(choices@))) == (match r {
                Some(i) => Some(i as int),
                None => None::<int>,
            }),
    {
        let ghost scores = choice_scores(choice_views(choices@));
        proof {
            lemma_choice_views(choices@);
        }
        let n = choices.len();
        let mut acc: Option<usize> = None;
        let mut i: usize = 0;
        while i < n
            invariant
                n == choices@.len(),
                i <= n,
                scores == choice_scores(choice_views(choices@)),
                scores.len() == n,
                forall|j: int| 0 <= j < n ==> #[trigger] scores[j] == choices@[j]@.scorer.score,
                first_to_score_pick(self.threshold, scores.take(i as int)) == (match acc {
                    Some(k) => Some(k as int),
                    None => None::<int>,
                }),
                acc matches Some(k) ==> k < i,
            decreases n - i,
        {
            proof {
                assert(scores.take(i + 1).drop_last() =~= scores.take(i as int));
                assert(scores.take(i + 1).last() == scores[i as int]);
            }
            let score = choices[i].calculate();
            if acc.is_none() && score.get() >= self.threshold {
                acc = Some(i);
            }
            i += 1;
        }
        proof {
            assert(scores.take(n as int) =~= scores);
        }
        acc
    }
}

/// Picker that selects the choice with the strictly greatest score over its
/// threshold; among equal maxima the earliest choice wins.
#[derive(Clone, Copy, PartialEq, Eq, Structural, Debug, Default)]
pub struct Highest {
    pub threshold: u64,
}

impl Highest {
    /// A highest picker with the given threshold.
    pub fn new(threshold: u64) -> (p: Highest)
        ensures
            p.threshold == threshold,
    {
        Highest { threshold }
    }

    /// Picks the first choice holding the greatest score, provided it
    /// exceeds the threshold.
    pub fn pick(&self, choices: &Vec<Choice>) -> (r: Option<usize>)
        ensures
            highest_pick(self.threshold, choice_scores(choice_views(choices@))) == (match r {
                Some(i) => Some(i as int),
                None => None::<int>,
            }),
    {
        let ghost scores = choice_scores(choice_views(choices@));
        proof {
            lemma_choice_views(choices@);
        }
        let n = choices.len();
        let mut acc: Option<usize> = None;
        let mut max_score: u64 = self.threshold;
        let mut i: usize = 0;
        while i < n
            invariant
                n == choices@.len(),
                i <= n,
                scores == choice_scores(choice_views(choices@)),
                scores.len() == n,
                forall|j: int| 0 <= j < n ==> #[trigger] scores[j] == choices@[j]@.scorer.score,
                highest_pick(self.threshold, scores.take(i as int)) == (match acc {
                    Some(k) => Some(k as int),
                    None => None::<int>,
                }),
                match acc {
                    Some(k) => k < i && max_score == scores[k as int],
                    None => max_score == self.threshold,
                },
            decreases n - i,
        {
            proof {
                assert(scores.take(i + 1).drop_last() =~= scores.take(i as int));
                assert(scores.take(i + 1).last() == scores[i as int]);
            }
            let score = choices[i].calculate();
            if score.get() > max_score {
                max_score = score.get();
                acc = Some(i);
            }
            i += 1;
        }
        proof {
            assert(scores.take(n as int) =~= scores);
        }
        acc
    }
}

/// An arbitration policy: one of the built-in pickers.
#[derive(Clone, Copy, PartialEq, Eq, Structural, Debug)]
pub enum Picker {
    /// Pick the first choice over the threshold.
    FirstToScore(FirstToScore),
    /// Pick the first choice holding the greatest score over the threshold.
    Highest(Highest),
}

/// The index a picker selects from a list of scores.
pub open spec fn picker_pick(p: Picker, scores: Seq<u64>) -> Option<int> {
    match p {
        Picker::FirstToScore(f) => first_to_score_pick(f.threshold, scores),
        Picker::Highest(h) => highest_pick(h.threshold, scores),
    }
}

impl Picker {
    /// Picks at most one winning choice from the list.
    pub fn pick(&self, choices: &Vec<Choice>) -> (r: Option<usize>)
        ensures
            picker_pick(*self, choice_scores(choice_views(choices@))) == (match r {
                Some(i) => Some(i as int),
                None => None::<int>,
            }),
    {
        match self {
            Picker::FirstToScore(f) => f.pick(choices),
            Picker::Highest(h) => h.pick(choices),
        }
    }
}

} // verus!
