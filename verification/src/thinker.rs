//! Thinkers are the per-agent orchestrator: they own the picker and the
//! choices, arbitrate once per tick, and drive at most one running action
//! subtree through the cancel-before-replace protocol.

use vstd::prelude::*;

use crate::action::{
    action_view, action_wf, lemma_spawn_wf, spawn_of, spawn_view, spawn_views, with_leaf_states,
    Action, ActionSpawn, ActionState, ActionView, SpawnView,
};
use crate::pickers::{
    choice_scores, choice_views, lemma_choice_views, picker_pick, Choice, ChoiceView,
    FirstToScore, Highest, Picker,
};
use crate::scorer::{evaluated, scorer_wf, with_input, Scorer};

verus! {

/// The agent a thinker and its nodes act on behalf of; a plain handle owned
/// by the surrounding application.
#[derive(Clone, Copy, PartialEq, Eq, Structural, Debug, Hash)]
pub struct Actor(pub u64);

impl Actor {
    /// The agent handle this back-reference names.
    pub fn entity(&self) -> (e: u64)
        ensures
            e == self.0,
    {
        self.0
    }
}

/// What put the currently running action into the thinker's slot: an
/// arbitrated choice (by index), the schedule queue, or the fallback
/// template. Two structurally equal templates in different choices stay
/// distinct, so re-picking the same choice is recognized without comparing
/// templates by value.
#[derive(Clone, Copy, PartialEq, Eq, Structural, Debug)]
pub enum CurrentSource {
    /// The picker selected the choice at this index.
    Picked(usize),
    /// The front of the schedule queue.
    Scheduled,
    /// The fallback ("otherwise") template.
    Otherwise,
}

/// The per-agent orchestrator: the picker, the candidate choices, an
/// optional fallback template, a queue of externally scheduled one-shot
/// templates, and the at most one running action subtree.
pub struct Thinker {
    pub actor: Actor,
    pub picker: Picker,
    pub choices: Vec<Choice>,
    pub otherwise: Option<ActionSpawn>,
    pub scheduled: Vec<ActionSpawn>,
    pub current: Option<(CurrentSource, Action)>,
}

/// The mathematical model of a [`Thinker`].
pub struct ThinkerView {
    pub actor: u64,
    pub picker: Picker,
    pub choices: Seq<ChoiceView>,
    pub otherwise: Option<SpawnView>,
    pub scheduled: Seq<SpawnView>,
    pub current: Option<(CurrentSource, ActionView)>,
}

/// The model of a thinker.
pub open spec fn thinker_view(t: Thinker) -> ThinkerView {
    ThinkerView {
        actor: t.actor.0,
        picker: t.picker,
        choices: choice_views(t.choices@),
        otherwise: match t.otherwise {
            Some(d) => Some(spawn_view(d)),
            None => None,
        },
        scheduled: spawn_views(t.scheduled@),
        current: match t.current {
            Some((src, a)) => Some((src, action_view(a))),
            None => None,
        },
    }
}

impl View for Thinker {
    type V = ThinkerView;

    open spec fn view(&self) -> ThinkerView {
        thinker_view(*self)
    }
}

/// Well-formedness of a thinker: every choice's score tree is well-formed,
/// the running action subtree (if any) is well-formed, and a picked source
/// names a real choice.
pub open spec fn thinker_wf(t: ThinkerView) -> bool {
    &&& forall|i: int| 0 <= i < t.choices.len() ==> scorer_wf((#[trigger] t.choices[i]).scorer)
    &&& t.current matches Some((_, a)) ==> action_wf(a)
    &&& t.current matches Some((CurrentSource::Picked(k), _)) ==> (k as int) < t.choices.len()
}

/// What the thinker would run next, and what drives that decision: a
/// non-empty schedule queue pre-empts arbitration, arbitration pre-empts the
/// fallback.
pub open spec fn desired(t: ThinkerView) -> Option<(CurrentSource, SpawnView)> {
    if t.scheduled.len() > 0 {
        Some((CurrentSource::Scheduled, t.scheduled[0]))
    } else {
        match picker_pick(t.picker, choice_scores(t.choices)) {
            Some(i) => Some((CurrentSource::Picked(i as usize), t.choices[i].action)),
            None => match t.otherwise {
                Some(d) => Some((CurrentSource::Otherwise, d)),
                None => None,
            },
        }
    }
}

/// Whether this tick's decision asks the running action to wind down: a
/// pending scheduled action always does; an arbitrated winner does when the
/// running action came from a different choice or from the fallback; the
/// fallback itself, or no decision, never does.
pub open spec fn wants_cancel(t: ThinkerView, src: CurrentSource) -> bool {
    if t.scheduled.len() > 0 {
        true
    } else {
        match (src, picker_pick(t.picker, choice_scores(t.choices))) {
            (CurrentSource::Picked(k), Some(i)) => i != k as int,
            (CurrentSource::Otherwise, Some(_)) => true,
            _ => false,
        }
    }
}

/// One thinker tick, as a function of the whole thinker state.
///
/// In order: a terminal running action is destroyed and its slot cleared; an
/// empty slot is filled by instantiating the desired template (popping it if
/// it was scheduled); a running, non-terminal action is asked to wind down
/// (`Executing` becomes `Cancelled`, a `Cancelled` action is left to finish)
/// when the decision calls for a different action — it is never replaced
/// while non-terminal, and re-picking the same choice leaves it untouched.
pub open spec fn think_of(t: ThinkerView) -> ThinkerView {
    let t1 = if t.current matches Some((_, a)) && a.state().done() {
        ThinkerView { current: None, ..t }
    } else {
        t
    };
    match t1.current {
        None => match desired(t1) {
            None => t1,
            Some((src, tmpl)) => ThinkerView {
                current: Some((src, spawn_of(tmpl))),
                scheduled: if src is Scheduled {
                    t1.scheduled.drop_first()
                } else {
                    t1.scheduled
                },
                ..t1
            },
        },
        Some((src, a)) => if wants_cancel(t1, src) {
            ThinkerView {
                current: Some(
                    (
                        src,
                        if a.state() is Executing {
                            a.with_state(ActionState::Cancelled)
                        } else {
                            a
                        },
                    ),
                ),
                ..t1
            }
        } else {
            t1
        },
    }
}

impl Thinker {
    /// Queues a one-shot action to run ahead of arbitration.
    pub fn schedule(&mut self, action: ActionSpawn)
        ensures
            final(self)@ == (ThinkerView {
                scheduled: old(self)@.scheduled.push(action@),
                ..old(self)@
            }),
    {
        let ghost a0 = action@;
        self.scheduled.push(action);
        proof {
            let t = self.scheduled@;
            assert(t.drop_last() =~= old(self).scheduled@);
            assert(t.last()@ == a0);
            assert(spawn_views(t) == spawn_views(old(self).scheduled@).push(a0));
        }
    }

    /// True while one-shot actions are queued.
    pub fn has_scheduled(&self) -> (r: bool)
        ensures
            r == (self@.scheduled.len() > 0),
    {
        proof {
            crate::action::lemma_spawn_views(self.scheduled@);
        }
        self.scheduled.len() > 0
    }

    /// The currently running action, if any.
    pub fn current(&self) -> (r: Option<&Action>)
        ensures
            match r {
                Some(a) => self@.current matches Some((_, av)) && a@ == av,
                None => self@.current is None,
            },
    {
        match &self.current {
            Some((_, a)) => Some(a),
            None => None,
        }
    }

    /// One reconciliation tick: destroys a finished action, instantiates the
    /// desired one into an empty slot, and otherwise drives the
    /// cancel-before-replace protocol.
    pub fn think(&mut self)
        requires
            thinker_wf(old(self)@),
        ensures
            final(self)@ == think_of(old(self)@),
            thinker_wf(final(self)@),
    {
        let ghost v0 = self@;
        proof {
            lemma_choice_views(self.choices@);
            crate::action::lemma_spawn_views(self.scheduled@);
        }
        let pick: Option<usize> = self.picker.pick(&self.choices);
        let cur = self.current.take();
        let mut slot_empty = true;
        match cur {
            None => {}
            Some((src, mut a)) => {
                if a.state.is_done() {
                    // The finished subtree is dropped here: destroying it
                    // before anything new may occupy the slot.
                } else {
                    let mut want = self.scheduled.len() > 0;
                    if !want {
                        want = match (src, pick) {
                            (CurrentSource::Picked(k), Some(i)) => i != k,
                            (CurrentSource::Otherwise, Some(_)) => true,
                            _ => false,
                        };
                    }
                    if want {
                        a.state.cancel_if_executing();
                    }
                    proof {
                        crate::action::lemma_action_view_with_state(
                            old(self).current->Some_0.1,
                            a.state,
                        );
                    }
                    self.current = Some((src, a));
                    slot_empty = false;
                }
            }
        }
        if slot_empty {
            if self.scheduled.len() > 0 {
                let tmpl = self.scheduled.remove(0);
                proof {
                    crate::action::lemma_spawn_views(old(self).scheduled@);
                    crate::action::lemma_spawn_views(self.scheduled@);
                    assert(spawn_views(self.scheduled@) =~= v0.scheduled.drop_first());
                    lemma_spawn_wf(tmpl@);
                }
                let a = tmpl.spawn();
                self.current = Some((CurrentSource::Scheduled, a));
            } else if let Some(i) = pick {
                proof {
                    match v0.picker {
                        Picker::FirstToScore(f) => crate::pickers::lemma_first_to_score_pick(
                            f.threshold,
                            choice_scores(v0.choices),
                        ),
                        Picker::Highest(h) => crate::pickers::lemma_highest_pick(
                            h.threshold,
                            choice_scores(v0.choices),
                        ),
                    }
                    lemma_spawn_wf(v0.choices[i as int].action);
                }
                let a = self.choices[i].action.spawn();
                self.current = Some((CurrentSource::Picked(i), a));
            } else if self.otherwise.is_some() {
                if let Some(tmpl) = &self.otherwise {
                    proof {
                        lemma_spawn_wf(tmpl@);
                    }
                    let a = tmpl.spawn();
                    self.current = Some((CurrentSource::Otherwise, a));
                }
            }
        }
    }
}

/// The choices with every score tree put through one scorer pass.
pub open spec fn evaluated_choices(cs: Seq<ChoiceView>) -> Seq<ChoiceView> {
    Seq::new(
        cs.len(),
        |i: int| ChoiceView { scorer: evaluated(cs[i].scorer), action: cs[i].action },
    )
}

/// The choices with `value` fed to every input leaf under `tag`.
pub open spec fn fed_choices(cs: Seq<ChoiceView>, tag: u64, value: u64) -> Seq<ChoiceView> {
    Seq::new(
        cs.len(),
        |i: int| ChoiceView { scorer: with_input(cs[i].scorer, tag, value), action: cs[i].action },
    )
}

impl Thinker {
    /// Feeds `value` to every input scorer leaf under `tag`, across all
    /// choices.
    pub fn set_input(&mut self, tag: u64, value: u64)
        requires
            thinker_wf(old(self)@),
            value <= crate::scorer::SCORE_ONE,
        ensures
            final(self)@ == (ThinkerView {
                choices: fed_choices(old(self)@.choices, tag, value),
                ..old(self)@
            }),
            thinker_wf(final(self)@),
    {
        let ghost v0 = self@;
        let ghost cs0 = self.choices@;
        proof {
            lemma_choice_views(cs0);
        }
        let mut done: Vec<Choice> = Vec::new();
        proof {
            assert(self.choices@ =~= cs0.subrange(0, cs0.len() as int));
        }
        #[verifier::loop_isolation(false)]
        while self.choices.len() > 0
            invariant
                self.actor == old(self).actor,
                self.picker == old(self).picker,
                self.otherwise == old(self).otherwise,
                self.scheduled == old(self).scheduled,
                self.current == old(self).current,
                done@.len() + self.choices@.len() == cs0.len(),
                self.choices@ == cs0.subrange(done@.len() as int, cs0.len() as int),
                forall|j: int|
                    0 <= j < done@.len() ==> (#[trigger] done@[j])@ == (ChoiceView {
                        scorer: with_input(cs0[j]@.scorer, tag, value),
                        action: cs0[j]@.action,
                    }) && scorer_wf(done@[j]@.scorer),
            decreases self.choices@.len(),
        {
            let ghost idx = done@.len() as int;
            let c = self.choices.remove(0);
            proof {
                assert(c == cs0[idx]);
                assert(self.choices@ =~= cs0.subrange(idx + 1, cs0.len() as int));
                assert(choice_views(cs0)[idx] == cs0[idx]@);
                crate::scorer::lemma_with_input_wf(c@.scorer, tag, value);
            }
            let Choice { scorer, action } = c;
            let s2 = scorer.set_input(tag, value);
            done.push(Choice { scorer: s2, action });
        }
        self.choices = done;
        proof {
            lemma_choice_views(self.choices@);
            assert forall|j: int|
                0 <= j < cs0.len() implies choice_views(self.choices@)[j] == fed_choices(
                v0.choices,
                tag,
                value,
            )[j] by {
                assert(choice_views(cs0)[j] == cs0[j]@);
            }
            assert(choice_views(self.choices@) =~= fed_choices(v0.choices, tag, value));
        }
    }

    /// Runs one scorer pass over every choice's score tree, children before
    /// parents, so the picker sees fresh composite scores.
    pub fn evaluate_scores(&mut self)
        requires
            thinker_wf(old(self)@),
        ensures
            final(self)@ == (ThinkerView {
                choices: evaluated_choices(old(self)@.choices),
                ..old(self)@
            }),
            thinker_wf(final(self)@),
    {
        let ghost v0 = self@;
        let ghost cs0 = self.choices@;
        proof {
            lemma_choice_views(cs0);
        }
        let mut done: Vec<Choice> = Vec::new();
        proof {
            assert(self.choices@ =~= cs0.subrange(0, cs0.len() as int));
        }
        #[verifier::loop_isolation(false)]
        while self.choices.len() > 0
            invariant
                self.actor == old(self).actor,
                self.picker == old(self).picker,
                self.otherwise == old(self).otherwise,
                self.scheduled == old(self).scheduled,
                self.current == old(self).current,
                done@.len() + self.choices@.len() == cs0.len(),
                self.choices@ == cs0.subrange(done@.len() as int, cs0.len() as int),
                forall|j: int|
                    0 <= j < done@.len() ==> (#[trigger] done@[j])@ == (ChoiceView {
                        scorer: evaluated(cs0[j]@.scorer),
                        action: cs0[j]@.action,
                    }) && scorer_wf(done@[j]@.scorer),
            decreases self.choices@.len(),
        {
            let ghost idx = done@.len() as int;
            let c = self.choices.remove(0);
            proof {
                assert(c == cs0[idx]);
                assert(self.choices@ =~= cs0.subrange(idx + 1, cs0.len() as int));
                assert(choice_views(cs0)[idx] == cs0[idx]@);
            }
            let Choice { scorer, action } = c;
            let s2 = scorer.evaluate();
            done.push(Choice { scorer: s2, action });
        }
        self.choices = done;
        proof {
            lemma_choice_views(self.choices@);
            assert forall|j: int|
                0 <= j < cs0.len() implies choice_views(self.choices@)[j] == evaluated_choices(
                v0.choices,
            )[j] by {
                assert(choice_views(cs0)[j] == cs0[j]@);
            }
            assert(choice_views(self.choices@) =~= evaluated_choices(v0.choices));
        }
    }

    /// Drives every leaf of the running action under `tag` to state `st`;
    /// this stands in for the application's own action logic.
    pub fn set_action_state(&mut self, tag: u64, st: ActionState)
        requires
            thinker_wf(old(self)@),
        ensures
            final(self)@ == (ThinkerView {
                current: match old(self)@.current {
                    Some((src, a)) => Some((src, with_leaf_states(a, tag, st))),
                    None => None,
                },
                ..old(self)@
            }),
            thinker_wf(final(self)@),
    {
        let cur = self.current.take();
        match cur {
            Some((src, a)) => {
                proof {
                    crate::action::lemma_with_leaf_states_wf(a@, tag, st);
                }
                let a2 = a.set_leaf_states(tag, st);
                self.current = Some((src, a2));
            }
            None => {}
        }
    }

    /// Runs one composite pass over the running action's tree, reconciling
    /// every composite node with its children's states.
    pub fn run_sequences(&mut self)
        requires
            thinker_wf(old(self)@),
        ensures
            final(self)@ == (ThinkerView {
                current: match old(self)@.current {
                    Some((src, a)) => Some((src, crate::sequence::sequence_pass(a))),
                    None => None,
                },
                ..old(self)@
            }),
            thinker_wf(final(self)@),
    {
        let cur = self.current.take();
        match cur {
            Some((src, a)) => {
                let a2 = crate::sequence::sequence_system(a);
                self.current = Some((src, a2));
            }
            None => {}
        }
    }

    /// Cancels the thinker itself. With no running action the thinker winds
    /// down at once; otherwise the running action is asked to stop exactly
    /// once and, when it has reached a terminal state, it is destroyed.
    /// Returns true once the thinker has wound down.
    pub fn cancel(&mut self) -> (done: bool)
        requires
            thinker_wf(old(self)@),
        ensures
            thinker_wf(final(self)@),
            match old(self)@.current {
                None => done && final(self)@ == old(self)@,
                Some((src, a)) => if a.state().done() {
                    done && final(self)@ == (ThinkerView { current: None, ..old(self)@ })
                } else {
                    !done && final(self)@ == (ThinkerView {
                        current: Some(
                            (
                                src,
                                if a.state() is Executing {
                                    a.with_state(ActionState::Cancelled)
                                } else {
                                    a
                                },
                            ),
                        ),
                        ..old(self)@
                    })
                },
            },
    {
        let cur = self.current.take();
        match cur {
            None => true,
            Some((src, mut a)) => {
                if a.state.is_done() {
                    true
                } else {
                    a.state.cancel_if_executing();
                    proof {
                        crate::action::lemma_action_view_with_state(
                            old(self).current->Some_0.1,
                            a.state,
                        );
                    }
                    self.current = Some((src, a));
                    false
                }
            }
        }
    }
}

impl Thinker {
    /// Moves every leaf of the running action under `tag` that is in state
    /// `from` to state `to`; this stands in for the application's action
    /// logic, which reacts to the state it observes.
    pub fn step_action_state(&mut self, tag: u64, from: ActionState, to: ActionState)
        requires
            thinker_wf(old(self)@),
        ensures
            final(self)@ == (ThinkerView {
                current: match old(self)@.current {
                    Some((src, a)) => Some(
                        (src, crate::action::with_leaf_transition(a, tag, from, to)),
                    ),
                    None => None,
                },
                ..old(self)@
            }),
            thinker_wf(final(self)@),
    {
        let cur = self.current.take();
        match cur {
            Some((src, a)) => {
                proof {
                    crate::action::lemma_with_leaf_transition_wf(a@, tag, from, to);
                }
                let a2 = a.step_leaf_states(tag, from, to);
                self.current = Some((src, a2));
            }
            None => {}
        }
    }

    /// True while the running action holds some leaf under `tag` in state
    /// `st`.
    pub fn has_action_leaf(&self, tag: u64, st: ActionState) -> (r: bool)
        ensures
            r == match self@.current {
                Some((_, a)) => crate::action::some_leaf(a, tag, st),
                None => false,
            },
    {
        match &self.current {
            Some((_, a)) => a.has_leaf(tag, st),
            None => false,
        }
    }
}

/// Configures and instantiates per-agent thinkers; one spawner is shared by
/// every agent that uses the same behavior definition.
pub struct ThinkerSpawner {
    pub picker: Picker,
    pub choices: Vec<Choice>,
    pub otherwise: Option<ActionSpawn>,
}

impl ThinkerSpawner {
    /// A spawner arbitrating with the given picker and no choices yet.
    pub fn new(picker: Picker) -> (s: ThinkerSpawner)
        ensures
            s.picker == picker,
            s.choices@.len() == 0,
            s.otherwise is None,
    {
        ThinkerSpawner { picker, choices: Vec::new(), otherwise: None }
    }

    /// A spawner arbitrating with a [`Highest`] picker.
    pub fn highest(threshold: u64) -> (s: ThinkerSpawner)
        ensures
            s.picker == Picker::Highest(Highest { threshold }),
            s.choices@.len() == 0,
            s.otherwise is None,
    {
        Self::new(Picker::Highest(Highest { threshold }))
    }

    /// A spawner arbitrating with a [`FirstToScore`] picker.
    pub fn first_to_score(threshold: u64) -> (s: ThinkerSpawner)
        ensures
            s.picker == Picker::FirstToScore(FirstToScore { threshold }),
            s.choices@.len() == 0,
            s.otherwise is None,
    {
        Self::new(Picker::FirstToScore(FirstToScore { threshold }))
    }

    /// Adds a candidate: when the score tree wins arbitration, instantiate
    /// the action template.
    pub fn when(self, when: Scorer, then: ActionSpawn) -> (s: ThinkerSpawner)
        ensures
            s.picker == self.picker,
            s.otherwise == self.otherwise,
            choice_views(s.choices@) == choice_views(self.choices@).push(
                ChoiceView { scorer: when@, action: then@ },
            ),
    {
        let ghost cv = ChoiceView { scorer: when@, action: then@ };
        let mut s = self;
        s.choices.push(Choice { scorer: when, action: then });
        proof {
            let t = s.choices@;
            assert(t.drop_last() =~= self.choices@);
            assert(t.last()@ == cv);
        }
        s
    }

    /// Sets the fallback template, instantiated whenever the slot is empty
    /// and no choice wins arbitration.
    pub fn otherwise(self, default: ActionSpawn) -> (s: ThinkerSpawner)
        ensures
            s.picker == self.picker,
            choice_views(s.choices@) == choice_views(self.choices@),
            s.otherwise matches Some(d) && d@ == default@,
    {
        let mut s = self;
        s.otherwise = Some(default);
        s
    }

    /// Instantiates a fresh thinker for `actor`: the choices are cloned from
    /// this spawner, nothing is scheduled and nothing runs yet.
    pub fn spawn(&self, actor: Actor) -> (t: Thinker)
        requires
            forall|i: int|
                0 <= i < self.choices@.len() ==> scorer_wf((#[trigger] self.choices@[i])@.scorer),
        ensures
            t@ == (ThinkerView {
                actor: actor.0,
                picker: self.picker,
                choices: choice_views(self.choices@),
                otherwise: match self.otherwise {
                    Some(d) => Some(d@),
                    None => None,
                },
                scheduled: Seq::empty(),
                current: None,
            }),
            thinker_wf(t@),
    {
        let mut choices: Vec<Choice> = Vec::new();
        let n = self.choices.len();
        let mut i: usize = 0;
        proof {
            lemma_choice_views(self.choices@);
        }
        while i < n
            invariant
                n == self.choices@.len(),
                i <= n,
                choices@.len() == i,
                forall|j: int| 0 <= j < i ==> (#[trigger] choices@[j])@ == self.choices@[j]@,
                forall|j: int|
                    0 <= j < self.choices@.len() ==> scorer_wf(
                        (#[trigger] self.choices@[j])@.scorer,
                    ),
            decreases n - i,
        {
            let c = (&self.choices[i]).clone();
            choices.push(c);
            i += 1;
        }
        let otherwise = match &self.otherwise {
            Some(d) => Some(d.clone()),
            None => None,
        };
        let t = Thinker {
            actor,
            picker: self.picker,
            choices,
            otherwise,
            scheduled: Vec::new(),
            current: None,
        };
        proof {
            lemma_choice_views(t.choices@);
            assert(choice_views(t.choices@) =~= choice_views(self.choices@));
            assert(spawn_views(t.scheduled@) =~= Seq::<SpawnView>::empty());
            assert forall|i2: int|
                0 <= i2 < t@.choices.len() implies scorer_wf(
                (#[trigger] t@.choices[i2]).scorer) by {
                assert(choice_views(t.choices@)[i2] == t.choices@[i2]@);
                assert(choice_views(self.choices@)[i2] == self.choices@[i2]@);
            }
        }
        t
    }
}

/// Cancel-before-replace: while the running action is not terminal, a
/// thinker tick never replaces it and instantiates nothing new — at most the
/// running action's root is asked to wind down.
pub proof fn lemma_cancel_before_replace(t: ThinkerView)
    requires
        thinker_wf(t),
        t.current matches Some((src, a)) && !a.state().done(),
    ensures
        ({
            let r = think_of(t);
            &&& r.current matches Some((src2, a2)) && src2 == t.current->Some_0.0 && (a2
                == t.current->Some_0.1 || a2 == t.current->Some_0.1.with_state(
                ActionState::Cancelled,
            ))
            &&& r.scheduled == t.scheduled
            &&& r.choices == t.choices
        }),
{
}

/// Idempotent re-pick: when the picker selects the very choice whose action
/// is already running and nothing is scheduled, the thinker tick changes
/// nothing at all.
pub proof fn lemma_idempotent_repick(t: ThinkerView, k: usize)
    requires
        thinker_wf(t),
        t.scheduled.len() == 0,
        t.current matches Some((src, a)) && src == CurrentSource::Picked(k) && !a.state().done(),
        picker_pick(t.picker, choice_scores(t.choices)) == Some(k as int),
    ensures
        think_of(t) == t,
{
}

} // verus!
