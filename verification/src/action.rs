//! The action lifecycle: the four-state [`ActionState`], reusable action
//! templates ([`ActionSpawn`]), and the spawned action trees ([`Action`])
//! that thinkers and composite actions own and drive.

use vstd::prelude::*;

use crate::sequence::{Sequence, SequenceMode};

verus! {

/// The current state of an action node.
///
/// `Success` and `Failure` are terminal. `Cancelled` is a request to the
/// action's own logic to wind down: the node's driver must itself move the
/// node to `Success` or `Failure` once cleanup is complete. Every node starts
/// in `Executing`.
#[derive(Clone, Copy, PartialEq, Eq, Structural, Debug, Hash)]
pub enum ActionState {
    /// The action is running.
    Executing,
    /// The action was asked to stop and has not yet wound down.
    Cancelled,
    /// The action finished and reached its goal.
    Success,
    /// The action finished without reaching its goal.
    Failure,
}

impl ActionState {
    /// True of the two terminal states.
    pub open spec fn done(self) -> bool {
        self is Success || self is Failure
    }

    /// Sets the state to `Success`.
    pub fn success(&mut self)
        ensures
            *final(self) is Success,
    {
        *self = ActionState::Success;
    }

    /// Sets the state to `Failure`.
    pub fn failure(&mut self)
        ensures
            *final(self) is Failure,
    {
        *self = ActionState::Failure;
    }

    /// Sets the state to `Cancelled`.
    pub fn cancel(&mut self)
        ensures
            *final(self) is Cancelled,
    {
        *self = ActionState::Cancelled;
    }

    /// Returns true if the state is `Executing`.
    pub fn is_executing(&self) -> (r: bool)
        ensures
            r == (*self is Executing),
    {
        matches!(self, ActionState::Executing)
    }

    /// Returns true if the state is `Cancelled`.
    pub fn is_cancelled(&self) -> (r: bool)
        ensures
            r == (*self is Cancelled),
    {
        matches!(self, ActionState::Cancelled)
    }

    /// Returns true if the state is `Success`.
    pub fn is_success(&self) -> (r: bool)
        ensures
            r == (*self is Success),
    {
        matches!(self, ActionState::Success)
    }

    /// Returns true if the state is `Failure`.
    pub fn is_failure(&self) -> (r: bool)
        ensures
            r == (*self is Failure),
    {
        matches!(self, ActionState::Failure)
    }

    /// Returns true if the state is terminal (`Success` or `Failure`).
    pub fn is_done(&self) -> (r: bool)
        ensures
            r == self.done(),
    {
        matches!(self, ActionState::Success | ActionState::Failure)
    }

    /// Requests cancellation, but only of a running action: terminal and
    /// already-cancelled states are left as they are.
    pub fn cancel_if_executing(&mut self)
        ensures
            *final(self) == if *old(self) is Executing {
                ActionState::Cancelled
            } else {
                *old(self)
            },
    {
        if matches!(self, ActionState::Executing) {
            *self = ActionState::Cancelled;
        }
    }
}

/// A reusable, cheaply clonable descriptor from which a fresh action subtree
/// is instantiated. Leaves carry an application-chosen tag; the application's
/// own systems drive the leaves it spawns by that tag.
pub enum ActionSpawn {
    /// A leaf action, performing domain work outside the engine.
    Leaf(u64),
    /// A composite action combining child templates under a [`SequenceMode`].
    Sequence(SequenceMode, Vec<ActionSpawn>),
}

/// The mathematical model of an [`ActionSpawn`] template.
pub enum SpawnView {
    Leaf(u64),
    Sequence(SequenceMode, Seq<SpawnView>),
}

/// The model of a template, as a [`SpawnView`].
pub open spec fn spawn_view(t: ActionSpawn) -> SpawnView
    decreases t,
    via spawn_view_decreases
{
    match t {
        ActionSpawn::Leaf(tag) => SpawnView::Leaf(tag),
        ActionSpawn::Sequence(mode, ts) => SpawnView::Sequence(mode, spawn_views(ts@)),
    }
}

/// The models of a sequence of templates, element by element.
pub open spec fn spawn_views(ts: Seq<ActionSpawn>) -> Seq<SpawnView>
    decreases ts,
{
    if ts.len() == 0 {
        Seq::empty()
    } else {
        spawn_views(ts.drop_last()).push(spawn_view(ts.last()))
    }
}

#[via_fn]
proof fn spawn_view_decreases(t: ActionSpawn) {
    match t {
        ActionSpawn::Leaf(_) => {}
        ActionSpawn::Sequence(_, ts) => {
            assert(decreases_to!(t => t->Sequence_1));
            assert(decreases_to!(ts => ts@));
        }
    }
}

/// `spawn_views` maps `spawn_view` over the sequence, element by element.
pub proof fn lemma_spawn_views(ts: Seq<ActionSpawn>)
    ensures
        spawn_views(ts).len() == ts.len(),
        forall|i: int| 0 <= i < ts.len() ==> spawn_views(ts)[i] == spawn_view(ts[i]),
    decreases ts.len(),
{
    if ts.len() > 0 {
        lemma_spawn_views(ts.drop_last());
    }
}

impl View for ActionSpawn {
    type V = SpawnView;

    open spec fn view(&self) -> SpawnView {
        spawn_view(*self)
    }
}

impl Clone for ActionSpawn {
    /// Cloning a template preserves its model.
    fn clone(&self) -> (r: Self)
        ensures
            r@ == self@,
        decreases *self,
    {
        match self {
            ActionSpawn::Leaf(tag) => ActionSpawn::Leaf(*tag),
            ActionSpawn::Sequence(mode, ts) => {
                let rs = clone_spawns(ts);
                ActionSpawn::Sequence(*mode, rs)
            }
        }
    }
}

/// Clones a list of templates; the clone has the same models, element by
/// element.
pub(crate) fn clone_spawns(ts: &Vec<ActionSpawn>) -> (r: Vec<ActionSpawn>)
    ensures
        spawn_views(r@) == spawn_views(ts@),
        r@.len() == ts@.len(),
    decreases *ts,
{
    let mut rs: Vec<ActionSpawn> = Vec::new();
    let n = ts.len();
    let mut i: usize = 0;
    while i < n
        invariant
            n == ts@.len(),
            i <= n,
            rs@.len() == i,
            forall|j: int| 0 <= j < i ==> (#[trigger] rs@[j])@ == ts@[j]@,
        decreases n - i,
    {
        proof {
            assert(decreases_to!(*ts => ts@));
            assert(decreases_to!(ts@ => ts@[i as int]));
        }
        let c = ts[i].clone();
        rs.push(c);
        i += 1;
    }
    proof {
        lemma_spawn_views(rs@);
        lemma_spawn_views(ts@);
        assert(spawn_views(rs@) =~= spawn_views(ts@));
    }
    rs
}

/// A spawned action node: its lifecycle state together with what it is.
pub struct Action {
    pub state: ActionState,
    pub kind: ActionKind,
}

/// What a spawned action node is: a leaf doing domain work, or a live
/// composite owning children.
pub enum ActionKind {
    Leaf(u64),
    Sequence(Sequence),
}

/// The mathematical model of a spawned action tree.
pub enum ActionView {
    Leaf { state: ActionState, tag: u64 },
    Sequence {
        state: ActionState,
        mode: SequenceMode,
        active_step: int,
        steps: Seq<SpawnView>,
        children: Seq<ActionView>,
    },
}

impl ActionView {
    /// The node's own lifecycle state.
    pub open spec fn state(self) -> ActionState {
        match self {
            ActionView::Leaf { state, .. } => state,
            ActionView::Sequence { state, .. } => state,
        }
    }

    /// The same node with its own state replaced and all else unchanged.
    pub open spec fn with_state(self, st: ActionState) -> ActionView {
        match self {
            ActionView::Leaf { state, tag } => ActionView::Leaf { state: st, tag },
            ActionView::Sequence { state, mode, active_step, steps, children } => {
                ActionView::Sequence { state: st, mode, active_step, steps, children }
            }
        }
    }
}

/// The model of a spawned action node, as an [`ActionView`].
pub open spec fn action_view(a: Action) -> ActionView
    decreases a,
    via action_view_decreases
{
    match a.kind {
        ActionKind::Leaf(tag) => ActionView::Leaf { state: a.state, tag },
        ActionKind::Sequence(sq) => ActionView::Sequence {
            state: a.state,
            mode: sq.mode,
            active_step: sq.active_step as int,
            steps: spawn_views(sq.steps@),
            children: action_views(sq.children@),
        },
    }
}

/// The models of a sequence of action nodes, element by element.
pub open spec fn action_views(s: Seq<Action>) -> Seq<ActionView>
    decreases s,
{
    if s.len() == 0 {
        Seq::empty()
    } else {
        action_views(s.drop_last()).push(action_view(s.last()))
    }
}

#[via_fn]
proof fn action_view_decreases(a: Action) {
    match a.kind {
        ActionKind::Leaf(_) => {}
        ActionKind::Sequence(sq) => {
            assert(decreases_to!(a => a.kind));
            assert(decreases_to!(a.kind => a.kind->Sequence_0));
            assert(decreases_to!(sq => sq.children));
            assert(decreases_to!(sq.children => sq.children@));
        }
    }
}

/// `action_views` maps `action_view` over the sequence, element by element.
pub proof fn lemma_action_views(s: Seq<Action>)
    ensures
        action_views(s).len() == s.len(),
        forall|i: int| 0 <= i < s.len() ==> action_views(s)[i] == action_view(s[i]),
    decreases s.len(),
{
    if s.len() > 0 {
        lemma_action_views(s.drop_last());
    }
}

/// Structural well-formedness of a spawned action tree: a `Step` composite
/// holds at most one live child, and while it has one its active index
/// addresses a real step template.
pub open spec fn action_wf(a: ActionView) -> bool
    decreases a,
{
    match a {
        ActionView::Leaf { .. } => true,
        ActionView::Sequence { mode, active_step, steps, children, .. } => {
            &&& mode is Step ==> children.len() <= 1
            &&& mode is Step ==> if steps.len() == 0 {
                active_step == 0 && children.len() == 0
            } else {
                0 <= active_step < steps.len()
            }
            &&& !(mode is Step) ==> active_step == 0
            &&& actions_wf(children)
        },
    }
}

/// Well-formedness of a sequence of action trees, element by element.
pub open spec fn actions_wf(cs: Seq<ActionView>) -> bool
    decreases cs,
{
    if cs.len() == 0 {
        true
    } else {
        actions_wf(cs.drop_last()) && action_wf(cs.last())
    }
}

/// `actions_wf` holds exactly when every element is well-formed.
pub proof fn lemma_actions_wf(cs: Seq<ActionView>)
    ensures
        actions_wf(cs) <==> (forall|i: int| 0 <= i < cs.len() ==> action_wf(#[trigger] cs[i])),
    decreases cs.len(),
{
    if cs.len() > 0 {
        lemma_actions_wf(cs.drop_last());
        if actions_wf(cs) {
            assert forall|i: int| 0 <= i < cs.len() implies action_wf(#[trigger] cs[i]) by {
                if i < cs.len() - 1 {
                    assert(cs.drop_last()[i] == cs[i]);
                }
            }
        } else {
            if forall|i: int| 0 <= i < cs.len() ==> action_wf(#[trigger] cs[i]) {
                assert forall|i: int|
                    0 <= i < cs.drop_last().len() implies action_wf(
                    #[trigger] cs.drop_last()[i]) by {
                    assert(cs.drop_last()[i] == cs[i]);
                }
                assert(action_wf(cs.last()));
                assert(false);
            }
        }
    }
}

/// Changing only a node's own state leaves it well-formed.
pub proof fn lemma_with_state_wf(a: ActionView, st: ActionState)
    ensures
        action_wf(a.with_state(st)) == action_wf(a),
{
}

/// A freshly instantiated tree is well-formed.
pub proof fn lemma_spawn_wf(t: SpawnView)
    ensures
        action_wf(spawn_of(t)),
    decreases t,
{
    match t {
        SpawnView::Leaf(_) => {}
        SpawnView::Sequence(mode, steps) => {
            let picked: Seq<SpawnView> = if mode is Step {
                steps.take(if steps.len() > 0 { 1int } else { 0int })
            } else {
                steps
            };
            if mode is Step {
                if picked.len() < steps.len() {
                    vstd::seq::axiom_seq_len_decreases(steps, picked);
                } else {
                    assert(picked =~= steps);
                }
            }
            lemma_spawn_children_wf(picked);
            lemma_spawn_children(picked);
        }
    }
}

/// Trees instantiated from a list of templates are all well-formed.
pub proof fn lemma_spawn_children_wf(ts: Seq<SpawnView>)
    ensures
        actions_wf(spawn_children(ts)),
    decreases ts,
{
    if ts.len() > 0 {
        lemma_spawn_children_wf(ts.drop_last());
        lemma_spawn_wf(ts.last());
        assert(spawn_children(ts).drop_last() =~= spawn_children(ts.drop_last()));
    }
}

/// Changing only a node's own state changes only the model's own state.
pub proof fn lemma_action_view_with_state(a: Action, st: ActionState)
    ensures
        action_view(Action { state: st, kind: a.kind }) == action_view(a).with_state(st),
{
}

impl View for Action {
    type V = ActionView;

    open spec fn view(&self) -> ActionView {
        action_view(*self)
    }
}

/// The tree a template instantiates: every node starts `Executing`; a `Join`
/// or `Race` composite spawns all of its steps at once, while a `Step`
/// composite spawns only its first step (or nothing, if it has no steps).
pub open spec fn spawn_of(t: SpawnView) -> ActionView
    decreases t,
    via spawn_of_decreases
{
    match t {
        SpawnView::Leaf(tag) => ActionView::Leaf { state: ActionState::Executing, tag },
        SpawnView::Sequence(mode, steps) => ActionView::Sequence {
            state: ActionState::Executing,
            mode,
            active_step: 0,
            steps,
            children: spawn_children(
                if mode is Step {
                    steps.take(if steps.len() > 0 { 1int } else { 0int })
                } else {
                    steps
                },
            ),
        },
    }
}

/// The trees instantiated from a sequence of templates, element by element.
pub open spec fn spawn_children(ts: Seq<SpawnView>) -> Seq<ActionView>
    decreases ts,
{
    if ts.len() == 0 {
        Seq::empty()
    } else {
        spawn_children(ts.drop_last()).push(spawn_of(ts.last()))
    }
}

#[via_fn]
proof fn spawn_of_decreases(t: SpawnView) {
    match t {
        SpawnView::Leaf(_) => {}
        SpawnView::Sequence(mode, steps) => {
            assert(decreases_to!(t => t->Sequence_1));
            if mode is Step {
                let k: int = if steps.len() > 0 { 1int } else { 0int };
                if steps.take(k).len() < steps.len() {
                    vstd::seq::axiom_seq_len_decreases(steps, steps.take(k));
                } else {
                    assert(steps.take(k) =~= steps);
                }
            }
        }
    }
}

/// `spawn_children` maps `spawn_of` over the sequence, element by element.
pub proof fn lemma_spawn_children(ts: Seq<SpawnView>)
    ensures
        spawn_children(ts).len() == ts.len(),
        forall|i: int| 0 <= i < ts.len() ==> spawn_children(ts)[i] == spawn_of(ts[i]),
    decreases ts.len(),
{
    if ts.len() > 0 {
        lemma_spawn_children(ts.drop_last());
    }
}

impl ActionSpawn {
    /// Instantiates a fresh action subtree from this template.
    pub fn spawn(&self) -> (a: Action)
        ensures
            a@ == spawn_of(self@),
        decreases *self,
    {
        match self {
            ActionSpawn::Leaf(tag) => Action {
                state: ActionState::Executing,
                kind: ActionKind::Leaf(*tag),
            },
            ActionSpawn::Sequence(mode, ts) => {
                let steps = clone_spawns(ts);
                let mut children: Vec<Action> = Vec::new();
                let n = if matches!(mode, SequenceMode::Step) {
                    if ts.len() > 0 { 1 } else { 0 }
                } else {
                    ts.len()
                };
                let mut i: usize = 0;
                while i < n
                    invariant
                        *self == ActionSpawn::Sequence(*mode, *ts),
                        n <= ts@.len(),
                        i <= n,
                        children@.len() == i,
                        forall|j: int| 0 <= j < i ==> (#[trigger] children@[j])@ == spawn_of(ts@[j]@),
                    decreases n - i,
                {
                    proof {
                        assert(decreases_to!(*self => (*self)->Sequence_1));
                        assert(decreases_to!(*ts => ts@));
                        assert(decreases_to!(ts@ => ts@[i as int]));
                    }
                    let c = ts[i].spawn();
                    children.push(c);
                    i += 1;
                }
                let a = Action {
                    state: ActionState::Executing,
                    kind: ActionKind::Sequence(Sequence {
                        mode: *mode,
                        active_step: 0,
                        steps,
                        children,
                    }),
                };
                proof {
                    lemma_spawn_views(ts@);
                    let tv = self@;
                    let sv = tv->Sequence_1;
                    assert(sv == spawn_views(ts@));
                    let picked: Seq<SpawnView> = if *mode is Step {
                        sv.take(if sv.len() > 0 { 1int } else { 0int })
                    } else {
                        sv
                    };
                    lemma_spawn_children(picked);
                    lemma_action_views(a.kind->Sequence_0.children@);
                    assert(forall|j: int| 0 <= j < picked.len() ==> picked[j] == sv[j]);
                    assert(action_views(a.kind->Sequence_0.children@) =~= spawn_children(picked));
                    assert(a@ == spawn_of(self@));
                }
                a
            }
        }
    }
}

/// The same tree with every leaf under `tag` moved to state `st`; composite
/// nodes and other leaves are untouched.
pub open spec fn with_leaf_states(a: ActionView, tag: u64, st: ActionState) -> ActionView
    decreases a,
{
    match a {
        ActionView::Leaf { state, tag: t } => ActionView::Leaf {
            state: if t == tag {
                st
            } else {
                state
            },
            tag: t,
        },
        ActionView::Sequence { state, mode, active_step, steps, children } => ActionView::Sequence {
            state,
            mode,
            active_step,
            steps,
            children: with_leaf_states_children(children, tag, st),
        },
    }
}

/// `with_leaf_states` applied to each tree of a sequence.
pub open spec fn with_leaf_states_children(
    cs: Seq<ActionView>,
    tag: u64,
    st: ActionState,
) -> Seq<ActionView>
    decreases cs,
{
    if cs.len() == 0 {
        Seq::empty()
    } else {
        with_leaf_states_children(cs.drop_last(), tag, st).push(
            with_leaf_states(cs.last(), tag, st),
        )
    }
}

/// `with_leaf_states_children` maps `with_leaf_states` over the sequence.
pub proof fn lemma_with_leaf_states_children(cs: Seq<ActionView>, tag: u64, st: ActionState)
    ensures
        with_leaf_states_children(cs, tag, st).len() == cs.len(),
        forall|i: int|
            0 <= i < cs.len() ==> with_leaf_states_children(cs, tag, st)[i] == with_leaf_states(
                cs[i],
                tag,
                st,
            ),
    decreases cs.len(),
{
    if cs.len() > 0 {
        lemma_with_leaf_states_children(cs.drop_last(), tag, st);
    }
}

/// Driving leaves keeps a tree well-formed.
pub proof fn lemma_with_leaf_states_wf(a: ActionView, tag: u64, st: ActionState)
    requires
        action_wf(a),
    ensures
        action_wf(with_leaf_states(a, tag, st)),
    decreases a,
{
    match a {
        ActionView::Leaf { .. } => {}
        ActionView::Sequence { children, .. } => {
            lemma_with_leaf_states_children_wf(children, tag, st);
            lemma_with_leaf_states_children(children, tag, st);
        }
    }
}

/// Driving leaves keeps every tree of a well-formed list well-formed.
pub proof fn lemma_with_leaf_states_children_wf(cs: Seq<ActionView>, tag: u64, st: ActionState)
    requires
        actions_wf(cs),
    ensures
        actions_wf(with_leaf_states_children(cs, tag, st)),
    decreases cs,
{
    if cs.len() > 0 {
        lemma_with_leaf_states_children_wf(cs.drop_last(), tag, st);
        lemma_with_leaf_states_wf(cs.last(), tag, st);
        assert(with_leaf_states_children(cs, tag, st).drop_last() =~= with_leaf_states_children(
            cs.drop_last(),
            tag,
            st,
        ));
    }
}

impl Action {
    /// The node's own lifecycle state.
    pub fn state(&self) -> (st: ActionState)
        ensures
            st == self@.state(),
    {
        self.state
    }

    /// The top-level states of the node's children, in order; empty for a
    /// leaf.
    pub fn child_states(&self) -> (r: Vec<ActionState>)
        ensures
            r@.len() == (match self@ {
                ActionView::Leaf { .. } => 0int,
                ActionView::Sequence { children, .. } => children.len() as int,
            }),
            forall|i: int|
                0 <= i < r@.len() ==> #[trigger] r@[i] == self@->Sequence_children[i].state(),
    {
        match &self.kind {
            ActionKind::Leaf(_) => Vec::new(),
            ActionKind::Sequence(sq) => {
                let n = sq.children.len();
                let mut r: Vec<ActionState> = Vec::new();
                let mut i: usize = 0;
                proof {
                    lemma_action_views(sq.children@);
                }
                while i < n
                    invariant
                        n == sq.children@.len(),
                        i <= n,
                        r@.len() == i,
                        forall|j: int|
                            0 <= j < i ==> #[trigger] r@[j] == sq.children@[j]@.state(),
                    decreases n - i,
                {
                    let st = sq.children[i].state;
                    r.push(st);
                    i += 1;
                }
                proof {
                    assert forall|j: int|
                        0 <= j < n implies #[trigger] r@[j]
                        == self@->Sequence_children[j].state() by {
                        assert(action_views(sq.children@)[j] == sq.children@[j]@);
                    }
                }
                r
            }
        }
    }

    /// Drives every leaf under `tag` to state `st` and hands the tree back;
    /// this stands in for the application's own action logic, which reports
    /// each leaf's progress by its tag.
    pub fn set_leaf_states(self, tag: u64, st: ActionState) -> (r: Action)
        ensures
            r@ == with_leaf_states(self@, tag, st),
        decreases self,
    {
        let ghost a0 = self;
        match self {
            Action { state, kind: ActionKind::Leaf(t) } => Action {
                state: if t == tag {
                    st
                } else {
                    state
                },
                kind: ActionKind::Leaf(t),
            },
            Action { state, kind: ActionKind::Sequence(sq) } => {
                let Sequence { mode, active_step, steps, children } = sq;
                let ghost cs0 = children@;
                let mut rest = children;
                let mut driven: Vec<Action> = Vec::new();
                proof {
                    lemma_action_views(cs0);
                    assert(rest@ =~= cs0.subrange(0, cs0.len() as int));
                }
                #[verifier::loop_isolation(false)]
                while rest.len() > 0
                    invariant
                        driven@.len() + rest@.len() == cs0.len(),
                        rest@ == cs0.subrange(driven@.len() as int, cs0.len() as int),
                        forall|j: int|
                            0 <= j < driven@.len() ==> (#[trigger] driven@[j])@
                                == with_leaf_states(cs0[j]@, tag, st),
                    decreases rest@.len(),
                {
                    let ghost idx = driven@.len() as int;
                    let c = rest.remove(0);
                    proof {
                        assert(c == cs0[idx]);
                        assert(rest@ =~= cs0.subrange(idx + 1, cs0.len() as int));
                        assert(decreases_to!(a0 => a0.kind));
                        assert(decreases_to!(a0.kind => a0.kind->Sequence_0));
                        assert(decreases_to!(a0.kind->Sequence_0 => a0.kind->Sequence_0.children));
                        assert(decreases_to!(a0.kind->Sequence_0.children => a0.kind->Sequence_0.children@));
                        assert(decreases_to!(cs0 => cs0[idx]));
                        assert(decreases_to!(a0 => c));
                    }
                    let t = c.set_leaf_states(tag, st);
                    driven.push(t);
                }
                proof {
                    lemma_action_views(driven@);
                    lemma_with_leaf_states_children(action_views(cs0), tag, st);
                    assert forall|j: int|
                        0 <= j < driven@.len() implies action_views(driven@)[j]
                        == with_leaf_states_children(action_views(cs0), tag, st)[j] by {
                        assert(action_views(cs0)[j] == cs0[j]@);
                    }
                    assert(action_views(driven@) =~= with_leaf_states_children(
                        action_views(cs0),
                        tag,
                        st,
                    ));
                }
                Action {
                    state,
                    kind: ActionKind::Sequence(Sequence { mode, active_step, steps, children: driven }),
                }
            }
        }
    }
}

/// The same tree with every leaf under `tag` currently in state `from`
/// moved to state `to`; all other nodes are untouched. This mirrors how an
/// application's action logic reacts to the state it observes.
pub open spec fn with_leaf_transition(
    a: ActionView,
    tag: u64,
    from: ActionState,
    to: ActionState,
) -> ActionView
    decreases a,
{
    match a {
        ActionView::Leaf { state, tag: t } => ActionView::Leaf {
            state: if t == tag && state == from {
                to
            } else {
                state
            },
            tag: t,
        },
        ActionView::Sequence { state, mode, active_step, steps, children } => ActionView::Sequence {
            state,
            mode,
            active_step,
            steps,
            children: with_leaf_transition_children(children, tag, from, to),
        },
    }
}

/// `with_leaf_transition` applied to each tree of a sequence.
pub open spec fn with_leaf_transition_children(
    cs: Seq<ActionView>,
    tag: u64,
    from: ActionState,
    to: ActionState,
) -> Seq<ActionView>
    decreases cs,
{
    if cs.len() == 0 {
        Seq::empty()
    } else {
        with_leaf_transition_children(cs.drop_last(), tag, from, to).push(
            with_leaf_transition(cs.last(), tag, from, to),
        )
    }
}

/// `with_leaf_transition_children` maps `with_leaf_transition` over the
/// sequence.
pub proof fn lemma_with_leaf_transition_children(
    cs: Seq<ActionView>,
    tag: u64,
    from: ActionState,
    to: ActionState,
)
    ensures
        with_leaf_transition_children(cs, tag, from, to).len() == cs.len(),
        forall|i: int|
            0 <= i < cs.len() ==> with_leaf_transition_children(cs, tag, from, to)[i]
                == with_leaf_transition(cs[i], tag, from, to),
    decreases cs.len(),
{
    if cs.len() > 0 {
        lemma_with_leaf_transition_children(cs.drop_last(), tag, from, to);
    }
}

/// Conditional leaf transitions keep a tree well-formed.
pub proof fn lemma_with_leaf_transition_wf(
    a: ActionView,
    tag: u64,
    from: ActionState,
    to: ActionState,
)
    requires
        action_wf(a),
    ensures
        action_wf(with_leaf_transition(a, tag, from, to)),
    decreases a,
{
    match a {
        ActionView::Leaf { .. } => {}
        ActionView::Sequence { children, .. } => {
            lemma_with_leaf_transition_children_wf(children, tag, from, to);
            lemma_with_leaf_transition_children(children, tag, from, to);
        }
    }
}

/// Conditional leaf transitions keep every tree of a well-formed list
/// well-formed.
pub proof fn lemma_with_leaf_transition_children_wf(
    cs: Seq<ActionView>,
    tag: u64,
    from: ActionState,
    to: ActionState,
)
    requires
        actions_wf(cs),
    ensures
        actions_wf(with_leaf_transition_children(cs, tag, from, to)),
    decreases cs,
{
    if cs.len() > 0 {
        lemma_with_leaf_transition_children_wf(cs.drop_last(), tag, from, to);
        lemma_with_leaf_transition_wf(cs.last(), tag, from, to);
        assert(with_leaf_transition_children(cs, tag, from, to).drop_last()
            =~= with_leaf_transition_children(cs.drop_last(), tag, from, to));
    }
}

/// Some leaf under `tag` is currently in state `st`.
pub open spec fn some_leaf(a: ActionView, tag: u64, st: ActionState) -> bool
    decreases a,
{
    match a {
        ActionView::Leaf { state, tag: t } => t == tag && state == st,
        ActionView::Sequence { children, .. } => some_leaf_children(children, tag, st),
    }
}

/// Some leaf of some tree of the sequence is under `tag` in state `st`.
pub open spec fn some_leaf_children(cs: Seq<ActionView>, tag: u64, st: ActionState) -> bool
    decreases cs,
{
    if cs.len() == 0 {
        false
    } else {
        some_leaf_children(cs.drop_last(), tag, st) || some_leaf(cs.last(), tag, st)
    }
}

impl Action {
    /// Moves every leaf under `tag` that is in state `from` to state `to`
    /// and hands the tree back; this stands in for application action logic
    /// that reacts to the state it observes.
    pub fn step_leaf_states(self, tag: u64, from: ActionState, to: ActionState) -> (r: Action)
        ensures
            r@ == with_leaf_transition(self@, tag, from, to),
        decreases self,
    {
        let ghost a0 = self;
        match self {
            Action { state, kind: ActionKind::Leaf(t) } => Action {
                state: if t == tag && state == from {
                    to
                } else {
                    state
                },
                kind: ActionKind::Leaf(t),
            },
            Action { state, kind: ActionKind::Sequence(sq) } => {
                let Sequence { mode, active_step, steps, children } = sq;
                let ghost cs0 = children@;
                let mut rest = children;
                let mut driven: Vec<Action> = Vec::new();
                proof {
                    lemma_action_views(cs0);
                    assert(rest@ =~= cs0.subrange(0, cs0.len() as int));
                }
                #[verifier::loop_isolation(false)]
                while rest.len() > 0
                    invariant
                        driven@.len() + rest@.len() == cs0.len(),
                        rest@ == cs0.subrange(driven@.len() as int, cs0.len() as int),
                        forall|j: int|
                            0 <= j < driven@.len() ==> (#[trigger] driven@[j])@
                                == with_leaf_transition(cs0[j]@, tag, from, to),
                    decreases rest@.len(),
                {
                    let ghost idx = driven@.len() as int;
                    let c = rest.remove(0);
                    proof {
                        assert(c == cs0[idx]);
                        assert(rest@ =~= cs0.subrange(idx + 1, cs0.len() as int));
                        assert(decreases_to!(a0 => a0.kind));
                        assert(decreases_to!(a0.kind => a0.kind->Sequence_0));
                        assert(decreases_to!(a0.kind->Sequence_0 => a0.kind->Sequence_0.children));
                        assert(decreases_to!(a0.kind->Sequence_0.children => a0.kind->Sequence_0.children@));
                        assert(decreases_to!(cs0 => cs0[idx]));
                        assert(decreases_to!(a0 => c));
                    }
                    let t = c.step_leaf_states(tag, from, to);
                    driven.push(t);
                }
                proof {
                    lemma_action_views(driven@);
                    lemma_with_leaf_transition_children(action_views(cs0), tag, from, to);
                    assert forall|j: int|
                        0 <= j < driven@.len() implies action_views(driven@)[j]
                        == with_leaf_transition_children(action_views(cs0), tag, from, to)[j] by {
                        assert(action_views(cs0)[j] == cs0[j]@);
                    }
                    assert(action_views(driven@) =~= with_leaf_transition_children(
                        action_views(cs0),
                        tag,
                        from,
                        to,
                    ));
                }
                Action {
                    state,
                    kind: ActionKind::Sequence(Sequence { mode, active_step, steps, children: driven }),
                }
            }
        }
    }

    /// True while some leaf under `tag` is in state `st`.
    pub fn has_leaf(&self, tag: u64, st: ActionState) -> (r: bool)
        ensures
            r == some_leaf(self@, tag, st),
        decreases *self,
    {
        match &self.kind {
            ActionKind::Leaf(t) => *t == tag && self.state == st,
            ActionKind::Sequence(sq) => {
                let ghost cs0 = sq.children@;
                proof {
                    lemma_action_views(cs0);
                }
                let n = sq.children.len();
                let mut found = false;
                let mut i: usize = 0;
                #[verifier::loop_isolation(false)]
                while i < n
                    invariant
                        n == cs0.len(),
                        i <= n,
                        found == some_leaf_children(action_views(cs0).take(i as int), tag, st),
                    decreases n - i,
                {
                    proof {
                        assert(decreases_to!(*self => self.kind));
                        assert(decreases_to!(self.kind => self.kind->Sequence_0));
                        assert(decreases_to!(self.kind->Sequence_0 => self.kind->Sequence_0.children));
                        assert(decreases_to!(self.kind->Sequence_0.children => self.kind->Sequence_0.children@));
                        assert(decreases_to!(cs0 => cs0[i as int]));
                        assert(action_views(cs0).take(i + 1).drop_last() =~= action_views(
                            cs0,
                        ).take(i as int));
                        assert(action_views(cs0).take(i + 1).last() == cs0[i as int]@);
                    }
                    if sq.children[i].has_leaf(tag, st) {
                        found = true;
                    }
                    i += 1;
                }
                proof {
                    assert(action_views(cs0).take(n as int) =~= action_views(cs0));
                }
                found
            }
        }
    }
}

} // verus!
