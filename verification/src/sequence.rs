//! Composite actions: all-succeed (`Join`), any-succeeds (`Race`) and
//! sequential step chains (`Step`), together with the pass that reconciles
//! their state with their children's states once per tick.

use vstd::prelude::*;

use crate::action::{
    action_views, lemma_action_views, lemma_spawn_views, spawn_of, spawn_views, Action, ActionKind,
    ActionSpawn, ActionState, ActionView, SpawnView,
};

verus! {

/// Configures how a composite [`Sequence`] action combines its children.
#[derive(Clone, Copy, PartialEq, Eq, Structural, Debug, Hash)]
pub enum SequenceMode {
    /// Reaches success when any child reaches success.
    Race,
    /// Reaches success when all children reach success.
    Join,
    /// Runs its steps one after the other, as long as each step succeeds.
    Step,
}

/// The live core of a composite action node: its mode, the templates of its
/// steps, and its currently spawned children. `Join` and `Race` spawn every
/// step at once; `Step` keeps at most one live child and `active_step` marks
/// which template it came from.
pub struct Sequence {
    pub mode: SequenceMode,
    pub active_step: usize,
    pub steps: Vec<ActionSpawn>,
    pub children: Vec<Action>,
}

impl Sequence {
    /// A template for a composite that succeeds once all of `actions` succeed.
    pub fn join(actions: Vec<ActionSpawn>) -> (t: ActionSpawn)
        ensures
            t == ActionSpawn::Sequence(SequenceMode::Join, actions),
    {
        ActionSpawn::Sequence(SequenceMode::Join, actions)
    }

    /// A template for a composite that succeeds once any of `actions` succeeds.
    pub fn race(actions: Vec<ActionSpawn>) -> (t: ActionSpawn)
        ensures
            t == ActionSpawn::Sequence(SequenceMode::Race, actions),
    {
        ActionSpawn::Sequence(SequenceMode::Race, actions)
    }

    /// A template for a composite that runs `actions` one after the other.
    pub fn step(actions: Vec<ActionSpawn>) -> (t: ActionSpawn)
        ensures
            t == ActionSpawn::Sequence(SequenceMode::Step, actions),
    {
        ActionSpawn::Sequence(SequenceMode::Step, actions)
    }
}

// ------------------------------------------------------------- child queries

/// Every child's own state is `Success`.
pub open spec fn all_success(cs: Seq<ActionView>) -> bool {
    forall|i: int| 0 <= i < cs.len() ==> (#[trigger] cs[i]).state() is Success
}

/// Every child's own state is `Failure`.
pub open spec fn all_failure(cs: Seq<ActionView>) -> bool {
    forall|i: int| 0 <= i < cs.len() ==> (#[trigger] cs[i]).state() is Failure
}

/// Every child's own state is terminal.
pub open spec fn all_done(cs: Seq<ActionView>) -> bool {
    forall|i: int| 0 <= i < cs.len() ==> (#[trigger] cs[i]).state().done()
}

/// Some child's own state is `Failure`.
pub open spec fn any_failure(cs: Seq<ActionView>) -> bool {
    exists|i: int| 0 <= i < cs.len() && (#[trigger] cs[i]).state() is Failure
}

/// Some child's own state is `Success`.
pub open spec fn any_success(cs: Seq<ActionView>) -> bool {
    exists|i: int| 0 <= i < cs.len() && (#[trigger] cs[i]).state() is Success
}

/// The largest index whose child is in state `st`, or -1 if there is none.
pub open spec fn last_index_with(cs: Seq<ActionView>, st: ActionState) -> int
    decreases cs,
{
    if cs.len() == 0 {
        -1
    } else if cs.last().state() == st {
        cs.len() - 1
    } else {
        last_index_with(cs.drop_last(), st)
    }
}

/// `last_index_with` finds the last index in state `st` exactly.
pub proof fn lemma_last_index_with(cs: Seq<ActionView>, st: ActionState)
    ensures
        -1 <= last_index_with(cs, st) < cs.len(),
        last_index_with(cs, st) >= 0 ==> cs[last_index_with(cs, st)].state() == st,
        forall|j: int| last_index_with(cs, st) < j < cs.len() ==> (#[trigger] cs[j]).state() != st,
    decreases cs.len(),
{
    if cs.len() > 0 && cs.last().state() != st {
        lemma_last_index_with(cs.drop_last(), st);
        assert forall|j: int| last_index_with(cs, st) < j < cs.len() implies (
        #[trigger] cs[j]).state() != st by {
            if j < cs.len() - 1 {
                assert(cs.drop_last()[j] == cs[j]);
            }
        }
    }
}

/// Each running child before index `k` becomes `Cancelled`; the rest are
/// untouched.
pub open spec fn cancel_running_before(cs: Seq<ActionView>, k: int) -> Seq<ActionView> {
    Seq::new(
        cs.len(),
        |i: int|
            if i < k && cs[i].state() is Executing {
                cs[i].with_state(ActionState::Cancelled)
            } else {
                cs[i]
            },
    )
}

/// Each running child becomes `Cancelled`; the rest are untouched.
pub open spec fn cancel_running(cs: Seq<ActionView>) -> Seq<ActionView> {
    Seq::new(
        cs.len(),
        |i: int|
            if cs[i].state() is Executing {
                cs[i].with_state(ActionState::Cancelled)
            } else {
                cs[i]
            },
    )
}

// ----------------------------------------------------------------- join/race

/// The state a `Join` composite moves to, from its own state and its
/// children's: running, it succeeds once every child has succeeded and fails
/// once any child has failed; cancelled, it waits for every child to reach a
/// terminal state and then fails exactly when some child failed.
pub open spec fn join_state(st: ActionState, cs: Seq<ActionView>) -> ActionState {
    match st {
        ActionState::Executing => if all_success(cs) {
            ActionState::Success
        } else if any_failure(cs) {
            ActionState::Failure
        } else {
            ActionState::Executing
        },
        ActionState::Cancelled => if all_done(cs) {
            if any_failure(cs) {
                ActionState::Failure
            } else {
                ActionState::Success
            }
        } else {
            ActionState::Cancelled
        },
        _ => st,
    }
}

/// What a `Join` tick does to the children: once any child has failed,
/// every child still running is cancelled — those before the failing index
/// by the index-based rule, those after it because they are seen running
/// after a failure has already been observed; a cancelled composite likewise
/// cancels every running child; otherwise the children are untouched.
pub open spec fn join_children(st: ActionState, cs: Seq<ActionView>) -> Seq<ActionView> {
    match st {
        ActionState::Executing => if !all_success(cs) && any_failure(cs) {
            cancel_running(cs)
        } else {
            cs
        },
        ActionState::Cancelled => cancel_running(cs),
        _ => cs,
    }
}

/// The state a `Race` composite moves to: the mirror image of a `Join`. It
/// succeeds once any child has succeeded and fails once every child has
/// failed; cancelled, it waits for every child and then succeeds exactly when
/// some child succeeded.
pub open spec fn race_state(st: ActionState, cs: Seq<ActionView>) -> ActionState {
    match st {
        ActionState::Executing => if all_failure(cs) {
            ActionState::Failure
        } else if any_success(cs) {
            ActionState::Success
        } else {
            ActionState::Executing
        },
        ActionState::Cancelled => if all_done(cs) {
            if any_success(cs) {
                ActionState::Success
            } else {
                ActionState::Failure
            }
        } else {
            ActionState::Cancelled
        },
        _ => st,
    }
}

/// What a `Race` tick does to the children: on a success, every running child
/// before the (last) succeeding index is cancelled; a cancelled composite
/// cancels every running child; otherwise the children are untouched.
pub open spec fn race_children(st: ActionState, cs: Seq<ActionView>) -> Seq<ActionView> {
    match st {
        ActionState::Executing => if !all_failure(cs) && any_success(cs) {
            cancel_running_before(cs, last_index_with(cs, ActionState::Success))
        } else {
            cs
        },
        ActionState::Cancelled => cancel_running(cs),
        _ => cs,
    }
}

/// Reconciles a `Join` composite's state with its children's states, in
/// place; only the composite's own state and the children's own states
/// change.
pub(crate) fn exec_join(this_state: &mut ActionState, children: &mut Vec<Action>)
    ensures
        *final(this_state) == join_state(*old(this_state), action_views(old(children)@)),
        action_views(final(children)@) == join_children(
            *old(this_state),
            action_views(old(children)@),
        ),
        final(children)@.len() == old(children)@.len(),
        forall|i: int|
            0 <= i < old(children)@.len() ==> (#[trigger] final(children)@[i]).kind == old(
                children,
            )@[i].kind,
{
    let ghost cs = action_views(old(children)@);
    proof {
        lemma_action_views(old(children)@);
    }
    let n = children.len();
    match *this_state {
        ActionState::Executing => {
            let mut every_success = true;
            let mut any_failed = false;
            let mut i: usize = 0;
            while i < n
                invariant
                    n == children@.len(),
                    i <= n,
                    cs.len() == n,
                    forall|j: int| 0 <= j < n ==> (#[trigger] children@[j])@ == cs[j],
                    every_success == (forall|j: int|
                        0 <= j < i ==> (#[trigger] cs[j]).state() is Success),
                    any_failed == (exists|j: int|
                        0 <= j < i && (#[trigger] cs[j]).state() is Failure),
                decreases n - i,
            {
                let st = children[i].state;
                if !matches!(st, ActionState::Success) {
                    every_success = false;
                }
                if matches!(st, ActionState::Failure) {
                    any_failed = true;
                }
                i += 1;
            }
            if every_success {
                *this_state = ActionState::Success;
            } else if any_failed {
                cancel_running_all(children);
                *this_state = ActionState::Failure;
            }
            proof {
                lemma_action_views(final(children)@);
                if every_success || !any_failed {
                    assert(action_views(final(children)@) =~= join_children(
                        *old(this_state),
                        cs,
                    ));
                }
            }
        }
        ActionState::Cancelled => {
            let mut every_done = true;
            let mut any_err = false;
            let mut i: usize = 0;
            while i < n
                invariant
                    n == children@.len(),
                    i <= n,
                    cs.len() == n,
                    forall|j: int| i <= j < n ==> (#[trigger] children@[j])@ == cs[j],
                    forall|j: int|
                        0 <= j < i ==> (#[trigger] children@[j])@ == cancel_running(cs)[j],
                    forall|j: int| 0 <= j < n ==> (#[trigger] children@[j]).kind == old(
                        children,
                    )@[j].kind,
                    every_done == (forall|j: int| 0 <= j < i ==> (#[trigger] cs[j]).state().done()),
                    any_err == (exists|j: int|
                        0 <= j < i && (#[trigger] cs[j]).state() is Failure),
                decreases n - i,
            {
                let ghost prev = children@[i as int];
                let st = children[i].state;
                if !matches!(st, ActionState::Success | ActionState::Failure) {
                    every_done = false;
                }
                if matches!(st, ActionState::Failure) {
                    any_err = true;
                }
                if matches!(st, ActionState::Executing) {
                    let c = &mut children[i];
                    c.state = ActionState::Cancelled;
                }
                proof {
                    crate::action::lemma_action_view_with_state(prev, children@[i as int].state);
                }
                i += 1;
            }
            if every_done {
                *this_state = if any_err {
                    ActionState::Failure
                } else {
                    ActionState::Success
                };
            }
            proof {
                lemma_action_views(final(children)@);
                assert(action_views(final(children)@) =~= cancel_running(cs));
            }
        }
        _ => {
            proof {
                assert(action_views(final(children)@) =~= join_children(*old(this_state), cs));
            }
        }
    }
}

/// Cancels every running child, in place.
fn cancel_running_all(children: &mut Vec<Action>)
    ensures
        final(children)@.len() == old(children)@.len(),
        action_views(final(children)@) == cancel_running(action_views(old(children)@)),
        forall|i: int|
            0 <= i < old(children)@.len() ==> (#[trigger] final(children)@[i]).kind == old(
                children,
            )@[i].kind,
{
    let ghost cs = action_views(old(children)@);
    proof {
        lemma_action_views(old(children)@);
    }
    let n = children.len();
    let mut j: usize = 0;
    while j < n
        invariant
            n == children@.len(),
            j <= n,
            cs.len() == n,
            forall|i: int| j <= i < n ==> (#[trigger] children@[i])@ == cs[i],
            forall|i: int| 0 <= i < j ==> (#[trigger] children@[i])@ == cancel_running(cs)[i],
            forall|i: int| 0 <= i < n ==> (#[trigger] children@[i]).kind == old(
                children,
            )@[i].kind,
        decreases n - j,
    {
        let ghost prev = children@[j as int];
        if matches!(children[j].state, ActionState::Executing) {
            let c = &mut children[j];
            c.state = ActionState::Cancelled;
        }
        proof {
            crate::action::lemma_action_view_with_state(prev, children@[j as int].state);
        }
        j += 1;
    }
    proof {
        lemma_action_views(final(children)@);
        assert(action_views(final(children)@) =~= cancel_running(cs));
    }
}

/// Cancels every running child strictly before index `k`, in place.
fn cancel_running_prefix(children: &mut Vec<Action>, k: usize)
    requires
        k < old(children)@.len(),
    ensures
        final(children)@.len() == old(children)@.len(),
        action_views(final(children)@) == cancel_running_before(
            action_views(old(children)@),
            k as int,
        ),
        forall|i: int|
            0 <= i < old(children)@.len() ==> (#[trigger] final(children)@[i]).kind == old(
                children,
            )@[i].kind,
{
    let ghost cs = action_views(old(children)@);
    proof {
        lemma_action_views(old(children)@);
    }
    let mut j: usize = 0;
    while j < k
        invariant
            k < children@.len(),
            j <= k,
            cs.len() == children@.len(),
            forall|i: int| j <= i < children@.len() ==> (#[trigger] children@[i])@ == cs[i],
            forall|i: int|
                0 <= i < j ==> (#[trigger] children@[i])@ == cancel_running_before(cs, k as int)[i],
            forall|i: int| 0 <= i < children@.len() ==> (#[trigger] children@[i]).kind == old(
                children,
            )@[i].kind,
        decreases k - j,
    {
        let ghost prev = children@[j as int];
        if matches!(children[j].state, ActionState::Executing) {
            let c = &mut children[j];
            c.state = ActionState::Cancelled;
        }
        proof {
            crate::action::lemma_action_view_with_state(prev, children@[j as int].state);
        }
        j += 1;
    }
    proof {
        lemma_action_views(final(children)@);
        assert(action_views(final(children)@) =~= cancel_running_before(cs, k as int));
    }
}

/// Reconciles a `Race` composite's state with its children's states, in
/// place; only the composite's own state and the children's own states
/// change.
pub(crate) fn exec_race(this_state: &mut ActionState, children: &mut Vec<Action>)
    ensures
        *final(this_state) == race_state(*old(this_state), action_views(old(children)@)),
        action_views(final(children)@) == race_children(
            *old(this_state),
            action_views(old(children)@),
        ),
        final(children)@.len() == old(children)@.len(),
        forall|i: int|
            0 <= i < old(children)@.len() ==> (#[trigger] final(children)@[i]).kind == old(
                children,
            )@[i].kind,
{
    let ghost cs = action_views(old(children)@);
    proof {
        lemma_action_views(old(children)@);
    }
    let n = children.len();
    match *this_state {
        ActionState::Executing => {
            let mut every_failure = true;
            let mut succeeded: Option<usize> = None;
            let mut i: usize = 0;
            while i < n
                invariant
                    n == children@.len(),
                    i <= n,
                    cs.len() == n,
                    forall|j: int| 0 <= j < n ==> (#[trigger] children@[j])@ == cs[j],
                    every_failure == (forall|j: int|
                        0 <= j < i ==> (#[trigger] cs[j]).state() is Failure),
                    match succeeded {
                        Some(k) => {
                            &&& k < i
                            &&& cs[k as int].state() is Success
                            &&& forall|j: int| k < j < i ==> (#[trigger] cs[j]).state() !is Success
                        },
                        None => forall|j: int| 0 <= j < i ==> (#[trigger] cs[j]).state() !is Success,
                    },
                decreases n - i,
            {
                let st = children[i].state;
                if !matches!(st, ActionState::Failure) {
                    every_failure = false;
                }
                if matches!(st, ActionState::Success) {
                    succeeded = Some(i);
                }
                i += 1;
            }
            proof {
                lemma_last_index_with(cs, ActionState::Success);
            }
            if every_failure {
                *this_state = ActionState::Failure;
            } else if let Some(k) = succeeded {
                proof {
                    assert(last_index_with(cs, ActionState::Success) == k as int);
                }
                cancel_running_prefix(children, k);
                *this_state = ActionState::Success;
            }
            proof {
                lemma_action_views(final(children)@);
                if every_failure || succeeded is None {
                    assert(action_views(final(children)@) =~= race_children(
                        *old(this_state),
                        cs,
                    ));
                }
            }
        }
        ActionState::Cancelled => {
            let mut every_done = true;
            let mut any_ok = false;
            let mut i: usize = 0;
            while i < n
                invariant
                    n == children@.len(),
                    i <= n,
                    cs.len() == n,
                    forall|j: int| i <= j < n ==> (#[trigger] children@[j])@ == cs[j],
                    forall|j: int|
                        0 <= j < i ==> (#[trigger] children@[j])@ == cancel_running(cs)[j],
                    forall|j: int| 0 <= j < n ==> (#[trigger] children@[j]).kind == old(
                        children,
                    )@[j].kind,
                    every_done == (forall|j: int| 0 <= j < i ==> (#[trigger] cs[j]).state().done()),
                    any_ok == (exists|j: int|
                        0 <= j < i && (#[trigger] cs[j]).state() is Success),
                decreases n - i,
            {
                let ghost prev = children@[i as int];
                let st = children[i].state;
                if !matches!(st, ActionState::Success | ActionState::Failure) {
                    every_done = false;
                }
                if matches!(st, ActionState::Success) {
                    any_ok = true;
                }
                if matches!(st, ActionState::Executing) {
                    let c = &mut children[i];
                    c.state = ActionState::Cancelled;
                }
                proof {
                    crate::action::lemma_action_view_with_state(prev, children@[i as int].state);
                }
                i += 1;
            }
            if every_done {
                *this_state = if any_ok {
                    ActionState::Success
                } else {
                    ActionState::Failure
                };
            }
            proof {
                lemma_action_views(final(children)@);
                assert(action_views(final(children)@) =~= cancel_running(cs));
            }
        }
        _ => {
            proof {
                assert(action_views(final(children)@) =~= race_children(*old(this_state), cs));
            }
        }
    }
}

// ----------------------------------------------------------------------- step

/// The state a `Step` composite moves to, from its own state, its active
/// index, and its single live child: the chain succeeds when its last step
/// succeeds, fails as soon as any step fails, and, once cancelled, forwards
/// the live child's terminal state.
pub open spec fn step_state(
    st: ActionState,
    active_step: int,
    steps: Seq<SpawnView>,
    cs: Seq<ActionView>,
) -> ActionState {
    if cs.len() == 0 {
        st
    } else {
        match st {
            ActionState::Executing => match cs[0].state() {
                ActionState::Success => if active_step == steps.len() - 1 {
                    ActionState::Success
                } else {
                    ActionState::Executing
                },
                ActionState::Failure => ActionState::Failure,
                _ => ActionState::Executing,
            },
            ActionState::Cancelled => match cs[0].state() {
                ActionState::Success => ActionState::Success,
                ActionState::Failure => ActionState::Failure,
                _ => ActionState::Cancelled,
            },
            _ => st,
        }
    }
}

/// The active index after a `Step` tick: it advances exactly when the live
/// child of a running chain succeeded and it was not the last step.
pub open spec fn step_active(
    st: ActionState,
    active_step: int,
    steps: Seq<SpawnView>,
    cs: Seq<ActionView>,
) -> int {
    if cs.len() > 0 && st is Executing && cs[0].state() is Success && active_step != steps.len()
        - 1 {
        active_step + 1
    } else {
        active_step
    }
}

/// What a `Step` tick does to the live child: a finished child is despawned
/// (and, unless the chain ended, replaced by a fresh instance of the next
/// step); a running child of a cancelled chain is cancelled; otherwise it is
/// left to run.
pub open spec fn step_children(
    st: ActionState,
    active_step: int,
    steps: Seq<SpawnView>,
    cs: Seq<ActionView>,
) -> Seq<ActionView> {
    if cs.len() == 0 {
        cs
    } else {
        match st {
            ActionState::Executing => match cs[0].state() {
                ActionState::Success => if active_step == steps.len() - 1 {
                    Seq::empty()
                } else {
                    seq![spawn_of(steps[active_step + 1])]
                },
                ActionState::Failure => Seq::empty(),
                _ => cs,
            },
            ActionState::Cancelled => if cs[0].state() is Executing {
                cs.update(0, cs[0].with_state(ActionState::Cancelled))
            } else {
                cs
            },
            _ => cs,
        }
    }
}

/// Advances a `Step` composite, in place: reads the live child's state,
/// despawns it once terminal, and instantiates the next step while the chain
/// is still running.
pub(crate) fn exec_step(
    this_state: &mut ActionState,
    active_step: &mut usize,
    steps: &Vec<ActionSpawn>,
    children: &mut Vec<Action>,
)
    requires
        old(children)@.len() <= 1,
        old(children)@.len() == 1 ==> *old(active_step) < steps@.len(),
    ensures
        *final(this_state) == step_state(
            *old(this_state),
            *old(active_step) as int,
            spawn_views(steps@),
            action_views(old(children)@),
        ),
        *final(active_step) as int == step_active(
            *old(this_state),
            *old(active_step) as int,
            spawn_views(steps@),
            action_views(old(children)@),
        ),
        action_views(final(children)@) == step_children(
            *old(this_state),
            *old(active_step) as int,
            spawn_views(steps@),
            action_views(old(children)@),
        ),
{
    let ghost cs = action_views(old(children)@);
    proof {
        lemma_action_views(old(children)@);
        lemma_spawn_views(steps@);
    }
    if children.len() == 0 {
        return ;
    }
    let n_steps = steps.len();
    proof {
        assert(old(children)@.len() == 1);
        assert(*old(active_step) < n_steps);
    }
    let child_state = children[0].state;
    match (*this_state, child_state) {
        (ActionState::Executing, ActionState::Success) => {
            if *active_step + 1 == n_steps {
                children.clear();
                *this_state = ActionState::Success;
            } else {
                *active_step += 1;
                let c = steps[*active_step].spawn();
                children.clear();
                children.push(c);
            }
            proof {
                lemma_action_views(final(children)@);
                assert(action_views(final(children)@) =~= step_children(
                    *old(this_state),
                    *old(active_step) as int,
                    spawn_views(steps@),
                    cs,
                ));
            }
        }
        (ActionState::Executing, ActionState::Failure) => {
            children.clear();
            *this_state = ActionState::Failure;
            proof {
                assert(action_views(final(children)@) =~= step_children(
                    *old(this_state),
                    *old(active_step) as int,
                    spawn_views(steps@),
                    cs,
                ));
            }
        }
        (ActionState::Cancelled, ActionState::Executing) => {
            let ghost prev = children@[0];
            let c = &mut children[0];
            c.state = ActionState::Cancelled;
            proof {
                crate::action::lemma_action_view_with_state(prev, ActionState::Cancelled);
                lemma_action_views(final(children)@);
                assert(action_views(final(children)@) =~= cs.update(
                    0,
                    cs[0].with_state(ActionState::Cancelled),
                ));
            }
        }
        (ActionState::Cancelled, ActionState::Success) => {
            *this_state = ActionState::Success;
        }
        (ActionState::Cancelled, ActionState::Failure) => {
            *this_state = ActionState::Failure;
        }
        _ => {}
    }
}

// ----------------------------------------------------------------- the pass

/// One composite pass over an action tree: children are reconciled first,
/// then the node's own combinator runs on the updated children. A step child
/// freshly spawned by this pass is not reconciled until the next pass, and
/// leaves are driven only by the application's own action logic.
pub open spec fn sequence_pass(a: ActionView) -> ActionView
    decreases a,
{
    match a {
        ActionView::Leaf { .. } => a,
        ActionView::Sequence { state, mode, active_step, steps, children } => {
            let cs = pass_children(children);
            match mode {
                SequenceMode::Join => ActionView::Sequence {
                    state: join_state(state, cs),
                    mode,
                    active_step,
                    steps,
                    children: join_children(state, cs),
                },
                SequenceMode::Race => ActionView::Sequence {
                    state: race_state(state, cs),
                    mode,
                    active_step,
                    steps,
                    children: race_children(state, cs),
                },
                SequenceMode::Step => ActionView::Sequence {
                    state: step_state(state, active_step, steps, cs),
                    mode,
                    active_step: step_active(state, active_step, steps, cs),
                    steps,
                    children: step_children(state, active_step, steps, cs),
                },
            }
        },
    }
}

/// The composite pass applied to each tree of a sequence, element by element.
pub open spec fn pass_children(cs: Seq<ActionView>) -> Seq<ActionView>
    decreases cs,
{
    if cs.len() == 0 {
        Seq::empty()
    } else {
        pass_children(cs.drop_last()).push(sequence_pass(cs.last()))
    }
}

/// `pass_children` maps `sequence_pass` over the sequence, element by element.
pub proof fn lemma_pass_children(cs: Seq<ActionView>)
    ensures
        pass_children(cs).len() == cs.len(),
        forall|i: int| 0 <= i < cs.len() ==> pass_children(cs)[i] == sequence_pass(cs[i]),
    decreases cs.len(),
{
    if cs.len() > 0 {
        lemma_pass_children(cs.drop_last());
    }
}

/// One composite pass leaves a well-formed tree well-formed.
pub proof fn lemma_sequence_pass_wf(a: ActionView)
    requires
        crate::action::action_wf(a),
    ensures
        crate::action::action_wf(sequence_pass(a)),
    decreases a,
{
    match a {
        ActionView::Leaf { .. } => {}
        ActionView::Sequence { state, mode, active_step, steps, children } => {
            lemma_pass_children_wf(children);
            lemma_pass_children(children);
            let cs = pass_children(children);
            crate::action::lemma_actions_wf(cs);
            match mode {
                SequenceMode::Join => {
                    let rs = join_children(state, cs);
                    assert forall|i: int| 0 <= i < rs.len() implies crate::action::action_wf(
                        #[trigger] rs[i]) by {
                        crate::action::lemma_with_state_wf(cs[i], ActionState::Cancelled);
                    }
                    crate::action::lemma_actions_wf(rs);
                }
                SequenceMode::Race => {
                    let rs = race_children(state, cs);
                    assert forall|i: int| 0 <= i < rs.len() implies crate::action::action_wf(
                        #[trigger] rs[i]) by {
                        crate::action::lemma_with_state_wf(cs[i], ActionState::Cancelled);
                    }
                    crate::action::lemma_actions_wf(rs);
                }
                SequenceMode::Step => {
                    let rs = step_children(state, active_step, steps, cs);
                    if cs.len() > 0 && state is Executing && cs[0].state() is Success
                        && active_step != steps.len() - 1 {
                        crate::action::lemma_spawn_wf(steps[active_step + 1]);
                    }
                    assert forall|i: int| 0 <= i < rs.len() implies crate::action::action_wf(
                        #[trigger] rs[i]) by {
                        if i < cs.len() {
                            crate::action::lemma_with_state_wf(cs[i], ActionState::Cancelled);
                        }
                    }
                    crate::action::lemma_actions_wf(rs);
                }
            }
        }
    }
}

/// The composite pass leaves every tree of a well-formed list well-formed.
pub proof fn lemma_pass_children_wf(cs: Seq<ActionView>)
    requires
        crate::action::actions_wf(cs),
    ensures
        crate::action::actions_wf(pass_children(cs)),
    decreases cs,
{
    if cs.len() > 0 {
        lemma_pass_children_wf(cs.drop_last());
        lemma_sequence_pass_wf(cs.last());
        assert(pass_children(cs).drop_last() =~= pass_children(cs.drop_last()));
    }
}

/// Runs one composite pass over an owned action tree and hands the tree
/// back: children are reconciled before their parent, and a step child
/// spawned by this pass is left untouched until the next one.
pub fn sequence_system(a: Action) -> (r: Action)
    requires
        crate::action::action_wf(a@),
    ensures
        r@ == sequence_pass(a@),
        crate::action::action_wf(r@),
    decreases a,
{
    let ghost a0 = a;
    proof {
        lemma_sequence_pass_wf(a0@);
    }
    match a {
        Action { state, kind: ActionKind::Leaf(tag) } => Action {
            state,
            kind: ActionKind::Leaf(tag),
        },
        Action { state, kind: ActionKind::Sequence(sq) } => {
            let Sequence { mode, mut active_step, steps, children } = sq;
            let ghost active0 = active_step;
            let ghost cs0 = children@;
            let mut rest = children;
            let mut ticked: Vec<Action> = Vec::new();
            proof {
                lemma_action_views(cs0);
                assert(a0.kind->Sequence_0.children@ == cs0);
                assert(a0@ == ActionView::Sequence {
                    state,
                    mode,
                    active_step: active0 as int,
                    steps: spawn_views(steps@),
                    children: action_views(cs0),
                });
                crate::action::lemma_actions_wf(action_views(cs0));
                assert forall|j: int| 0 <= j < cs0.len() implies crate::action::action_wf((
                #[trigger] cs0[j])@) by {
                    assert(action_views(cs0)[j] == cs0[j]@);
                }
                assert(rest@ =~= cs0.subrange(0, cs0.len() as int));
            }
            #[verifier::loop_isolation(false)]
            while rest.len() > 0
                invariant
                    a0.kind matches ActionKind::Sequence(s0) && s0.children@ == cs0,
                    ticked@.len() + rest@.len() == cs0.len(),
                    rest@ == cs0.subrange(ticked@.len() as int, cs0.len() as int),
                    forall|j: int|
                        0 <= j < ticked@.len() ==> (#[trigger] ticked@[j])@ == sequence_pass(
                            cs0[j]@,
                        ) && crate::action::action_wf(ticked@[j]@),
                    forall|j: int|
                        0 <= j < cs0.len() ==> crate::action::action_wf((#[trigger] cs0[j])@),
                decreases rest@.len(),
            {
                let ghost idx = ticked@.len() as int;
                let c = rest.remove(0);
                proof {
                    assert(c == cs0[idx]);
                    assert(rest@ =~= cs0.subrange(idx + 1, cs0.len() as int));
                    assert(decreases_to!(a0 => a0.kind));
                    assert(decreases_to!(a0.kind => a0.kind->Sequence_0));
                    assert(decreases_to!(a0.kind->Sequence_0 => a0.kind->Sequence_0.children));
                    assert(decreases_to!(a0.kind->Sequence_0.children => a0.kind->Sequence_0.children@));
                    assert(decreases_to!(cs0 => cs0[idx]));
                    assert(decreases_to!(a0 => c));
                }
                let t = sequence_system(c);
                ticked.push(t);
            }
            let ghost avs = action_views(cs0);
            let ghost cs = pass_children(avs);
            proof {
                lemma_action_views(ticked@);
                lemma_pass_children(avs);
                assert(action_views(ticked@) =~= cs);
            }
            let mut st = state;
            match mode {
                SequenceMode::Join => exec_join(&mut st, &mut ticked),
                SequenceMode::Race => exec_race(&mut st, &mut ticked),
                SequenceMode::Step => {
                    proof {
                        lemma_spawn_views(steps@);
                        assert(ticked@.len() == cs0.len());
                        assert(ticked@.len() <= 1);
                        assert(ticked@.len() == 1 ==> active_step < steps@.len());
                    }
                    exec_step(&mut st, &mut active_step, &steps, &mut ticked);
                }
            }
            let r = Action {
                state: st,
                kind: ActionKind::Sequence(Sequence { mode, active_step, steps, children: ticked }),
            };
            proof {
                assert(r@ == sequence_pass(a0@));
            }
            r
        }
    }
}

} // verus!
