use big_brain::action::{ActionSpawn, ActionState};
use big_brain::scorer::{FixedScorer, InputScorer, MeasuredScorer};
use big_brain::thinker::{Actor, ThinkerSpawner};
use big_brain::BigBrainSet;

#[test]
fn action_state_queries_match_the_variants() {
    let mut st = ActionState::Executing;
    assert!(st.is_executing() && !st.is_done());
    st.cancel();
    assert!(st.is_cancelled());
    st.success();
    assert!(st.is_success() && st.is_done());
    st.failure();
    assert!(st.is_failure() && st.is_done());

    let mut running = ActionState::Executing;
    running.cancel_if_executing();
    assert_eq!(running, ActionState::Cancelled);
    let mut finished = ActionState::Success;
    finished.cancel_if_executing();
    assert_eq!(finished, ActionState::Success);
}

#[test]
fn engine_passes_are_distinct_labels() {
    let order = [
        BigBrainSet::Scorers,
        BigBrainSet::Actions,
        BigBrainSet::Sequence,
        BigBrainSet::Thinker,
    ];
    for (i, a) in order.iter().enumerate() {
        for (j, b) in order.iter().enumerate() {
            assert_eq!(a == b, i == j);
        }
    }
}

#[test]
fn set_action_state_drives_leaves_unconditionally() {
    let mut t = ThinkerSpawner::highest(0)
        .when(InputScorer(1).spawn(), ActionSpawn::Leaf(5))
        .spawn(Actor(3));
    t.set_input(1, 8000);
    t.evaluate_scores();
    t.think();
    assert!(t.has_action_leaf(5, ActionState::Executing));
    t.set_action_state(5, ActionState::Success);
    assert!(t.has_action_leaf(5, ActionState::Success));
}

#[test]
fn measured_product_combines_weighted_children() {
    let tree = MeasuredScorer::product(
        0,
        vec![
            (FixedScorer(10_000).spawn(), 5000),
            (FixedScorer(10_000).spawn(), 5000),
        ],
    );
    // each weighted term is 0.5, their fixed-point product 0.25
    assert_eq!(tree.evaluate().score.get(), 2500);
}
