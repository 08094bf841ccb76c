use big_brain::action::{Action, ActionSpawn, ActionState};
use big_brain::sequence::{sequence_system, Sequence};

fn leaves(tags: &[u64]) -> Vec<ActionSpawn> {
    tags.iter().map(|&t| ActionSpawn::Leaf(t)).collect()
}

fn drive(a: Action, tag: u64, st: ActionState) -> Action {
    a.set_leaf_states(tag, st)
}

#[test]
fn join_succeeds_when_all_children_succeed() {
    let mut a = Sequence::join(leaves(&[1, 2, 3])).spawn();
    a = drive(a, 1, ActionState::Success);
    a = drive(a, 2, ActionState::Success);
    a = drive(a, 3, ActionState::Success);
    let a = sequence_system(a);
    assert_eq!(a.state(), ActionState::Success);
}

#[test]
fn join_fails_and_cancels_the_child_running_after_the_failure() {
    let mut a = Sequence::join(leaves(&[1, 2, 3])).spawn();
    a = drive(a, 1, ActionState::Success);
    a = drive(a, 2, ActionState::Failure);
    let a = sequence_system(a);
    assert_eq!(a.state(), ActionState::Failure);
    // index 0 finished before the failure and is untouched; index 2, seen
    // running after the failure, is cancelled by the downstream rule (the
    // index-based rule alone would not have reached it)
    assert_eq!(
        a.child_states(),
        vec![ActionState::Success, ActionState::Failure, ActionState::Cancelled]
    );
}

#[test]
fn join_cancels_every_running_child_on_a_failure() {
    let mut a = Sequence::join(leaves(&[1, 2, 3])).spawn();
    a = drive(a, 2, ActionState::Failure);
    let a = sequence_system(a);
    assert_eq!(a.state(), ActionState::Failure);
    assert_eq!(
        a.child_states(),
        vec![ActionState::Cancelled, ActionState::Failure, ActionState::Cancelled]
    );
}

#[test]
fn cancelled_join_waits_then_reports_failure_of_any_child() {
    let mut a = Sequence::join(leaves(&[1, 2])).spawn();
    a.state = ActionState::Cancelled;
    let mut a = sequence_system(a);
    assert_eq!(a.state(), ActionState::Cancelled);
    assert_eq!(a.child_states(), vec![ActionState::Cancelled, ActionState::Cancelled]);
    a = drive(a, 1, ActionState::Success);
    a = drive(a, 2, ActionState::Failure);
    let a = sequence_system(a);
    assert_eq!(a.state(), ActionState::Failure);
}

#[test]
fn cancelled_join_reports_success_when_every_child_succeeded() {
    let mut a = Sequence::join(leaves(&[1, 2])).spawn();
    a = drive(a, 1, ActionState::Success);
    a = drive(a, 2, ActionState::Success);
    a.state = ActionState::Cancelled;
    let a = sequence_system(a);
    assert_eq!(a.state(), ActionState::Success);
}

#[test]
fn race_succeeds_and_cancels_only_children_before_the_success() {
    let mut a = Sequence::race(leaves(&[1, 2, 3])).spawn();
    a = drive(a, 2, ActionState::Success);
    let a = sequence_system(a);
    assert_eq!(a.state(), ActionState::Success);
    // index 0 was still running before the succeeding index and is
    // cancelled; index 2 is left to resolve on its own
    assert_eq!(
        a.child_states(),
        vec![ActionState::Cancelled, ActionState::Success, ActionState::Executing]
    );
}

#[test]
fn race_fails_once_every_child_failed() {
    let mut a = Sequence::race(leaves(&[1, 2])).spawn();
    a = drive(a, 1, ActionState::Failure);
    a = drive(a, 2, ActionState::Failure);
    let a = sequence_system(a);
    assert_eq!(a.state(), ActionState::Failure);
}

#[test]
fn cancelled_race_waits_then_reports_any_success() {
    let mut a = Sequence::race(leaves(&[1, 2])).spawn();
    a.state = ActionState::Cancelled;
    let mut a = sequence_system(a);
    assert_eq!(a.state(), ActionState::Cancelled);
    a = drive(a, 1, ActionState::Failure);
    a = drive(a, 2, ActionState::Success);
    let a = sequence_system(a);
    assert_eq!(a.state(), ActionState::Success);
}

#[test]
fn step_advances_through_its_chain_and_succeeds_at_the_end() {
    let mut a = Sequence::step(leaves(&[1, 2, 3])).spawn();
    // only the first step is live
    assert!(a.has_leaf(1, ActionState::Executing));
    assert!(!a.has_leaf(2, ActionState::Executing));

    a = drive(a, 1, ActionState::Success);
    a = sequence_system(a);
    assert_eq!(a.state(), ActionState::Executing);
    assert!(!a.has_leaf(1, ActionState::Success));
    assert!(a.has_leaf(2, ActionState::Executing));
    assert_eq!(a.child_states(), vec![ActionState::Executing]);

    a = drive(a, 2, ActionState::Success);
    a = sequence_system(a);
    assert!(a.has_leaf(3, ActionState::Executing));

    a = drive(a, 3, ActionState::Success);
    a = sequence_system(a);
    assert_eq!(a.state(), ActionState::Success);
    assert_eq!(a.child_states(), vec![]);
}

#[test]
fn step_fails_as_soon_as_a_step_fails() {
    let mut a = Sequence::step(leaves(&[1, 2])).spawn();
    a = drive(a, 1, ActionState::Failure);
    let a = sequence_system(a);
    assert_eq!(a.state(), ActionState::Failure);
    assert_eq!(a.child_states(), vec![]);
}

#[test]
fn cancelled_step_cancels_its_live_child_and_forwards_its_end() {
    let mut a = Sequence::step(leaves(&[1, 2])).spawn();
    a.state = ActionState::Cancelled;
    let mut a = sequence_system(a);
    assert_eq!(a.child_states(), vec![ActionState::Cancelled]);
    a = drive(a, 1, ActionState::Failure);
    let a = sequence_system(a);
    assert_eq!(a.state(), ActionState::Failure);
}

#[test]
fn nested_composites_reconcile_children_first() {
    let inner = Sequence::join(leaves(&[1, 2]));
    let mut a = Sequence::race(vec![inner, ActionSpawn::Leaf(3)]).spawn();
    a = drive(a, 1, ActionState::Success);
    a = drive(a, 2, ActionState::Success);
    // the inner join resolves and the outer race sees it in the same pass
    let a = sequence_system(a);
    assert_eq!(a.state(), ActionState::Success);
}
