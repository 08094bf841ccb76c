use big_brain::action::{ActionSpawn, ActionState};
use big_brain::scorer::{IdleScorer, InputScorer, Scorer, SCORE_ONE};
use big_brain::sequence::Sequence;
use big_brain::thinker::{Actor, Thinker, ThinkerSpawner};

const NO_FAILURE: u64 = 1;
const FAILURE_ACTION: u64 = 100;
const A_ACTION: u64 = 101;
const B_ACTION: u64 = 102;
const C_ACTION: u64 = 103;
const D_ACTION: u64 = 104;
const EXIT_ACTION: u64 = 105;

fn no_failure_scorer() -> Scorer {
    InputScorer(NO_FAILURE).spawn()
}

/// A step chain behind a scorer that drops to zero once any failure action
/// ran: the thinker must abandon the failing chain and walk the mock chain
/// through to its exit action, never cancelling a failure action.
#[test]
fn steps() {
    let spawner = ThinkerSpawner::first_to_score(1)
        .when(
            no_failure_scorer(),
            Sequence::step(vec![ActionSpawn::Leaf(FAILURE_ACTION)]),
        )
        .when(
            IdleScorer.spawn(),
            Sequence::step(vec![
                ActionSpawn::Leaf(A_ACTION),
                ActionSpawn::Leaf(B_ACTION),
                ActionSpawn::Leaf(C_ACTION),
                ActionSpawn::Leaf(D_ACTION),
                ActionSpawn::Leaf(EXIT_ACTION),
            ]),
        );
    let mut thinker: Thinker = spawner.spawn(Actor(1));

    let mut failure_seen = false;
    let mut exited = false;
    for _tick in 0..100 {
        // scorer pass: the no-failure scorer reports 1.0 until a failure
        // action has run
        let score = if failure_seen { 0 } else { SCORE_ONE };
        thinker.set_input(NO_FAILURE, score);
        thinker.evaluate_scores();

        // action pass: the application's own systems drive the leaves
        assert!(
            !thinker.has_action_leaf(FAILURE_ACTION, ActionState::Cancelled),
            "wtf?"
        );
        if thinker.has_action_leaf(FAILURE_ACTION, ActionState::Executing) {
            failure_seen = true;
        }
        thinker.step_action_state(FAILURE_ACTION, ActionState::Executing, ActionState::Failure);
        for tag in [A_ACTION, B_ACTION, C_ACTION, D_ACTION] {
            thinker.step_action_state(tag, ActionState::Executing, ActionState::Success);
            thinker.step_action_state(tag, ActionState::Cancelled, ActionState::Failure);
        }
        if thinker.has_action_leaf(EXIT_ACTION, ActionState::Executing) {
            exited = true;
            break;
        }
        thinker.step_action_state(EXIT_ACTION, ActionState::Cancelled, ActionState::Failure);

        // composite pass, then the thinker's own pass
        thinker.run_sequences();
        thinker.think();
    }
    assert!(failure_seen);
    assert!(exited, "end");
}
