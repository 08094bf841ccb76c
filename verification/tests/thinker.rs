use big_brain::action::{ActionSpawn, ActionState};
use big_brain::scorer::{InputScorer, SCORE_ONE};
use big_brain::thinker::{Actor, Thinker, ThinkerSpawner};

const THIRSTY: u64 = 1;
const HUNGRY: u64 = 2;
const DRINK: u64 = 10;
const EAT: u64 = 20;
const MEANDER: u64 = 30;
const ONE_SHOT: u64 = 40;

fn two_choice_thinker() -> Thinker {
    ThinkerSpawner::highest(0)
        .when(InputScorer(THIRSTY).spawn(), ActionSpawn::Leaf(DRINK))
        .when(InputScorer(HUNGRY).spawn(), ActionSpawn::Leaf(EAT))
        .spawn(Actor(1))
}

fn feed_and_think(t: &mut Thinker, thirst: u64, hunger: u64) {
    t.set_input(THIRSTY, thirst);
    t.set_input(HUNGRY, hunger);
    t.evaluate_scores();
    t.think();
}

#[test]
fn thinker_idles_when_nothing_scores() {
    let mut t = two_choice_thinker();
    feed_and_think(&mut t, 0, 0);
    assert!(t.current().is_none());
}

#[test]
fn thinker_starts_the_winning_choice() {
    let mut t = two_choice_thinker();
    feed_and_think(&mut t, 9000, 2000);
    assert!(t.has_action_leaf(DRINK, ActionState::Executing));
}

#[test]
fn cancel_before_replace_never_swaps_a_running_action() {
    let mut t = two_choice_thinker();
    feed_and_think(&mut t, 9000, 2000);
    assert!(t.has_action_leaf(DRINK, ActionState::Executing));

    // the picker now prefers the other choice: the running action is asked
    // to wind down, nothing new is instantiated yet
    feed_and_think(&mut t, 1000, 9000);
    assert!(t.has_action_leaf(DRINK, ActionState::Cancelled));
    assert!(!t.has_action_leaf(EAT, ActionState::Executing));

    // still winding down: a further tick changes nothing
    feed_and_think(&mut t, 1000, 9000);
    assert!(t.has_action_leaf(DRINK, ActionState::Cancelled));

    // the old action reports failure while cancelled; only now is it
    // destroyed and the new one instantiated
    t.step_action_state(DRINK, ActionState::Cancelled, ActionState::Failure);
    feed_and_think(&mut t, 1000, 9000);
    assert!(t.has_action_leaf(EAT, ActionState::Executing));
    assert!(!t.has_action_leaf(DRINK, ActionState::Failure));
}

#[test]
fn repicking_the_same_choice_leaves_the_action_untouched() {
    let mut t = two_choice_thinker();
    feed_and_think(&mut t, 9000, 2000);
    assert!(t.has_action_leaf(DRINK, ActionState::Executing));
    feed_and_think(&mut t, 9000, 2000);
    feed_and_think(&mut t, 9000, 2000);
    // no cancellation, no re-instantiation
    assert!(t.has_action_leaf(DRINK, ActionState::Executing));
    assert_eq!(t.current().unwrap().state(), ActionState::Executing);
}

#[test]
fn finished_actions_are_destroyed_and_replaced_in_one_tick() {
    let mut t = two_choice_thinker();
    feed_and_think(&mut t, 9000, 2000);
    t.step_action_state(DRINK, ActionState::Executing, ActionState::Success);
    feed_and_think(&mut t, 2000, 9000);
    assert!(t.has_action_leaf(EAT, ActionState::Executing));
}

#[test]
fn scheduled_actions_preempt_arbitration() {
    let mut t = two_choice_thinker();
    feed_and_think(&mut t, 9000, 2000);
    assert!(t.has_action_leaf(DRINK, ActionState::Executing));

    t.schedule(ActionSpawn::Leaf(ONE_SHOT));
    assert!(t.has_scheduled());
    // the pending one-shot forces cancellation of the running action
    feed_and_think(&mut t, 9000, 2000);
    assert!(t.has_action_leaf(DRINK, ActionState::Cancelled));

    t.step_action_state(DRINK, ActionState::Cancelled, ActionState::Failure);
    feed_and_think(&mut t, 9000, 2000);
    assert!(t.has_action_leaf(ONE_SHOT, ActionState::Executing));
    assert!(!t.has_scheduled());

    // the one-shot runs to completion even though a choice still scores
    feed_and_think(&mut t, 9000, 2000);
    assert!(t.has_action_leaf(ONE_SHOT, ActionState::Executing));
}

#[test]
fn otherwise_fills_an_empty_slot_when_nothing_scores() {
    let mut t = ThinkerSpawner::first_to_score(1)
        .when(InputScorer(THIRSTY).spawn(), ActionSpawn::Leaf(DRINK))
        .otherwise(ActionSpawn::Leaf(MEANDER))
        .spawn(Actor(2));
    feed_one_and_think(&mut t, 0);
    assert!(t.has_action_leaf(MEANDER, ActionState::Executing));

    // once a real choice scores, the fallback is wound down first
    feed_one_and_think(&mut t, SCORE_ONE);
    assert!(t.has_action_leaf(MEANDER, ActionState::Cancelled));
    t.step_action_state(MEANDER, ActionState::Cancelled, ActionState::Success);
    feed_one_and_think(&mut t, SCORE_ONE);
    assert!(t.has_action_leaf(DRINK, ActionState::Executing));
}

fn feed_one_and_think(t: &mut Thinker, thirst: u64) {
    t.set_input(THIRSTY, thirst);
    t.evaluate_scores();
    t.think();
}

#[test]
fn cancelling_the_thinker_waits_for_its_action() {
    let mut t = two_choice_thinker();
    assert!(t.cancel());

    feed_and_think(&mut t, 9000, 2000);
    assert!(!t.cancel());
    assert!(t.has_action_leaf(DRINK, ActionState::Cancelled));
    assert!(!t.cancel());
    t.step_action_state(DRINK, ActionState::Cancelled, ActionState::Failure);
    assert!(t.cancel());
    assert!(t.current().is_none());
}

#[test]
fn actor_handle_is_preserved() {
    let t = two_choice_thinker();
    assert_eq!(t.actor.entity(), 1);
}
