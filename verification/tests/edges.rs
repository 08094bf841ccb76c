use big_brain::action::{ActionSpawn, ActionState};
use big_brain::pickers::{FirstToScore, Highest};
use big_brain::scorer::{
    all_or_nothing_score, sum_of_scorers_score, winning_scorer_score, AllOrNothing,
    CompensatedProductOfScorers, ProductOfScorers, Scorer,
};
use big_brain::sequence::{sequence_system, Sequence};
use big_brain::thinker::{Actor, ThinkerSpawner};

#[test]
fn empty_join_succeeds_vacuously() {
    let a = Sequence::join(Vec::new()).spawn();
    let a = sequence_system(a);
    assert_eq!(a.state(), ActionState::Success);
}

#[test]
fn empty_race_fails_vacuously() {
    let a = Sequence::race(Vec::new()).spawn();
    let a = sequence_system(a);
    assert_eq!(a.state(), ActionState::Failure);
}

#[test]
fn empty_step_chain_stays_running() {
    let a = Sequence::step(Vec::new()).spawn();
    let a = sequence_system(a);
    assert_eq!(a.state(), ActionState::Executing);
    assert_eq!(a.child_states(), vec![]);
}

#[test]
fn pickers_with_no_choices_pick_nothing() {
    assert_eq!(Highest { threshold: 0 }.pick(&Vec::new()), None);
    assert_eq!(FirstToScore::new(0).pick(&Vec::new()), None);
}

#[test]
fn childless_composite_scorers_have_defined_values() {
    let run = |s: Scorer| s.evaluate().score.get();
    // an empty sum is 0, an empty product is 1, an empty maximum is 0
    assert_eq!(run(AllOrNothing::build(0, Vec::new())), 0);
    assert_eq!(run(ProductOfScorers::build(0, Vec::new())), 10_000);
    // the empty product skips compensation entirely
    assert_eq!(run(CompensatedProductOfScorers::build(0, Vec::new())), 10_000);
    assert_eq!(all_or_nothing_score(5000, &Vec::new()), 0);
    assert_eq!(sum_of_scorers_score(1, &Vec::new()), 0);
    assert_eq!(winning_scorer_score(0, &Vec::new()), 0);
}

#[test]
fn thinker_without_choices_runs_only_scheduled_work() {
    let mut t = ThinkerSpawner::highest(0).spawn(Actor(9));
    t.think();
    assert!(t.current().is_none());
    t.schedule(ActionSpawn::Leaf(1));
    t.think();
    assert!(t.has_action_leaf(1, ActionState::Executing));
    assert!(!t.has_scheduled());
}
