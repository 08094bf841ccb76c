use big_brain::action::ActionSpawn;
use big_brain::pickers::{Choice, FirstToScore, Highest, Picker};
use big_brain::scorer::{InputScorer, Score};

fn choices_with_scores(scores: &[u64]) -> Vec<Choice> {
    let mut out = Vec::new();
    for (i, &s) in scores.iter().enumerate() {
        let mut scorer = InputScorer(i as u64).spawn();
        scorer.score = Score(s);
        out.push(Choice {
            scorer,
            action: ActionSpawn::Leaf(i as u64),
        });
    }
    out
}

#[test]
fn highest_tie_breaks_on_first_maximum() {
    let choices = choices_with_scores(&[4000, 9000, 9000]);
    let picker = Highest { threshold: 0 };
    assert_eq!(picker.pick(&choices), Some(1));
}

#[test]
fn first_to_score_keeps_list_order() {
    let choices = choices_with_scores(&[3000, 8000, 9500]);
    let picker = FirstToScore::new(5000);
    assert_eq!(picker.pick(&choices), Some(1));
}

#[test]
fn first_to_score_accepts_a_score_at_the_threshold() {
    let choices = choices_with_scores(&[4999, 5000]);
    let picker = FirstToScore::new(5000);
    assert_eq!(picker.pick(&choices), Some(1));
}

#[test]
fn highest_ignores_scores_at_or_under_threshold() {
    let choices = choices_with_scores(&[0, 0, 0]);
    let picker = Highest { threshold: 0 };
    assert_eq!(picker.pick(&choices), None);
}

#[test]
fn first_to_score_returns_none_when_nothing_reaches_the_threshold() {
    let choices = choices_with_scores(&[1000, 2000]);
    let picker = FirstToScore::new(2500);
    assert_eq!(picker.pick(&choices), None);
}

#[test]
fn picker_enum_dispatches_to_both_policies() {
    let choices = choices_with_scores(&[4000, 9000, 9000]);
    assert_eq!(Picker::Highest(Highest { threshold: 0 }).pick(&choices), Some(1));
    assert_eq!(
        Picker::FirstToScore(FirstToScore { threshold: 0 }).pick(&choices),
        Some(0)
    );
}

#[test]
fn calculate_reads_the_root_score() {
    let choices = choices_with_scores(&[1234]);
    assert_eq!(choices[0].calculate().get(), 1234);
}
