use bevmnist::classify::argmax;
use bevmnist::classify::select_display;
use bevmnist::SCORE_SCALE;

fn scaled(raw_tenths: &[i64]) -> Vec<i64> {
    // Scores in tenths of an engine unit, scaled to the library's
    // fixed-point thousandths.
    raw_tenths.iter().map(|&v| v * SCORE_SCALE / 10).collect()
}

#[test]
fn argmax_of_empty_is_none() {
    assert_eq!(argmax(&Vec::new()), None);
}

#[test]
fn argmax_picks_the_highest_score() {
    assert_eq!(argmax(&vec![1, 7, 3]), Some((1, 7)));
    assert_eq!(argmax(&vec![-5, -2, -9]), Some((1, -2)));
}

#[test]
fn argmax_breaks_ties_by_first_index() {
    assert_eq!(argmax(&vec![5, 5]), Some((0, 5)));
    assert_eq!(argmax(&vec![1, 7, 7, 3]), Some((1, 7)));
}

#[test]
fn confident_score_displays_its_class() {
    assert_eq!(select_display(&scaled(&[110, 30])), Some(0));
}

#[test]
fn unconfident_scores_display_empty() {
    // Both classes sit just under ten engine units: nothing displays.
    assert_eq!(select_display(&scaled(&[99, 98])), None);
}

#[test]
fn gate_is_strict_at_the_threshold() {
    // Exactly 10.0 does not display; just above does.
    assert_eq!(select_display(&scaled(&[100])), None);
    assert_eq!(select_display(&vec![10 * SCORE_SCALE + 1]), Some(0));
}

#[test]
fn empty_scores_display_empty() {
    assert_eq!(select_display(&Vec::new()), None);
}
