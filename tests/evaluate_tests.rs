use smartscore::evaluate::{evaluate_correctness_with_total, process_date_predictions, PlayerOutcome};
use smartscore::search::{count_agreements, rank_top_n, test_weights};

fn p(tims: Option<i32>, scored: bool, date: Option<u64>) -> PlayerOutcome {
    PlayerOutcome { tims, scored, date }
}

#[test]
fn one_date_one_player_per_category_all_scored() {
    let players = vec![
        p(Some(1), true, Some(1)),
        p(Some(2), true, Some(1)),
        p(Some(3), true, Some(1)),
    ];
    let keys = vec![5, 6, 7];
    assert_eq!(evaluate_correctness_with_total(&players, &keys), (3, 3));
}

#[test]
fn missing_category_still_counts_three() {
    let players = vec![
        p(Some(1), true, Some(1)),
        p(Some(2), true, Some(1)),
        p(Some(4), true, Some(1)),
        p(None, true, Some(1)),
    ];
    let keys = vec![1, 1, 9, 9];
    assert_eq!(evaluate_correctness_with_total(&players, &keys), (2, 3));
}

#[test]
fn empty_batch_gives_nothing() {
    let players: Vec<PlayerOutcome> = Vec::new();
    let keys: Vec<i64> = Vec::new();
    assert_eq!(evaluate_correctness_with_total(&players, &keys), (0, 0));
}

#[test]
fn highest_score_in_category_is_selected() {
    let players = vec![
        p(Some(1), false, Some(3)),
        p(Some(1), true, Some(3)),
        p(Some(1), false, Some(3)),
    ];
    assert_eq!(evaluate_correctness_with_total(&players, &vec![1, 10, 5]), (1, 3));
    assert_eq!(evaluate_correctness_with_total(&players, &vec![10, 1, 5]), (0, 3));
}

#[test]
fn first_seen_wins_on_equal_scores() {
    let players = vec![p(Some(2), true, Some(3)), p(Some(2), false, Some(3))];
    assert_eq!(evaluate_correctness_with_total(&players, &vec![4, 4]), (1, 3));
    let swapped = vec![p(Some(2), false, Some(3)), p(Some(2), true, Some(3))];
    assert_eq!(evaluate_correctness_with_total(&swapped, &vec![4, 4]), (0, 3));
}

#[test]
fn each_date_run_counts_separately() {
    let players = vec![
        p(Some(1), true, Some(1)),
        p(Some(1), false, Some(1)),
        p(Some(1), false, Some(2)),
        p(Some(3), true, Some(2)),
        p(Some(2), true, None),
        p(Some(2), true, None),
    ];
    let keys = vec![9, 1, 3, 3, 0, -1];
    assert_eq!(evaluate_correctness_with_total(&players, &keys), (3, 9));
}

#[test]
fn returning_date_starts_a_new_run() {
    let players = vec![
        p(Some(1), true, Some(1)),
        p(Some(1), true, Some(2)),
        p(Some(1), true, Some(1)),
    ];
    assert_eq!(evaluate_correctness_with_total(&players, &vec![0, 0, 0]), (3, 9));
}

#[test]
fn run_processing_selects_per_slot() {
    let players = vec![
        p(Some(1), true, Some(1)),
        p(Some(2), false, Some(1)),
        p(Some(2), true, Some(1)),
        p(Some(3), true, Some(1)),
        p(Some(0), true, Some(1)),
    ];
    let keys = vec![1, 8, 2, 0, 100];
    assert_eq!(process_date_predictions(&players, &keys, 0, 5), 2);
    assert_eq!(process_date_predictions(&players, &keys, 2, 4), 2);
    assert_eq!(process_date_predictions(&players, &keys, 4, 5), 0);
    assert_eq!(process_date_predictions(&players, &keys, 1, 1), 0);
}

#[test]
fn later_candidate_wins_a_tie() {
    let players = vec![p(Some(1), true, Some(1)), p(Some(1), false, Some(1))];
    let candidates = vec![vec![5, 1], vec![7, 2]];
    assert_eq!(test_weights(&players, &candidates), Some((1, 1, 3)));
}

#[test]
fn best_candidate_is_kept_over_later_worse_one() {
    let players = vec![p(Some(1), true, Some(1)), p(Some(1), false, Some(1))];
    let candidates = vec![vec![1, 5], vec![5, 1], vec![1, 9]];
    assert_eq!(test_weights(&players, &candidates), Some((1, 1, 3)));
}

#[test]
fn no_candidates_gives_none() {
    let players = vec![p(Some(1), true, Some(1))];
    let candidates: Vec<Vec<i64>> = Vec::new();
    assert_eq!(test_weights(&players, &candidates), None);
}

#[test]
fn top_n_orders_by_count_and_keeps_ties_in_order() {
    let correct = vec![3, 7, 3, 9, 7];
    assert_eq!(rank_top_n(&correct, 10), vec![3, 1, 4, 0, 2]);
    assert_eq!(rank_top_n(&correct, 2), vec![3, 1]);
    assert_eq!(rank_top_n(&correct, 0), Vec::<usize>::new());
    assert_eq!(rank_top_n(&Vec::new(), 3), Vec::<usize>::new());
}

#[test]
fn agreements_count_matching_positions() {
    let predicted = vec![true, false, true, false];
    let actual = vec![true, true, false, false];
    assert_eq!(count_agreements(&predicted, &actual), 2);
    assert_eq!(count_agreements(&Vec::new(), &Vec::new()), 0);
}
