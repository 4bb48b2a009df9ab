use ppcalc::roster::{insert_position, is_sorted_desc, Roster, RosterError};
use ppcalc::weights::{rank_weights, weighted_prefix, weighted_total_of, WEIGHT_ONE};

fn roster(scores: Vec<u32>, cap: usize) -> Roster {
    Roster::new(scores, cap).unwrap()
}

#[test]
fn weights_decay_by_ninety_five_percent() {
    assert_eq!(
        rank_weights(3),
        vec![1_000_000_000, 950_000_000, 902_500_000, 857_375_000]
    );
}

#[test]
fn weights_round_up_at_each_rank() {
    let w = rank_weights(12);
    // 0.95^12 * 10^9 is 540_360_087.6...; rounding up at each step adds 4.
    assert_eq!(w[12], 540_360_092);
    for k in 1..w.len() {
        assert_eq!(w[k], (w[k - 1] * 95 + 99) / 100);
    }
}

#[test]
fn weighted_total_of_three_scores() {
    // 1000 * 1 + 500 * 0.95 + 250 * 0.9025 = 1700.625
    let r = roster(vec![1000, 500, 250], 100);
    assert_eq!(r.weighted_total(), 1_700_625_000_000);
    assert_eq!(weighted_total_of(&vec![1000, 500, 250]), 1_700_625_000_000);
}

#[test]
fn weighted_total_ignores_order_requirement() {
    assert_eq!(weighted_total_of(&vec![250, 500]), 250 * 1_000_000_000 + 500 * 950_000_000);
}

#[test]
fn weighted_prefix_counts_leading_scores() {
    let s = vec![1000, 500, 250];
    assert_eq!(weighted_prefix(&s, 0), 0);
    assert_eq!(weighted_prefix(&s, 2), 1_475_000_000_000);
}

#[test]
fn empty_roster_totals_zero() {
    let r = roster(vec![], 100);
    assert_eq!(r.weighted_total(), 0);
}

#[test]
fn empty_roster_gains_candidate_at_full_weight() {
    let r = roster(vec![], 100);
    assert_eq!(r.marginal_gain(0), 0);
    assert_eq!(r.marginal_gain(700), 700 * WEIGHT_ONE as u128);
}

#[test]
fn concrete_scenario_insert_and_truncate() {
    // [500, 400, 300] + 450 -> [500, 450, 400]
    // before 500 + 380 + 270.75 = 1150.75, after 500 + 427.5 + 361 = 1288.5
    let r = roster(vec![500, 400, 300], 3);
    assert_eq!(r.weighted_total(), 1_150_750_000_000);
    assert_eq!(r.marginal_gain(450), 137_750_000_000);
}

#[test]
fn candidate_below_minimum_of_full_roster_gains_nothing() {
    let r = roster(vec![500, 400, 300], 3);
    assert_eq!(r.marginal_gain(299), 0);
    assert_eq!(r.marginal_gain(0), 0);
    assert_eq!(r.marginal_gain(300), 0);
}

#[test]
fn candidate_joins_roster_below_cap() {
    let r = roster(vec![500, 400, 300], 5);
    // 100 takes rank 3, weight 0.857375, and nothing leaves.
    assert_eq!(r.marginal_gain(100), 85_737_500_000);
}

#[test]
fn new_top_score_pushes_everything_down() {
    let r = roster(vec![500, 400, 300], 3);
    // [600, 500, 400]: 600 + 475 + 361 = 1436
    assert_eq!(r.marginal_gain(600), 285_250_000_000);
}

#[test]
fn equal_scores_give_the_same_gain() {
    let r = roster(vec![500, 400, 400, 300], 4);
    // [500, 400, 400, 400]: only the last rank changes, 100 at weight 0.857375
    assert_eq!(r.marginal_gain(400), 85_737_500_000);
}

#[test]
fn gain_never_decreases_with_the_candidate() {
    let r = roster(vec![900, 700, 700, 420, 100], 5);
    let mut last = 0u128;
    for c in (0..1200).step_by(7) {
        let g = r.marginal_gain(c);
        assert!(g >= last);
        last = g;
    }
}

#[test]
fn needed_score_inverts_concrete_scenario() {
    let r = roster(vec![500, 400, 300], 3);
    assert_eq!(r.needed_score(137_750_000_000), Some(450));
    assert!(r.marginal_gain(449) < 137_750_000_000);
}

#[test]
fn needed_score_round_trip() {
    let r = roster(vec![900, 700, 700, 420, 100], 5);
    for target in [1u128, 5_000_000_000, 123_456_789_012, 400_000_000_000, 900_000_000_000] {
        let x = r.needed_score(target).unwrap();
        assert!(r.marginal_gain(x) >= target);
        assert!(r.marginal_gain(x) < target + WEIGHT_ONE as u128);
        if x > 0 {
            assert!(r.marginal_gain(x - 1) < target);
        }
    }
}

#[test]
fn needed_score_above_top_play() {
    let r = roster(vec![500, 400, 300], 3);
    // rank 0 needs x + 475 + 361 >= 1350.75, so x = 515
    assert!(r.marginal_gain(500) < 200_000_000_000);
    assert_eq!(r.needed_score(200_000_000_000), Some(515));
    // 515 + 475 + 361 - 1150.75 = 200.25
    assert_eq!(r.marginal_gain(515), 200_250_000_000);
}

#[test]
fn needed_score_for_zero_target_is_zero() {
    // A full roster: the lowest score replaces itself and gains nothing.
    let r = roster(vec![500, 400, 300], 3);
    assert_eq!(r.needed_score(0), Some(300));
    assert_eq!(r.marginal_gain(300), 0);
}

#[test]
fn needed_score_for_zero_target_below_cap() {
    let r = roster(vec![500, 400, 300], 4);
    assert_eq!(r.needed_score(0), Some(0));
}

#[test]
fn needed_score_never_below_lowest_of_full_roster() {
    let r = roster(vec![500, 400, 300], 3);
    for target in [0u128, 1, 1_000_000_000, 50_000_000_000] {
        assert!(r.needed_score(target).unwrap() >= 300);
    }
}

#[test]
fn gain_rises_strictly_above_the_floor() {
    let r = roster(vec![900, 700, 700, 420, 100], 5);
    for c in 100..1200u32 {
        assert!(r.marginal_gain(c) < r.marginal_gain(c + 1));
    }
}

#[test]
fn needed_score_on_empty_roster() {
    let r = roster(vec![], 100);
    assert_eq!(r.needed_score(700 * 1_000_000_000), Some(700));
    assert_eq!(r.needed_score(700 * 1_000_000_000 + 1), Some(701));
}

#[test]
fn needed_score_reports_unreachable_target() {
    let r = roster(vec![500, 400, 300], 3);
    assert_eq!(r.needed_score(u128::MAX), None);
    assert_eq!(r.needed_score(10_000_000_000_000_000_000), None);
}

#[test]
fn roster_rejects_bad_input() {
    assert_eq!(Roster::new(vec![1], 0).err(), Some(RosterError::ZeroCap));
    assert_eq!(Roster::new(vec![3, 2, 1], 2).err(), Some(RosterError::OverCap));
    assert_eq!(Roster::new(vec![3, 4, 1], 3).err(), Some(RosterError::Unsorted));
    assert!(Roster::new(vec![3, 3, 1], 3).is_ok());
}

#[test]
fn sorted_check_and_insert_position() {
    assert!(is_sorted_desc(&vec![]));
    assert!(is_sorted_desc(&vec![5, 5, 2]));
    assert!(!is_sorted_desc(&vec![5, 2, 3]));
    assert_eq!(insert_position(&vec![500, 400, 300], 450), 1);
    assert_eq!(insert_position(&vec![500, 400, 300], 400), 2);
    assert_eq!(insert_position(&vec![500, 400, 300], 100), 3);
    assert_eq!(insert_position(&vec![500, 400, 300], 900), 0);
}

#[test]
fn one_more_unit_gains_at_most_one_full_weight() {
    let r = roster(vec![900, 700, 700, 420, 100], 6);
    for c in 1..1000u32 {
        let step = r.marginal_gain(c) - r.marginal_gain(c - 1);
        assert!(step <= WEIGHT_ONE as u128);
    }
    assert_eq!(r.marginal_gain(701) - r.marginal_gain(700), 950_000_000);
}

#[test]
fn zero_candidate_gains_nothing() {
    assert_eq!(roster(vec![500, 400, 300], 3).marginal_gain(0), 0);
    assert_eq!(roster(vec![500, 400, 300], 4).marginal_gain(0), 0);
}

#[test]
fn weights_stay_positive_at_every_rank() {
    let w = rank_weights(600);
    assert_eq!(w[356], 20);
    assert_eq!(w[357], 19);
    assert_eq!(w[600], 19);
    for k in 1..w.len() {
        assert!(w[k] > 0 && w[k] <= w[k - 1]);
    }
}

#[test]
fn deep_roster_gain_rises_strictly_above_minimum() {
    // 420 scores of 10 and 80 of 1, cap 500: candidates 1 and 2 differ in gain.
    let mut scores = vec![10u32; 420];
    scores.extend(vec![1u32; 80]);
    let r = roster(scores, 500);
    assert_eq!(r.marginal_gain(1), 0);
    assert!(r.marginal_gain(2) > 0);
    assert_eq!(r.needed_score(0), Some(1));
    assert_eq!(r.needed_score(1), Some(2));
}
