use leaderboard::{round_mean, ScoreData, TiePolicy, TIE_POLICY};

#[test]
fn leaderboard_rounds_half_away_from_zero() {
    assert_eq!(TIE_POLICY, TiePolicy::HalfAwayFromZero);
    assert_eq!(ScoreData { sum: 5, count: 2 }.mean_score(), 3);
}

#[test]
fn half_away_from_zero_takes_the_upper_neighbour() {
    let policy = TiePolicy::HalfAwayFromZero;
    assert_eq!(round_mean(5, 2, policy), 3);
    assert_eq!(round_mean(7, 2, policy), 4);
    assert_eq!(round_mean(1, 2, policy), 1);
    assert_eq!(round_mean(3, 6, policy), 1);
}

#[test]
fn half_to_even_takes_the_even_neighbour() {
    let policy = TiePolicy::HalfToEven;
    assert_eq!(round_mean(5, 2, policy), 2);
    assert_eq!(round_mean(7, 2, policy), 4);
    assert_eq!(round_mean(1, 2, policy), 0);
    assert_eq!(round_mean(3, 2, policy), 2);
}

#[test]
fn policies_agree_away_from_a_tie() {
    for policy in [TiePolicy::HalfAwayFromZero, TiePolicy::HalfToEven] {
        assert_eq!(round_mean(10, 3, policy), 3);
        assert_eq!(round_mean(11, 3, policy), 4);
        assert_eq!(round_mean(0, 7, policy), 0);
        assert_eq!(round_mean(30, 2, policy), 15);
        assert_eq!(round_mean(40, 2, policy), 20);
        assert_eq!(round_mean(15, 1, policy), 15);
        assert_eq!(round_mean(299, 100, policy), 3);
        assert_eq!(round_mean(249, 100, policy), 2);
        assert_eq!(round_mean(251, 100, policy), 3);
    }
}

#[test]
fn mean_of_a_single_record_is_its_score() {
    assert_eq!(round_mean(u64::MAX, 1, TiePolicy::HalfAwayFromZero), u64::MAX);
    assert_eq!(round_mean(u64::MAX, 1, TiePolicy::HalfToEven), u64::MAX);
}

#[test]
fn large_totals_are_rounded_exactly() {
    // 2^53 + 1 over 2 lies halfway between 2^52 and 2^52 + 1.
    let sum = (1u64 << 53) + 1;
    assert_eq!(round_mean(sum, 2, TiePolicy::HalfAwayFromZero), (1u64 << 52) + 1);
    assert_eq!(round_mean(sum, 2, TiePolicy::HalfToEven), 1u64 << 52);
    assert_eq!(round_mean(u64::MAX, 2, TiePolicy::HalfAwayFromZero), 1u64 << 63);
    assert_eq!(round_mean(u64::MAX, u64::MAX, TiePolicy::HalfAwayFromZero), 1);
    assert_eq!(round_mean(u64::MAX - 1, u64::MAX, TiePolicy::HalfAwayFromZero), 1);
    assert_eq!(round_mean(u64::MAX / 2, u64::MAX, TiePolicy::HalfAwayFromZero), 0);
}

#[test]
fn rounded_mean_is_within_half_of_the_quotient() {
    for sum in 0..60u64 {
        for count in 1..13u64 {
            for policy in [TiePolicy::HalfAwayFromZero, TiePolicy::HalfToEven] {
                let mean = round_mean(sum, count, policy);
                assert!(2 * mean * count <= 2 * sum + count);
                assert!(2 * sum <= 2 * mean * count + count);
            }
            assert_eq!(
                round_mean(sum, count, TiePolicy::HalfAwayFromZero),
                (2 * sum + count) / (2 * count)
            );
        }
    }
}

#[test]
fn accumulator_adds_score_and_counts() {
    let mut data = ScoreData::new();
    assert_eq!(data, ScoreData { sum: 0, count: 0 });
    data.add(10);
    data.add(20);
    assert_eq!(data, ScoreData { sum: 30, count: 2 });
    assert_eq!(data.mean_score(), 15);
}
