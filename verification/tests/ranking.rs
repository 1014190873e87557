use leaderboard::{emit, set_mean_score_map, set_player_data_map, LogValue, MeanScoreMap, LIMIT};

fn record(player_id: &str, score: u64) -> LogValue {
    LogValue { player_id: player_id.to_string(), score }
}

fn ranking_of(records: &[(&str, u64)]) -> MeanScoreMap {
    let records: Vec<LogValue> = records.iter().map(|(id, score)| record(id, *score)).collect();
    set_mean_score_map(&set_player_data_map(&records).unwrap())
}

fn groups_of(ranking: &MeanScoreMap) -> Vec<(u64, Vec<&str>)> {
    ranking
        .groups()
        .iter()
        .map(|group| (group.mean_score, group.player_ids.iter().map(|id| id.as_str()).collect()))
        .collect()
}

fn rows_of(ranking: &MeanScoreMap, limit: u32) -> Vec<(u64, String, u64)> {
    emit(ranking, limit).iter().map(|e| (e.rank, e.player_id.to_string(), e.mean_score)).collect()
}

#[test]
fn limit_is_ten() {
    assert_eq!(LIMIT, 10);
}

#[test]
fn groups_fall_by_mean_and_ids_ascend() {
    let ranking = ranking_of(&[("zoe", 5), ("bob", 9), ("amy", 5), ("cat", 1), ("max", 9), ("ann", 5)]);
    assert_eq!(
        groups_of(&ranking),
        vec![(9, vec!["bob", "max"]), (5, vec!["amy", "ann", "zoe"]), (1, vec!["cat"])]
    );
}

#[test]
fn ids_are_ordered_by_code_point() {
    let ranking = ranking_of(&[("b", 1), ("a", 1), ("B", 1), ("aa", 1), ("", 1), ("é", 1), ("z", 1), ("10", 1), ("9", 1)]);
    assert_eq!(groups_of(&ranking), vec![(1, vec!["", "10", "9", "B", "a", "aa", "b", "z", "é"])]);
}

#[test]
fn means_are_rounded_before_grouping() {
    // 5 / 2 and 8 / 3 both round to 3; 7 / 3 rounds to 2.
    let ranking = ranking_of(&[("p", 2), ("p", 3), ("q", 3), ("q", 3), ("q", 2), ("r", 2), ("r", 2), ("r", 3)]);
    assert_eq!(groups_of(&ranking), vec![(3, vec!["p", "q"]), (2, vec!["r"])]);
}

#[test]
fn no_players_no_groups() {
    let ranking = ranking_of(&[]);
    assert!(groups_of(&ranking).is_empty());
    assert!(rows_of(&ranking, 10).is_empty());
}

#[test]
fn rank_after_a_tie_skips_ahead() {
    let ranking = ranking_of(&[("a", 9), ("b", 9), ("c", 9), ("d", 7), ("e", 5), ("f", 5), ("g", 1)]);
    assert_eq!(
        rows_of(&ranking, 10),
        vec![
            (1, "a".to_string(), 9),
            (1, "b".to_string(), 9),
            (1, "c".to_string(), 9),
            (4, "d".to_string(), 7),
            (5, "e".to_string(), 5),
            (5, "f".to_string(), 5),
            (7, "g".to_string(), 1),
        ]
    );
}

#[test]
fn tie_across_the_limit_is_emitted_whole() {
    let mut records: Vec<(String, u64)> = (0..9u64).map(|i| (format!("top{}", i), 100 - i)).collect();
    records.push(("tie_c".to_string(), 50));
    records.push(("tie_a".to_string(), 50));
    records.push(("tie_b".to_string(), 50));
    records.push(("low".to_string(), 10));
    let borrowed: Vec<(&str, u64)> = records.iter().map(|(id, score)| (id.as_str(), *score)).collect();
    let ranking = ranking_of(&borrowed);
    let rows = rows_of(&ranking, 10);
    assert_eq!(rows.len(), 12);
    assert_eq!(rows[8], (9, "top8".to_string(), 92));
    assert_eq!(rows[9], (10, "tie_a".to_string(), 50));
    assert_eq!(rows[10], (10, "tie_b".to_string(), 50));
    assert_eq!(rows[11], (10, "tie_c".to_string(), 50));
}

#[test]
fn limit_reached_at_a_group_boundary_stops_there() {
    let ranking = ranking_of(&[("a", 9), ("b", 9), ("c", 7), ("d", 5), ("e", 5)]);
    assert_eq!(rows_of(&ranking, 3).len(), 3);
    assert_eq!(rows_of(&ranking, 2).len(), 2);
    assert_eq!(rows_of(&ranking, 1).len(), 2);
    assert_eq!(rows_of(&ranking, 4).len(), 5);
    assert_eq!(rows_of(&ranking, 5).len(), 5);
    assert_eq!(rows_of(&ranking, 6).len(), 5);
    assert_eq!(rows_of(&ranking, u32::MAX).len(), 5);
}

#[test]
fn limit_of_zero_emits_nothing() {
    let ranking = ranking_of(&[("a", 9), ("b", 7)]);
    assert!(rows_of(&ranking, 0).is_empty());
}

#[test]
fn rank_is_one_more_than_the_rows_with_a_greater_mean() {
    let ranking = ranking_of(&[("a", 3), ("b", 8), ("c", 3), ("d", 8), ("e", 6), ("f", 3), ("g", 1), ("h", 8)]);
    let rows = rows_of(&ranking, 100);
    assert_eq!(rows.len(), 8);
    for row in &rows {
        let above = rows.iter().filter(|other| other.2 > row.2).count() as u64;
        assert_eq!(row.0, 1 + above);
    }
    for first in &rows {
        for second in &rows {
            assert_eq!(first.0 == second.0, first.2 == second.2);
        }
    }
    for pair in rows.windows(2) {
        if pair[0].2 == pair[1].2 {
            assert!(pair[0].1 < pair[1].1);
        } else {
            assert!(pair[0].2 > pair[1].2);
        }
    }
}
