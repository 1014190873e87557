use leaderboard::{set_player_data_map, LogValue, PlayerDataMap, RankingError, ScoreData};

fn record(player_id: &str, score: u64) -> LogValue {
    LogValue { player_id: player_id.to_string(), score }
}

#[test]
fn every_player_gets_one_accumulator() {
    let records = vec![record("b", 1), record("a", 2), record("b", 3), record("c", 0), record("a", 5), record("b", 7)];
    let players = set_player_data_map(&records).unwrap();
    assert_eq!(players.len(), 3);
    assert_eq!(players.get("a"), Some(ScoreData { sum: 7, count: 2 }));
    assert_eq!(players.get("b"), Some(ScoreData { sum: 11, count: 3 }));
    assert_eq!(players.get("c"), Some(ScoreData { sum: 0, count: 1 }));
    assert_eq!(players.get("d"), None);
    assert_eq!(players.get(""), None);
}

#[test]
fn players_are_walked_in_order_of_first_appearance() {
    let records = vec![record("b", 1), record("a", 2), record("b", 3), record("c", 0)];
    let players = set_player_data_map(&records).unwrap();
    let (id, data) = players.player_at(0);
    assert_eq!((id.as_str(), data), ("b", ScoreData { sum: 4, count: 2 }));
    let (id, data) = players.player_at(1);
    assert_eq!((id.as_str(), data), ("a", ScoreData { sum: 2, count: 1 }));
    let (id, data) = players.player_at(2);
    assert_eq!((id.as_str(), data), ("c", ScoreData { sum: 0, count: 1 }));
}

#[test]
fn no_records_no_players() {
    let players = set_player_data_map(&Vec::new()).unwrap();
    assert_eq!(players.len(), 0);
    assert_eq!(players.get("a"), None);
}

#[test]
fn ids_are_told_apart_exactly() {
    let records = vec![record("a", 1), record("A", 2), record("a ", 4), record("", 8)];
    let players = set_player_data_map(&records).unwrap();
    assert_eq!(players.len(), 4);
    assert_eq!(players.get("a"), Some(ScoreData { sum: 1, count: 1 }));
    assert_eq!(players.get("A"), Some(ScoreData { sum: 2, count: 1 }));
    assert_eq!(players.get("a "), Some(ScoreData { sum: 4, count: 1 }));
    assert_eq!(players.get(""), Some(ScoreData { sum: 8, count: 1 }));
}

#[test]
fn total_beyond_u64_is_an_overflow_at_that_record() {
    let records = vec![record("a", u64::MAX), record("b", u64::MAX), record("b", 0), record("a", 1), record("a", 5)];
    let result = set_player_data_map(&records);
    assert!(matches!(result, Err(RankingError::Overflow { row: 3 })));
}

#[test]
fn total_of_exactly_u64_max_fits() {
    let records = vec![record("a", u64::MAX - 1), record("a", 1)];
    let players = set_player_data_map(&records).unwrap();
    assert_eq!(players.get("a"), Some(ScoreData { sum: u64::MAX, count: 2 }));
}

#[test]
fn record_reports_overflow_and_changes_nothing() {
    let mut players = PlayerDataMap::new();
    assert!(players.record("a", u64::MAX));
    assert!(players.record("b", 3));
    assert!(!players.record("a", 1));
    assert_eq!(players.len(), 2);
    assert_eq!(players.get("a"), Some(ScoreData { sum: u64::MAX, count: 1 }));
    assert!(players.record("a", 0));
    assert_eq!(players.get("a"), Some(ScoreData { sum: u64::MAX, count: 2 }));
    assert_eq!(players.get("b"), Some(ScoreData { sum: 3, count: 1 }));
}
