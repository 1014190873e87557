use leaderboard::{
    decoded_records, emit, run, set_mean_score_map, set_player_data_map, LogValue, RankingError, ScoreData,
};

fn record(player_id: &str, score: u64) -> LogValue {
    LogValue { player_id: player_id.to_string(), score }
}

fn text(rows: Vec<Option<LogValue>>) -> String {
    String::from_utf8(run(rows).unwrap()).unwrap()
}

#[test]
fn tie_shares_a_rank_and_is_ordered_by_id() {
    let records = vec![record("A", 10), record("A", 20), record("B", 20), record("B", 20), record("C", 15)];

    let players = set_player_data_map(&records).unwrap();
    assert_eq!(players.len(), 3);
    assert_eq!(players.get("A"), Some(ScoreData { sum: 30, count: 2 }));
    assert_eq!(players.get("B"), Some(ScoreData { sum: 40, count: 2 }));
    assert_eq!(players.get("C"), Some(ScoreData { sum: 15, count: 1 }));
    assert_eq!(players.get("A").unwrap().mean_score(), 15);
    assert_eq!(players.get("B").unwrap().mean_score(), 20);
    assert_eq!(players.get("C").unwrap().mean_score(), 15);

    let ranking = set_mean_score_map(&players);
    let entries = emit(&ranking, 10);
    let found: Vec<(u64, &str, u64)> = entries.iter().map(|e| (e.rank, e.player_id, e.mean_score)).collect();
    assert_eq!(found, vec![(1, "B", 20), (2, "A", 15), (2, "C", 15)]);

    let rows = records.into_iter().map(Some).collect();
    assert_eq!(text(rows), "rank,player_id,mean_score\n1,B,20\n2,A,15\n2,C,15\n");
}

#[test]
fn fifteen_distinct_means_give_exactly_ten_rows() {
    let mut rows = Vec::new();
    for i in 0..15u64 {
        rows.push(Some(record(&format!("player{:02}", i), 100 + i)));
    }
    let out = text(rows);
    let lines: Vec<&str> = out.lines().collect();
    assert_eq!(lines.len(), 11);
    assert_eq!(lines[0], "rank,player_id,mean_score");
    for rank in 1..=10u64 {
        let i = 15 - rank;
        assert_eq!(lines[rank as usize], format!("{},player{:02},{}", rank, i, 100 + i));
    }
    assert_eq!(lines[10], "10,player05,105");
}

#[test]
fn one_tie_of_eight_is_emitted_whole_at_rank_one() {
    let ids = ["h", "c", "a", "g", "b", "e", "d", "f"];
    let rows = ids.iter().map(|id| Some(record(id, 50))).collect();
    assert_eq!(
        text(rows),
        "rank,player_id,mean_score\n1,a,50\n1,b,50\n1,c,50\n1,d,50\n1,e,50\n1,f,50\n1,g,50\n1,h,50\n"
    );
}

#[test]
fn empty_input_gives_the_header_line_only() {
    assert_eq!(text(Vec::new()), "rank,player_id,mean_score\n");
}

#[test]
fn malformed_row_aborts_the_run_without_output() {
    let rows = vec![Some(record("A", 10)), None, Some(record("B", 20))];
    let result = run(rows);
    assert!(matches!(result, Err(RankingError::Decode { row: 1 })));
}

#[test]
fn first_malformed_row_is_the_one_reported() {
    let rows = vec![None, Some(record("A", 10)), None];
    assert!(matches!(run(rows), Err(RankingError::Decode { row: 0 })));
}

#[test]
fn running_twice_gives_the_same_bytes() {
    let make = || {
        vec![
            Some(record("zed", 7)),
            Some(record("amy", 8)),
            Some(record("zed", 8)),
            Some(record("bob", 8)),
            Some(record("a,b", 8)),
        ]
    };
    let first = run(make()).unwrap();
    let second = run(make()).unwrap();
    assert_eq!(first, second);
    assert_eq!(
        String::from_utf8(first).unwrap(),
        "rank,player_id,mean_score\n1,\"a,b\",8\n1,amy,8\n1,bob,8\n1,zed,8\n"
    );
}

#[test]
fn order_of_the_records_does_not_change_the_output() {
    let forward = vec![Some(record("x", 1)), Some(record("y", 3)), Some(record("x", 4)), Some(record("w", 3))];
    let backward = vec![Some(record("w", 3)), Some(record("x", 4)), Some(record("y", 3)), Some(record("x", 1))];
    assert_eq!(run(forward).unwrap(), run(backward).unwrap());
}

#[test]
fn decoded_rows_become_records_in_order() {
    let records = decoded_records(vec![Some(record("b", 2)), Some(record("a", 1)), Some(record("b", 3))]).unwrap();
    let found: Vec<(&str, u64)> = records.iter().map(|r| (r.player_id.as_str(), r.score)).collect();
    assert_eq!(found, vec![("b", 2), ("a", 1), ("b", 3)]);
    assert!(decoded_records(Vec::new()).unwrap().is_empty());
    assert!(matches!(
        decoded_records(vec![Some(record("b", 2)), Some(record("a", 1)), None]),
        Err(RankingError::Decode { row: 2 })
    ));
}

#[test]
fn malformed_row_is_reported_before_an_overflow() {
    let rows = vec![Some(record("a", u64::MAX)), Some(record("a", 1)), None];
    assert!(matches!(run(rows), Err(RankingError::Decode { row: 2 })));
    let rows = vec![Some(record("a", u64::MAX)), Some(record("b", 1)), Some(record("a", 1))];
    assert!(matches!(run(rows), Err(RankingError::Overflow { row: 2 })));
}
