use leaderboard::{
    output_ranking, parse_args, render, run, set_mean_score_map, set_player_data_map, table, Args, LogValue,
    RankingValue, OUTPUT_CSV_HEADER,
};

fn record(player_id: &str, score: u64) -> LogValue {
    LogValue { player_id: player_id.to_string(), score }
}

fn rendered(entries: &Vec<RankingValue>) -> String {
    String::from_utf8(render(entries).unwrap()).unwrap()
}

#[test]
fn header_names_the_three_columns() {
    assert_eq!(OUTPUT_CSV_HEADER, "rank,player_id,mean_score");
}

#[test]
fn no_rows_render_as_the_header_line() {
    assert_eq!(rendered(&Vec::new()), "rank,player_id,mean_score\n");
}

#[test]
fn table_puts_rows_under_the_header_as_they_are() {
    assert_eq!(table(Vec::new()), b"rank,player_id,mean_score\n".to_vec());
    let rows = vec![b"1,a,2\n".to_vec(), Vec::new(), b"no line feed".to_vec(), vec![0xff, 0x00]];
    let mut expected = b"rank,player_id,mean_score\n1,a,2\nno line feed".to_vec();
    expected.extend([0xff, 0x00]);
    assert_eq!(table(rows), expected);
}

#[test]
fn rows_follow_the_header_in_their_order() {
    let entries = vec![
        RankingValue { rank: 1, player_id: "amy", mean_score: 90 },
        RankingValue { rank: 2, player_id: "bob", mean_score: 85 },
        RankingValue { rank: 2, player_id: "cat", mean_score: 85 },
    ];
    assert_eq!(rendered(&entries), "rank,player_id,mean_score\n1,amy,90\n2,bob,85\n2,cat,85\n");
}

#[test]
fn ids_with_delimiters_or_quotes_are_escaped() {
    let entries = vec![
        RankingValue { rank: 1, player_id: "a,b", mean_score: 3 },
        RankingValue { rank: 2, player_id: "say \"hi\"", mean_score: 2 },
        RankingValue { rank: 3, player_id: "two\nlines", mean_score: 1 },
        RankingValue { rank: 4, player_id: "", mean_score: 0 },
        RankingValue { rank: 5, player_id: "plain id", mean_score: 0 },
    ];
    assert_eq!(
        rendered(&entries),
        "rank,player_id,mean_score\n1,\"a,b\",3\n2,\"say \"\"hi\"\"\",2\n3,\"two\nlines\",1\n4,,0\n5,plain id,0\n"
    );
}

#[test]
fn numbers_are_written_in_decimal() {
    let entries = vec![RankingValue { rank: u64::MAX, player_id: "x", mean_score: 1234567890123 }];
    assert_eq!(rendered(&entries), "rank,player_id,mean_score\n18446744073709551615,x,1234567890123\n");
}

#[test]
fn output_ranking_cuts_at_the_limit() {
    let records: Vec<LogValue> = (0..12u64).map(|i| record(&format!("p{:02}", i), i)).collect();
    let ranking = set_mean_score_map(&set_player_data_map(&records).unwrap());
    let text = String::from_utf8(output_ranking(&ranking).unwrap()).unwrap();
    assert_eq!(
        text,
        "rank,player_id,mean_score\n1,p11,11\n2,p10,10\n3,p09,9\n4,p08,8\n5,p07,7\n6,p06,6\n7,p05,5\n8,p04,4\n9,p03,3\n10,p02,2\n"
    );
}

#[test]
fn run_renders_non_ascii_ids() {
    let rows = vec![Some(record("日本", 3)), Some(record("émile", 4))];
    let text = String::from_utf8(run(rows).unwrap()).unwrap();
    assert_eq!(text, "rank,player_id,mean_score\n1,émile,4\n2,日本,3\n");
}

fn arguments(items: &[&str]) -> Vec<String> {
    items.iter().map(|item| item.to_string()).collect()
}

#[test]
fn one_positional_argument_is_the_path() {
    let args = parse_args(&arguments(&["leaderboard", "logs/play.csv"])).unwrap();
    assert_eq!(args.csv_file_path, "logs/play.csv");
}

#[test]
fn path_may_follow_a_double_dash() {
    let args = parse_args(&arguments(&["leaderboard", "--", "--odd-name.csv"])).unwrap();
    assert_eq!(args.csv_file_path, "--odd-name.csv");
}

#[test]
fn missing_path_is_a_usage_error() {
    let failure = parse_args(&arguments(&["leaderboard"])).unwrap_err();
    assert_eq!(failure.source.kind(), clap::ErrorKind::MissingRequiredArgument);
}

#[test]
fn second_path_is_a_usage_error() {
    let failure = parse_args(&arguments(&["leaderboard", "a.csv", "b.csv"])).unwrap_err();
    assert_eq!(failure.source.kind(), clap::ErrorKind::UnknownArgument);
}

#[test]
fn unknown_flag_is_a_usage_error() {
    assert!(parse_args(&arguments(&["leaderboard", "--top", "a.csv"])).is_err());
}

#[test]
fn help_is_not_a_path() {
    let failure = parse_args(&arguments(&["leaderboard", "--help"])).unwrap_err();
    assert_eq!(failure.source.kind(), clap::ErrorKind::DisplayHelp);
}

#[test]
fn match_by_clap_becomes_args_or_usage_error() {
    let args = Args::from_match(Ok("play.csv".to_string())).unwrap();
    assert_eq!(args.csv_file_path, "play.csv");
    let complaint = clap::Error::raw(clap::ErrorKind::UnknownArgument, "no such flag");
    let failure = Args::from_match(Err(complaint)).unwrap_err();
    assert_eq!(failure.source.kind(), clap::ErrorKind::UnknownArgument);
}
