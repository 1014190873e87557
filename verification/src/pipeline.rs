//! The whole run: decoded rows in, leaderboard text out.

use vstd::prelude::*;
use crate::emit::{emitted, LIMIT};
use crate::error::RankingError;
use crate::output::{output_ranking, rendered};
use crate::players::{accumulates, set_player_data_map};
use crate::ranking::{lemma_ranking_unique, ranks, set_mean_score_map, TieGroup};
use crate::record::{total_score, totals_fit, LogValue};
use crate::score::ScoreData;

verus! {

/// The records that the rows decoded to, in their order.
pub open spec fn records_of(rows: Seq<Option<LogValue>>) -> Seq<LogValue> {
    rows.map_values(|row: Option<LogValue>| row->0)
}

/// `row` is the first row that did not decode.
pub open spec fn first_malformed(rows: Seq<Option<LogValue>>, row: int) -> bool {
    &&& 0 <= row < rows.len()
    &&& rows[row] is None
    &&& forall|earlier: int| 0 <= earlier < row ==> (#[trigger] rows[earlier]) is Some
}

/// `text` is what rendering the leaderboard of `records` gives: the
/// players' accumulators, ranked, cut at [`LIMIT`] and rendered.
pub open spec fn leaderboard(records: Seq<LogValue>, text: Option<Seq<u8>>) -> bool {
    exists|accumulators: Map<Seq<char>, ScoreData>, groups: Seq<TieGroup>|
        {
            &&& accumulates(accumulators, records)
            &&& #[trigger] ranks(groups, accumulators)
            &&& text == rendered(emitted(groups, LIMIT as nat))
        }
}

/// What a run on `rows` may end with.
pub open spec fn run_outcome(rows: Seq<Option<LogValue>>, result: Result<Vec<u8>, RankingError>) -> bool {
    let records = records_of(rows);
    match result {
        Err(RankingError::Decode { row }) => first_malformed(rows, row as int),
        Err(RankingError::Overflow { row }) => {
            &&& forall|i: int| 0 <= i < rows.len() ==> (#[trigger] rows[i]) is Some
            &&& row < records.len()
            &&& totals_fit(records.take(row as int))
            &&& total_score(records.take(row + 1), records[row as int].player_id@) > u64::MAX
        },
        Err(RankingError::Encode { .. }) => {
            &&& forall|i: int| 0 <= i < rows.len() ==> (#[trigger] rows[i]) is Some
            &&& totals_fit(records)
            &&& leaderboard(records, None)
        },
        Ok(text) => {
            &&& forall|i: int| 0 <= i < rows.len() ==> (#[trigger] rows[i]) is Some
            &&& totals_fit(records)
            &&& leaderboard(records, Some(text@))
        },
    }
}

/// The records of `rows`, or the first row that did not decode.
pub fn decoded_records(rows: Vec<Option<LogValue>>) -> (result: Result<Vec<LogValue>, RankingError>)
    ensures
        match result {
            Ok(records) => {
                &&& forall|i: int| 0 <= i < rows.len() ==> (#[trigger] rows[i]) is Some
                &&& records@ == records_of(rows@)
            },
            Err(RankingError::Decode { row }) => first_malformed(rows@, row as int),
            Err(_) => false,
        },
{
    let mut records: Vec<LogValue> = Vec::new();
    for row in walk: rows
        invariant
            walk.seq() == rows@,
            records.len() == walk.index(),
            forall|i: int| 0 <= i < walk.index() ==> (#[trigger] rows[i]) is Some,
            records@ == records_of(rows@.take(walk.index())),
    {
        let ghost at = walk.index();
        match row {
            Some(record) => {
                proof {
                    assert(records_of(rows@.take(at + 1)) =~= records_of(rows@.take(at)).push(record));
                }
                records.push(record);
            },
            None => {
                return Err(RankingError::Decode { row: records.len() });
            },
        }
    }
    proof {
        assert(rows@.take(rows.len() as int) =~= rows@);
    }
    Ok(records)
}

/// Computes the leaderboard of a play log: each player's mean score,
/// players ranked by falling mean with ties in ascending order of id, the
/// top [`LIMIT`] rows with any tie that reaches across the limit, under the
/// header line.
///
/// `rows` holds the log in order, `None` standing for a row that could not
/// be decoded. Such a row is fatal, as is a score total beyond `u64` and a
/// row that cannot be rendered: the run then yields the error and no text.
pub fn run(rows: Vec<Option<LogValue>>) -> (result: Result<Vec<u8>, RankingError>)
    ensures
        run_outcome(rows@, result),
{
    let records = match decoded_records(rows) {
        Ok(records) => records,
        Err(failure) => {
            return Err(failure);
        },
    };
    let player_data_map = match set_player_data_map(&records) {
        Ok(map) => map,
        Err(failure) => {
            return Err(failure);
        },
    };
    let mean_score_map = set_mean_score_map(&player_data_map);
    let result = output_ranking(&mean_score_map);
    proof {
        assert(ranks(mean_score_map@, player_data_map@));
    }
    result
}

/// The accumulators of a play log are decided by its records.
pub proof fn lemma_accumulators_unique(
    first: Map<Seq<char>, ScoreData>,
    second: Map<Seq<char>, ScoreData>,
    records: Seq<LogValue>,
)
    requires
        accumulates(first, records),
        accumulates(second, records),
    ensures
        first == second,
{
    assert forall|player: Seq<char>| first.contains_key(player) <==> second.contains_key(player) by {
        assert(first.contains_key(player) <==> crate::record::appears(records, player));
        assert(second.contains_key(player) <==> crate::record::appears(records, player));
    }
    assert forall|player: Seq<char>| first.contains_key(player) implies first[player] == second[player] by {
        assert(second.contains_key(player));
    }
    assert(first =~= second);
}

/// Running twice on the same records gives the same bytes: the text of the
/// leaderboard, and whether there is one, are decided by the records.
pub proof fn lemma_leaderboard_unique(records: Seq<LogValue>, first: Option<Seq<u8>>, second: Option<Seq<u8>>)
    requires
        leaderboard(records, first),
        leaderboard(records, second),
    ensures
        first == second,
{
    let (first_accumulators, first_groups) = choose|
        accumulators: Map<Seq<char>, ScoreData>,
        groups: Seq<TieGroup>,
    |
        {
            &&& accumulates(accumulators, records)
            &&& #[trigger] ranks(groups, accumulators)
            &&& first == rendered(emitted(groups, LIMIT as nat))
        };
    let (second_accumulators, second_groups) = choose|
        accumulators: Map<Seq<char>, ScoreData>,
        groups: Seq<TieGroup>,
    |
        {
            &&& accumulates(accumulators, records)
            &&& #[trigger] ranks(groups, accumulators)
            &&& second == rendered(emitted(groups, LIMIT as nat))
        };
    lemma_accumulators_unique(first_accumulators, second_accumulators, records);
    lemma_ranking_unique(first_groups, second_groups, first_accumulators);
}

/// The order of the records does not matter: two logs that hold the same
/// records, each as often, have the same leaderboard.
pub proof fn lemma_record_order_irrelevant(first: Seq<LogValue>, second: Seq<LogValue>, text: Option<Seq<u8>>)
    requires
        first.to_multiset() == second.to_multiset(),
        leaderboard(first, text),
    ensures
        leaderboard(second, text),
{
    let (accumulators, groups) = choose|accumulators: Map<Seq<char>, ScoreData>, groups: Seq<TieGroup>|
        {
            &&& accumulates(accumulators, first)
            &&& #[trigger] ranks(groups, accumulators)
            &&& text == rendered(emitted(groups, LIMIT as nat))
        };
    assert forall|player: Seq<char>|
        {
            &&& #[trigger] accumulators.contains_key(player) <==> crate::record::appears(second, player)
            &&& accumulators.contains_key(player) ==> {
                &&& accumulators[player].sum == total_score(second, player)
                &&& accumulators[player].count == crate::record::record_count(second, player)
            }
        } by {
        crate::record::lemma_totals_any_order(first, second, player);
    }
    assert(accumulates(accumulators, second));
}

/// Running twice on the same rows ends the same way: with the same text,
/// or with an error of the same kind at the same row.
pub proof fn lemma_run_idempotent(
    rows: Seq<Option<LogValue>>,
    first: Result<Vec<u8>, RankingError>,
    second: Result<Vec<u8>, RankingError>,
)
    requires
        run_outcome(rows, first),
        run_outcome(rows, second),
    ensures
        match (first, second) {
            (Ok(first_text), Ok(second_text)) => first_text@ == second_text@,
            (Err(RankingError::Decode { row: first_row }), Err(RankingError::Decode { row: second_row })) => first_row
                == second_row,
            (
                Err(RankingError::Overflow { row: first_row }),
                Err(RankingError::Overflow { row: second_row }),
            ) => first_row == second_row,
            (Err(RankingError::Encode { .. }), Err(RankingError::Encode { .. })) => true,
            _ => false,
        },
{
    let records = records_of(rows);
    match (first, second) {
        (Ok(first_text), Ok(second_text)) => {
            lemma_leaderboard_unique(records, Some(first_text@), Some(second_text@));
        },
        (Ok(text), Err(RankingError::Encode { .. })) => {
            lemma_leaderboard_unique(records, Some(text@), None);
        },
        (Err(RankingError::Encode { .. }), Ok(text)) => {
            lemma_leaderboard_unique(records, None, Some(text@));
        },
        (Err(RankingError::Overflow { row: first_row }), Err(RankingError::Overflow { row: second_row })) => {
            if first_row < second_row {
                crate::record::lemma_totals_grow(
                    records.take(second_row as int),
                    first_row + 1,
                    records[first_row as int].player_id@,
                );
                assert(records.take(second_row as int).take(first_row + 1) =~= records.take(first_row + 1));
            }
            if second_row < first_row {
                crate::record::lemma_totals_grow(
                    records.take(first_row as int),
                    second_row + 1,
                    records[second_row as int].player_id@,
                );
                assert(records.take(first_row as int).take(second_row + 1) =~= records.take(second_row + 1));
            }
        },
        (Err(RankingError::Overflow { row }), Ok(_)) | (Ok(_), Err(RankingError::Overflow { row })) | (
            Err(RankingError::Overflow { row }),
            Err(RankingError::Encode { .. }),
        ) | (Err(RankingError::Encode { .. }), Err(RankingError::Overflow { row })) => {
            crate::record::lemma_totals_grow(records, row + 1, records[row as int].player_id@);
        },
        _ => {},
    }
}

} // verus!
