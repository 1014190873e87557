//! Rendering the leaderboard as comma-separated text.

use vstd::prelude::*;
use vstd::string::StringSliceAdditionalSpecFns;
use crate::emit::{emit, emitted, entry_views, RankedEntry, RankingValue, LIMIT};
use crate::error::RankingError;
use crate::ranking::MeanScoreMap;

verus! {

/// The column names, which open the output whatever follows.
pub const OUTPUT_CSV_HEADER: &'static str = "rank,player_id,mean_score";

/// The bytes that the `csv` crate writes for one leaderboard row, record
/// terminator included, or `None` where it reports an error. The crate
/// decides where a field needs quoting and how it is escaped.
pub uninterp spec fn csv_row(rank: u64, player_id: Seq<char>, mean_score: u64) -> Option<Seq<u8>>;

/// Serializes one row with `csv::Writer::serialize`, on a writer built by
/// `csv::WriterBuilder` without a header row over an empty byte vector, and
/// takes the bytes back with `csv::Writer::into_inner`. The writer works in
/// memory on the three fields alone, so what comes back is `csv_row` of
/// them.
#[verifier::external_body]
fn write_row(rank: u64, player_id: &str, mean_score: u64) -> (row: Result<Vec<u8>, csv::Error>)
    ensures
        match row {
            Ok(bytes) => csv_row(rank, player_id@, mean_score) == Some(bytes@),
            Err(_) => csv_row(rank, player_id@, mean_score) is None,
        },
{
    let mut writer = csv::WriterBuilder::new().has_headers(false).from_writer(Vec::new());
    writer.serialize((rank, player_id, mean_score))?;
    writer.into_inner().map_err(|failure| csv::Error::from(failure.into_error()))
}

/// The header line: the column names and a line feed.
pub open spec fn header_line() -> Seq<u8> {
    OUTPUT_CSV_HEADER.spec_bytes().push(10u8)
}

/// The rows one after another.
pub open spec fn joined(rows: Seq<Seq<u8>>) -> Seq<u8>
    decreases rows.len(),
{
    if rows.len() == 0 {
        Seq::empty()
    } else {
        joined(rows.drop_last()) + rows.last()
    }
}

/// The whole output for `rows`: the header line, then the rows.
pub open spec fn table_text(rows: Seq<Seq<u8>>) -> Seq<u8> {
    header_line() + joined(rows)
}

/// Each row as its sequence of bytes.
pub open spec fn row_views(rows: Seq<Vec<u8>>) -> Seq<Seq<u8>> {
    rows.map_values(|row: Vec<u8>| row@)
}

/// The text of `entry`, or `None` where it cannot be rendered.
pub open spec fn row_text(entry: RankedEntry) -> Option<Seq<u8>> {
    csv_row(entry.rank as u64, entry.player_id, entry.mean_score)
}

/// The whole output for `entries`, or `None` where one of them cannot be
/// rendered.
pub open spec fn rendered(entries: Seq<RankedEntry>) -> Option<Seq<u8>> {
    if forall|i: int| 0 <= i < entries.len() ==> row_text(#[trigger] entries[i]) is Some {
        Some(table_text(entries.map_values(|entry: RankedEntry| row_text(entry)->0)))
    } else {
        None
    }
}

/// Puts the rendered `rows` under the header line, in their order. The
/// header is there even where no row follows.
pub fn table(rows: Vec<Vec<u8>>) -> (text: Vec<u8>)
    ensures
        text@ == table_text(row_views(rows@)),
{
    let mut text: Vec<u8> = OUTPUT_CSV_HEADER.as_bytes_vec();
    text.push(10u8);
    let ghost views = row_views(rows@);
    proof {
        assert(views.take(0) =~= Seq::<Seq<u8>>::empty());
        assert(text@ =~= header_line() + joined(views.take(0)));
    }
    for row in walk: rows
        invariant
            walk.seq() == rows@,
            views == row_views(rows@),
            text@ == header_line() + joined(views.take(walk.index())),
    {
        let ghost at = walk.index();
        let mut row = row;
        proof {
            assert(views.take(at + 1).drop_last() =~= views.take(at));
            assert(views.take(at + 1).last() == row@);
        }
        text.append(&mut row);
        assert(text@ =~= header_line() + (joined(views.take(at)) + views[at]));
    }
    proof {
        assert(views.take(rows.len() as int) =~= views);
    }
    text
}

/// Renders `entries` under the header line, one row each, in their order.
/// Where a row cannot be rendered nothing is returned but the error.
pub fn render<'a>(entries: &Vec<RankingValue<'a>>) -> (result: Result<Vec<u8>, RankingError>)
    ensures
        match result {
            Ok(text) => rendered(entry_views(entries@)) == Some(text@),
            Err(RankingError::Encode { .. }) => rendered(entry_views(entries@)) is None,
            Err(_) => false,
        },
{
    let mut rows: Vec<Vec<u8>> = Vec::new();
    let ghost views = entry_views(entries@);
    let mut done: usize = 0;
    while done < entries.len()
        invariant
            done <= entries.len(),
            views == entry_views(entries@),
            rows.len() == done,
            forall|i: int| 0 <= i < done ==> row_text(#[trigger] views[i]) == Some(rows[i]@),
        decreases entries.len() - done,
    {
        let entry = &entries[done];
        assert(views[done as int] == entry@);
        match write_row(entry.rank, entry.player_id, entry.mean_score) {
            Ok(row) => {
                rows.push(row);
            },
            Err(failure) => {
                return Err(RankingError::Encode { source: failure });
            },
        }
        done = done + 1;
    }
    proof {
        assert(row_views(rows@) =~= views.map_values(|entry: RankedEntry| row_text(entry)->0));
    }
    Ok(table(rows))
}

/// The leaderboard as text: the header line, then the rows that `emit`
/// takes from `ranking` under [`LIMIT`].
pub fn output_ranking(ranking: &MeanScoreMap) -> (result: Result<Vec<u8>, RankingError>)
    requires
        ranking.wf(),
    ensures
        match result {
            Ok(text) => rendered(emitted(ranking@, LIMIT as nat)) == Some(text@),
            Err(RankingError::Encode { .. }) => rendered(emitted(ranking@, LIMIT as nat)) is None,
            Err(_) => false,
        },
{
    let entries = emit(ranking, LIMIT);
    render(&entries)
}

} // verus!
