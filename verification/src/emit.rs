//! The emitter: competition ranks and the soft row limit.

use vstd::prelude::*;
use crate::lexical::lex_lt;
use crate::ranking::{group_views, well_ranked, MeanScoreMap, ScoreGroup, TieGroup};

verus! {

/// The number of rows asked for. A tie group that reaches across this
/// limit is still emitted whole.
pub const LIMIT: u32 = 10;

/// One row of the leaderboard, as a mathematical value.
pub struct RankedEntry {
    pub rank: nat,
    pub player_id: Seq<char>,
    pub mean_score: u64,
}

/// One row of the leaderboard.
#[derive(Debug)]
pub struct RankingValue<'a> {
    pub rank: u64,
    pub player_id: &'a str,
    pub mean_score: u64,
}

impl<'a> View for RankingValue<'a> {
    type V = RankedEntry;

    open spec fn view(&self) -> RankedEntry {
        RankedEntry { rank: self.rank as nat, player_id: self.player_id@, mean_score: self.mean_score }
    }
}

/// Each row as its mathematical value.
pub open spec fn entry_views(entries: Seq<RankingValue>) -> Seq<RankedEntry> {
    entries.map_values(|entry: RankingValue| entry@)
}

/// The rows of one tie group: its players in the group's order, all under
/// the same rank.
pub open spec fn group_entries(group: TieGroup, rank: nat) -> Seq<RankedEntry> {
    Seq::new(
        group.player_ids.len(),
        |i: int| RankedEntry { rank, player_id: group.player_ids[i], mean_score: group.mean_score },
    )
}

/// The rows of `groups`, group after group. A group's rank is one more than
/// the number of rows before it, so the rank after a tie skips ahead by the
/// size of the tie.
pub open spec fn ranked_entries(groups: Seq<TieGroup>) -> Seq<RankedEntry>
    decreases groups.len(),
{
    if groups.len() == 0 {
        Seq::empty()
    } else {
        let earlier = ranked_entries(groups.drop_last());
        earlier + group_entries(groups.last(), earlier.len() + 1)
    }
}

/// Emitting the first `cut` groups obeys the limit: before each of these
/// groups fewer than `limit` rows were out, and after the last of them the
/// limit is reached or no group is left.
pub open spec fn is_cut(groups: Seq<TieGroup>, limit: nat, cut: int) -> bool {
    &&& 0 <= cut <= groups.len()
    &&& forall|fewer: int| 0 <= fewer < cut ==> (#[trigger] ranked_entries(groups.take(fewer))).len() < limit
    &&& cut == groups.len() || ranked_entries(groups.take(cut)).len() >= limit
}

/// The number of leading groups that are emitted under `limit`.
pub open spec fn emitted_groups(groups: Seq<TieGroup>, limit: nat) -> int {
    choose|cut: int| is_cut(groups, limit, cut)
}

/// The rows that are emitted under `limit`.
pub open spec fn emitted(groups: Seq<TieGroup>, limit: nat) -> Seq<RankedEntry> {
    ranked_entries(groups.take(emitted_groups(groups, limit)))
}

/// The number of rows whose mean is strictly greater than `mean`.
pub open spec fn count_above(entries: Seq<RankedEntry>, mean: u64) -> nat
    decreases entries.len(),
{
    if entries.len() == 0 {
        0
    } else {
        count_above(entries.drop_last(), mean) + if entries.last().mean_score > mean {
            1nat
        } else {
            0
        }
    }
}

/// Standard competition ranking: a row's rank is one more than the number
/// of rows with a strictly greater mean, so two rows have the same rank
/// exactly when they have the same mean.
pub open spec fn competition_ranked(entries: Seq<RankedEntry>) -> bool {
    &&& forall|i: int|
        0 <= i < entries.len() ==> (#[trigger] entries[i]).rank == 1 + count_above(entries, entries[i].mean_score)
    &&& forall|i: int, j: int|
        0 <= i < entries.len() && 0 <= j < entries.len() ==> ((#[trigger] entries[i]).rank == (
        #[trigger] entries[j]).rank <==> entries[i].mean_score == entries[j].mean_score)
}

/// Rows that share a mean stand in strictly ascending lexical order of
/// their player ids.
pub open spec fn ties_ascending(entries: Seq<RankedEntry>) -> bool {
    forall|i: int, j: int|
        0 <= i < j < entries.len() && (#[trigger] entries[i]).mean_score == (#[trigger] entries[j]).mean_score
            ==> lex_lt(entries[i].player_id, entries[j].player_id)
}

/// One more group adds its rows behind those of the groups before it.
pub proof fn lemma_ranked_entries_step(groups: Seq<TieGroup>, n: int)
    requires
        0 <= n < groups.len(),
    ensures
        ranked_entries(groups.take(n + 1)) == ranked_entries(groups.take(n)) + group_entries(
            groups[n],
            ranked_entries(groups.take(n)).len() + 1,
        ),
        ranked_entries(groups.take(n + 1)).len() == ranked_entries(groups.take(n)).len()
            + groups[n].player_ids.len(),
{
    assert(groups.take(n + 1).drop_last() =~= groups.take(n));
    assert(groups.take(n + 1).last() == groups[n]);
}

/// The number of rows only grows with the number of groups.
pub proof fn lemma_ranked_entries_grow(groups: Seq<TieGroup>, fewer: int, more: int)
    requires
        0 <= fewer <= more <= groups.len(),
    ensures
        ranked_entries(groups.take(fewer)).len() <= ranked_entries(groups.take(more)).len(),
    decreases more - fewer,
{
    if fewer < more {
        lemma_ranked_entries_step(groups, more - 1);
        lemma_ranked_entries_grow(groups, fewer, more - 1);
    }
}

/// There is one place to cut, and `emitted_groups` is it: the first group
/// boundary at which `limit` rows or more are out, or the end of the
/// ranking where it has fewer rows than `limit`.
pub proof fn lemma_cut_unique(groups: Seq<TieGroup>, limit: nat, cut: int)
    requires
        is_cut(groups, limit, cut),
    ensures
        emitted_groups(groups, limit) == cut,
        emitted(groups, limit) == ranked_entries(groups.take(cut)),
        emitted(groups, limit).len() >= limit || emitted(groups, limit) == ranked_entries(groups),
        forall|boundary: int|
            0 <= boundary <= groups.len() && ranked_entries(groups.take(boundary)).len() >= limit
                ==> emitted(groups, limit).len() <= (#[trigger] ranked_entries(groups.take(boundary))).len(),
{
    let chosen = emitted_groups(groups, limit);
    assert(is_cut(groups, limit, chosen));
    if chosen < cut {
        assert(ranked_entries(groups.take(chosen)).len() < limit);
    }
    if cut < chosen {
        assert(ranked_entries(groups.take(cut)).len() < limit);
    }
    assert(groups.take(groups.len() as int) =~= groups);
    assert forall|boundary: int|
        0 <= boundary <= groups.len() && ranked_entries(groups.take(boundary)).len() >= limit implies emitted(
        groups,
        limit,
    ).len() <= (#[trigger] ranked_entries(groups.take(boundary))).len() by {
        if boundary < cut {
            assert(ranked_entries(groups.take(boundary)).len() < limit);
        } else {
            lemma_ranked_entries_grow(groups, cut, boundary);
        }
    }
}

/// A place to cut at or after `start`, given that fewer than `limit` rows
/// are out before each earlier group.
proof fn lemma_cut_from(groups: Seq<TieGroup>, limit: nat, start: int) -> (cut: int)
    requires
        0 <= start <= groups.len(),
        forall|fewer: int| 0 <= fewer < start ==> (#[trigger] ranked_entries(groups.take(fewer))).len() < limit,
    ensures
        is_cut(groups, limit, cut),
    decreases groups.len() - start,
{
    if start == groups.len() || ranked_entries(groups.take(start)).len() >= limit {
        start
    } else {
        lemma_cut_from(groups, limit, start + 1)
    }
}

/// The soft limit: the rows emitted are those of some number of whole
/// leading groups, the fewest that hold `limit` rows or more, or, where the
/// ranking has fewer rows than `limit`, all of them. The rows of a ranking
/// that are emitted carry competition ranks, and tied rows stand in
/// ascending order of player id.
pub proof fn lemma_emitted_laws(groups: Seq<TieGroup>, limit: nat)
    ensures
        is_cut(groups, limit, emitted_groups(groups, limit)),
        emitted(groups, limit).len() >= limit || emitted(groups, limit) == ranked_entries(groups),
        forall|boundary: int|
            0 <= boundary <= groups.len() && ranked_entries(groups.take(boundary)).len() >= limit
                ==> emitted(groups, limit).len() <= (#[trigger] ranked_entries(groups.take(boundary))).len(),
        well_ranked(groups) ==> competition_ranked(emitted(groups, limit)) && ties_ascending(
            emitted(groups, limit),
        ),
{
    let cut = lemma_cut_from(groups, limit, 0);
    lemma_cut_unique(groups, limit, cut);
    if well_ranked(groups) {
        lemma_prefix_well_ranked(groups, cut);
        lemma_ranked_entries_laws(groups.take(cut));
    }
}

/// Rows before a group come from groups of greater mean.
proof fn lemma_entries_above_last(groups: Seq<TieGroup>)
    requires
        well_ranked(groups),
        groups.len() > 0,
    ensures
        forall|i: int|
            0 <= i < ranked_entries(groups).len() ==> (#[trigger] ranked_entries(groups)[i]).mean_score
                >= groups.last().mean_score,
        forall|i: int|
            0 <= i < ranked_entries(groups.drop_last()).len() ==> (#[trigger] ranked_entries(
                groups.drop_last(),
            )[i]).mean_score > groups.last().mean_score,
    decreases groups.len(),
{
    let shorter = groups.drop_last();
    let earlier = ranked_entries(shorter);
    let tied = group_entries(groups.last(), earlier.len() + 1);
    let all = ranked_entries(groups);
    assert(all == earlier + tied);
    if shorter.len() > 0 {
        lemma_prefix_well_ranked(groups, groups.len() - 1);
        assert(groups.take(groups.len() - 1) =~= shorter);
        lemma_entries_above_last(shorter);
        assert(shorter.last() == groups[groups.len() - 2]);
        assert(groups[groups.len() - 2].mean_score > groups[groups.len() - 1].mean_score);
    }
    assert forall|i: int| 0 <= i < all.len() implies (#[trigger] all[i]).mean_score >= groups.last().mean_score by {
        if i < earlier.len() {
            assert(all[i] == earlier[i]);
        } else {
            assert(all[i] == tied[i - earlier.len()]);
        }
    }
}

/// The leading groups of a ranking are a ranking.
pub proof fn lemma_prefix_well_ranked(groups: Seq<TieGroup>, n: int)
    requires
        well_ranked(groups),
        0 <= n <= groups.len(),
    ensures
        well_ranked(groups.take(n)),
{
    let prefix = groups.take(n);
    assert forall|g: int| 0 <= g < prefix.len() implies (#[trigger] prefix[g]).player_ids.len() > 0 by {
        assert(prefix[g] == groups[g]);
    }
    assert forall|g: int, h: int| 0 <= g < h < prefix.len() implies (#[trigger] prefix[g]).mean_score > (
    #[trigger] prefix[h]).mean_score by {
        assert(groups[g].mean_score > groups[h].mean_score);
    }
    assert forall|g: int| 0 <= g < prefix.len() implies crate::lexical::lex_ascending(
        (#[trigger] prefix[g]).player_ids,
    ) by {
        assert(prefix[g] == groups[g]);
    }
}

/// Counting the rows above a mean goes part by part.
proof fn lemma_count_above_concat(front: Seq<RankedEntry>, back: Seq<RankedEntry>, mean: u64)
    ensures
        count_above(front + back, mean) == count_above(front, mean) + count_above(back, mean),
    decreases back.len(),
{
    if back.len() == 0 {
        assert(front + back =~= front);
    } else {
        assert((front + back).drop_last() =~= front + back.drop_last());
        assert((front + back).last() == back.last());
        lemma_count_above_concat(front, back.drop_last(), mean);
    }
}

/// What `count_above` is where all rows, or none, lie above the mean.
proof fn lemma_count_above_uniform(entries: Seq<RankedEntry>, mean: u64)
    ensures
        (forall|i: int| 0 <= i < entries.len() ==> (#[trigger] entries[i]).mean_score > mean) ==> count_above(
            entries,
            mean,
        ) == entries.len(),
        (forall|i: int| 0 <= i < entries.len() ==> (#[trigger] entries[i]).mean_score <= mean) ==> count_above(
            entries,
            mean,
        ) == 0,
        count_above(entries, mean) <= entries.len(),
    decreases entries.len(),
{
    if entries.len() > 0 {
        let shorter = entries.drop_last();
        lemma_count_above_uniform(shorter, mean);
        if forall|i: int| 0 <= i < entries.len() ==> (#[trigger] entries[i]).mean_score > mean {
            assert forall|i: int| 0 <= i < shorter.len() implies (#[trigger] shorter[i]).mean_score > mean by {
                assert(entries[i].mean_score > mean);
            }
            assert(entries[entries.len() - 1].mean_score > mean);
        }
        if forall|i: int| 0 <= i < entries.len() ==> (#[trigger] entries[i]).mean_score <= mean {
            assert forall|i: int| 0 <= i < shorter.len() implies (#[trigger] shorter[i]).mean_score <= mean by {
                assert(entries[i].mean_score <= mean);
            }
            assert(entries[entries.len() - 1].mean_score <= mean);
        }
    }
}

/// The rows of a ranking carry competition ranks, and tied rows stand in
/// ascending order of player id.
pub proof fn lemma_ranked_entries_laws(groups: Seq<TieGroup>)
    requires
        well_ranked(groups),
    ensures
        competition_ranked(ranked_entries(groups)),
        ties_ascending(ranked_entries(groups)),
        forall|i: int|
            0 <= i < ranked_entries(groups).len() ==> 1 <= (#[trigger] ranked_entries(groups)[i]).rank
                <= ranked_entries(groups).len(),
        forall|i: int, j: int|
            0 <= i < j < ranked_entries(groups).len() ==> (#[trigger] ranked_entries(groups)[i]).mean_score >= (
            #[trigger] ranked_entries(groups)[j]).mean_score,
    decreases groups.len(),
{
    if groups.len() > 0 {
        let shorter = groups.drop_last();
        let last = groups.last();
        let earlier = ranked_entries(shorter);
        let rank = earlier.len() + 1;
        let tied = group_entries(last, rank);
        let all = ranked_entries(groups);
        assert(all == earlier + tied);
        lemma_prefix_well_ranked(groups, groups.len() - 1);
        assert(groups.take(groups.len() - 1) =~= shorter);
        lemma_ranked_entries_laws(shorter);
        lemma_entries_above_last(groups);
        assert(crate::lexical::lex_ascending(last.player_ids));
        assert forall|i: int| 0 <= i < all.len() implies (#[trigger] all[i]).rank == 1 + count_above(
            all,
            all[i].mean_score,
        ) && 1 <= all[i].rank <= all.len() by {
            let mean = all[i].mean_score;
            lemma_count_above_concat(earlier, tied, mean);
            lemma_count_above_uniform(tied, mean);
            lemma_count_above_uniform(earlier, mean);
            if i < earlier.len() {
                assert(all[i] == earlier[i]);
                assert(earlier[i].mean_score > last.mean_score);
            } else {
                assert(all[i] == tied[i - earlier.len()]);
            }
        }
        assert forall|i: int, j: int| 0 <= i < all.len() && 0 <= j < all.len() implies ((#[trigger] all[i]).rank == (
        #[trigger] all[j]).rank <==> all[i].mean_score == all[j].mean_score) by {
            if i < earlier.len() {
                assert(all[i] == earlier[i]);
                assert(earlier[i].mean_score > last.mean_score);
                assert(earlier[i].rank <= earlier.len());
            } else {
                assert(all[i] == tied[i - earlier.len()]);
            }
            if j < earlier.len() {
                assert(all[j] == earlier[j]);
                assert(earlier[j].mean_score > last.mean_score);
                assert(earlier[j].rank <= earlier.len());
            } else {
                assert(all[j] == tied[j - earlier.len()]);
            }
        }
        assert forall|i: int, j: int|
            0 <= i < j < all.len() && (#[trigger] all[i]).mean_score == (#[trigger] all[j]).mean_score implies lex_lt(
            all[i].player_id,
            all[j].player_id,
        ) by {
            if j < earlier.len() {
                assert(all[i] == earlier[i]);
                assert(all[j] == earlier[j]);
            } else if i < earlier.len() {
                assert(all[i] == earlier[i]);
                assert(all[j] == tied[j - earlier.len()]);
                assert(earlier[i].mean_score > last.mean_score);
            } else {
                assert(all[i] == tied[i - earlier.len()]);
                assert(all[j] == tied[j - earlier.len()]);
                assert(lex_lt(last.player_ids[i - earlier.len()], last.player_ids[j - earlier.len()]));
            }
        }
        assert forall|i: int, j: int| 0 <= i < j < all.len() implies (#[trigger] all[i]).mean_score >= (
        #[trigger] all[j]).mean_score by {
            if j < earlier.len() {
                assert(all[i] == earlier[i]);
                assert(all[j] == earlier[j]);
            } else if i < earlier.len() {
                assert(all[i] == earlier[i]);
                assert(all[j] == tied[j - earlier.len()]);
                assert(earlier[i].mean_score > last.mean_score);
            } else {
                assert(all[i] == tied[i - earlier.len()]);
                assert(all[j] == tied[j - earlier.len()]);
            }
        }
    }
}

/// Walks the groups from the best mean down and emits their rows until
/// `limit` rows are out, never splitting a group.
///
/// The rows emitted are those of the fewest leading groups that hold
/// `limit` rows or more, or of all groups where the ranking is shorter
/// than `limit`. They carry competition ranks, and tied rows stand in
/// ascending order of player id.
pub fn emit<'a>(ranking: &'a MeanScoreMap, limit: u32) -> (entries: Vec<RankingValue<'a>>)
    requires
        ranking.wf(),
    ensures
        entry_views(entries@) == emitted(ranking@, limit as nat),
        is_cut(ranking@, limit as nat, emitted_groups(ranking@, limit as nat)),
        entries.len() >= limit || entry_views(entries@) == ranked_entries(ranking@),
        forall|boundary: int|
            0 <= boundary <= ranking@.len() && ranked_entries(ranking@.take(boundary)).len() >= limit
                ==> entries.len() <= (#[trigger] ranked_entries(ranking@.take(boundary))).len(),
        competition_ranked(entry_views(entries@)),
        ties_ascending(entry_views(entries@)),
{
    let groups: &'a Vec<ScoreGroup> = ranking.groups();
    let ghost views = ranking@;
    let mut entries: Vec<RankingValue<'a>> = Vec::new();
    let mut taken: usize = 0;
    proof {
        assert(views.take(0) =~= Seq::<TieGroup>::empty());
        assert(entry_views(entries@) =~= ranked_entries(views.take(0)));
    }
    while taken < groups.len() && entries.len() < limit as usize
        invariant
            views == ranking@,
            views == group_views(groups@),
            taken <= groups.len(),
            entry_views(entries@) == ranked_entries(views.take(taken as int)),
            forall|fewer: int|
                0 <= fewer < taken ==> (#[trigger] ranked_entries(views.take(fewer))).len() < limit,
        decreases groups.len() - taken,
    {
        let group: &'a ScoreGroup = &groups[taken];
        let rank: u64 = entries.len() as u64 + 1;
        let ghost earlier = entry_views(entries@);
        let ghost tied = group_entries(views[taken as int], rank as nat);
        let mut member: usize = 0;
        proof {
            assert(views[taken as int] == group@);
            assert(earlier + tied.take(0) =~= earlier);
        }
        while member < group.player_ids.len()
            invariant
                member <= group.player_ids.len(),
                tied == group_entries(group@, rank as nat),
                entry_views(entries@) == earlier + tied.take(member as int),
            decreases group.player_ids.len() - member,
        {
            let entry = RankingValue {
                rank,
                player_id: group.player_ids[member].as_str(),
                mean_score: group.mean_score,
            };
            proof {
                assert(entry@ == tied[member as int]);
                assert(entry_views(entries@.push(entry)) =~= entry_views(entries@).push(entry@));
                assert(tied.take(member + 1) =~= tied.take(member as int).push(tied[member as int]));
                assert(earlier + tied.take(member + 1) =~= (earlier + tied.take(member as int)).push(
                    tied[member as int],
                ));
            }
            entries.push(entry);
            member = member + 1;
        }
        proof {
            assert(tied.take(member as int) =~= tied);
            lemma_ranked_entries_step(views, taken as int);
        }
        taken = taken + 1;
    }
    proof {
        assert(is_cut(views, limit as nat, taken as int));
        lemma_cut_unique(views, limit as nat, taken as int);
        lemma_prefix_well_ranked(views, taken as int);
        lemma_ranked_entries_laws(views.take(taken as int));
        assert(entries.len() == entry_views(entries@).len());
    }
    entries
}

} // verus!
