//! The ranker: players grouped by mean score, best mean first.

use std::collections::BTreeMap;
use vstd::prelude::*;
use crate::lexical::{
    id_views, lemma_lex_ascending_unique, lemma_lex_distinct_ascending, lex_ascending, sort_player_ids,
};
use crate::means::ascending_means;
use crate::players::PlayerDataMap;
use crate::score::ScoreData;

verus! {

/// The players that share one mean score, as a mathematical value.
pub struct TieGroup {
    pub mean_score: u64,
    pub player_ids: Seq<Seq<char>>,
}

/// The players that share one mean score.
#[derive(Debug)]
pub struct ScoreGroup {
    pub mean_score: u64,
    pub player_ids: Vec<String>,
}

impl View for ScoreGroup {
    type V = TieGroup;

    open spec fn view(&self) -> TieGroup {
        TieGroup { mean_score: self.mean_score, player_ids: id_views(self.player_ids@) }
    }
}

/// Each group as its mathematical value.
pub open spec fn group_views(groups: Seq<ScoreGroup>) -> Seq<TieGroup> {
    groups.map_values(|group: ScoreGroup| group@)
}

/// The groups are in ranking order: no group is empty, means fall strictly
/// from group to group, and within a group the player ids ascend strictly
/// in lexical order.
pub open spec fn well_ranked(groups: Seq<TieGroup>) -> bool {
    &&& forall|g: int| 0 <= g < groups.len() ==> (#[trigger] groups[g]).player_ids.len() > 0
    &&& forall|g: int, h: int|
        0 <= g < h < groups.len() ==> (#[trigger] groups[g]).mean_score > (#[trigger] groups[h]).mean_score
    &&& forall|g: int| 0 <= g < groups.len() ==> lex_ascending((#[trigger] groups[g]).player_ids)
}

/// Each member of a group is a player whose rounded mean is the group's
/// mean, and each player is a member of some group.
pub open spec fn groups_by_mean(groups: Seq<TieGroup>, accumulators: Map<Seq<char>, ScoreData>) -> bool {
    &&& forall|g: int, player: Seq<char>|
        0 <= g < groups.len() && #[trigger] groups[g].player_ids.contains(player) ==> {
            &&& accumulators.contains_key(player)
            &&& accumulators[player].spec_mean_score() == groups[g].mean_score
        }
    &&& forall|player: Seq<char>| #[trigger]
        accumulators.contains_key(player) ==> exists|g: int|
            0 <= g < groups.len() && (#[trigger] groups[g]).player_ids.contains(player)
}

/// `groups` is the ranking of the players of `accumulators`.
pub open spec fn ranks(groups: Seq<TieGroup>, accumulators: Map<Seq<char>, ScoreData>) -> bool {
    well_ranked(groups) && groups_by_mean(groups, accumulators)
}

/// Two strictly falling sequences of means that hold the same means are
/// the same sequence.
proof fn lemma_falling_unique(first: Seq<u64>, second: Seq<u64>)
    requires
        forall|i: int, j: int| 0 <= i < j < first.len() ==> first[i] > first[j],
        forall|i: int, j: int| 0 <= i < j < second.len() ==> second[i] > second[j],
        forall|mean: u64| first.contains(mean) <==> second.contains(mean),
    ensures
        first == second,
    decreases first.len(),
{
    if first.len() == 0 {
        if second.len() > 0 {
            assert(second.contains(second[0]));
        }
        assert(first =~= second);
    } else if second.len() == 0 {
        assert(first.contains(first[0]));
    } else {
        assert(first.contains(first[0]));
        assert(second.contains(second[0]));
        let first_rest = first.drop_first();
        let second_rest = second.drop_first();
        assert forall|mean: u64| first_rest.contains(mean) <==> second_rest.contains(mean) by {
            if first_rest.contains(mean) {
                let k = choose|k: int| 0 <= k < first_rest.len() && first_rest[k] == mean;
                assert(first[k + 1] == mean);
                assert(first.contains(mean));
                let m = choose|m: int| 0 <= m < second.len() && second[m] == mean;
                assert(second_rest[m - 1] == mean);
            }
            if second_rest.contains(mean) {
                let k = choose|k: int| 0 <= k < second_rest.len() && second_rest[k] == mean;
                assert(second[k + 1] == mean);
                assert(second.contains(mean));
                let m = choose|m: int| 0 <= m < first.len() && first[m] == mean;
                assert(first_rest[m - 1] == mean);
            }
        }
        assert forall|i: int, j: int| 0 <= i < j < first_rest.len() implies first_rest[i] > first_rest[j] by {
            assert(first[i + 1] > first[j + 1]);
        }
        assert forall|i: int, j: int| 0 <= i < j < second_rest.len() implies second_rest[i]
            > second_rest[j] by {
            assert(second[i + 1] > second[j + 1]);
        }
        lemma_falling_unique(first_rest, second_rest);
        assert(first =~= seq![first[0]] + first_rest);
        assert(second =~= seq![second[0]] + second_rest);
    }
}

/// Every group of one ranking has the mean of some group of another
/// ranking of the same players.
proof fn lemma_means_shared(
    first: Seq<TieGroup>,
    second: Seq<TieGroup>,
    accumulators: Map<Seq<char>, ScoreData>,
    g: int,
) -> (h: int)
    requires
        ranks(first, accumulators),
        ranks(second, accumulators),
        0 <= g < first.len(),
    ensures
        0 <= h < second.len(),
        second[h].mean_score == first[g].mean_score,
{
    let player = first[g].player_ids[0];
    assert(first[g].player_ids.contains(player));
    assert(accumulators.contains_key(player));
    let h = choose|h: int| 0 <= h < second.len() && (#[trigger] second[h]).player_ids.contains(player);
    h
}

/// The players of a group belong to the group of the same mean in any
/// other ranking of the same players.
proof fn lemma_members_shared(
    first: Seq<TieGroup>,
    second: Seq<TieGroup>,
    accumulators: Map<Seq<char>, ScoreData>,
    g: int,
    player: Seq<char>,
)
    requires
        ranks(first, accumulators),
        ranks(second, accumulators),
        0 <= g < first.len(),
        g < second.len(),
        first[g].mean_score == second[g].mean_score,
        first[g].player_ids.contains(player),
    ensures
        second[g].player_ids.contains(player),
{
    assert(accumulators.contains_key(player));
    let h = choose|h: int| 0 <= h < second.len() && (#[trigger] second[h]).player_ids.contains(player);
    assert(second[h].mean_score == second[g].mean_score);
    if h < g {
        assert(second[h].mean_score > second[g].mean_score);
    }
    if g < h {
        assert(second[g].mean_score > second[h].mean_score);
    }
}

/// The accumulators decide the ranking: whatever the order in which the
/// players were met, there is one way to group them by mean, order the
/// groups by falling mean and the players of a group by ascending id.
pub proof fn lemma_ranking_unique(
    first: Seq<TieGroup>,
    second: Seq<TieGroup>,
    accumulators: Map<Seq<char>, ScoreData>,
)
    requires
        ranks(first, accumulators),
        ranks(second, accumulators),
    ensures
        first == second,
{
    let first_means = first.map_values(|group: TieGroup| group.mean_score);
    let second_means = second.map_values(|group: TieGroup| group.mean_score);
    assert forall|mean: u64| first_means.contains(mean) <==> second_means.contains(mean) by {
        if first_means.contains(mean) {
            let g = choose|g: int| 0 <= g < first_means.len() && first_means[g] == mean;
            let h = lemma_means_shared(first, second, accumulators, g);
            assert(second_means[h] == mean);
        }
        if second_means.contains(mean) {
            let g = choose|g: int| 0 <= g < second_means.len() && second_means[g] == mean;
            let h = lemma_means_shared(second, first, accumulators, g);
            assert(first_means[h] == mean);
        }
    }
    assert forall|i: int, j: int| 0 <= i < j < first_means.len() implies first_means[i] > first_means[j] by {
        assert(first[i].mean_score > first[j].mean_score);
    }
    assert forall|i: int, j: int| 0 <= i < j < second_means.len() implies second_means[i]
        > second_means[j] by {
        assert(second[i].mean_score > second[j].mean_score);
    }
    lemma_falling_unique(first_means, second_means);
    assert(first.len() == second.len());
    assert forall|g: int| 0 <= g < first.len() implies first[g] == second[g] by {
        assert(first_means[g] == second_means[g]);
        assert(first[g].mean_score == second[g].mean_score);
        assert forall|player: Seq<char>|
            first[g].player_ids.contains(player) <==> second[g].player_ids.contains(player) by {
            if first[g].player_ids.contains(player) {
                lemma_members_shared(first, second, accumulators, g, player);
            }
            if second[g].player_ids.contains(player) {
                lemma_members_shared(second, first, accumulators, g, player);
            }
        }
        lemma_lex_ascending_unique(first[g].player_ids, second[g].player_ids);
    }
    assert(first =~= second);
}

/// The grouped ranking: what `set_mean_score_map` hands to the emitter.
///
/// As a mathematical value it is the sequence of its groups, best mean
/// first.
#[derive(Debug)]
pub struct MeanScoreMap {
    groups: Vec<ScoreGroup>,
}

impl View for MeanScoreMap {
    type V = Seq<TieGroup>;

    closed spec fn view(&self) -> Seq<TieGroup> {
        group_views(self.groups@)
    }
}

impl MeanScoreMap {
    /// The groups are in ranking order.
    pub open spec fn wf(&self) -> bool {
        well_ranked(self@)
    }

    /// The groups, best mean first.
    pub fn groups(&self) -> (groups: &Vec<ScoreGroup>)
        ensures
            group_views(groups@) == self@,
    {
        &self.groups
    }
}

/// The players of `accumulators` that come first in `players`, `seen` of
/// them, stand in `by_mean` under their rounded mean, and nothing else does.
spec fn grouped(
    by_mean: Map<u64, Vec<String>>,
    players: Seq<Seq<char>>,
    seen: int,
    accumulators: Map<Seq<char>, ScoreData>,
) -> bool {
    &&& forall|mean: u64| #[trigger]
        by_mean.contains_key(mean) ==> {
            &&& by_mean[mean].len() > 0
            &&& id_views(by_mean[mean]@).no_duplicates()
        }
    &&& forall|mean: u64, player: Seq<char>|
        by_mean.contains_key(mean) && #[trigger] id_views(by_mean[mean]@).contains(player) ==> {
            &&& players.take(seen).contains(player)
            &&& accumulators[player].spec_mean_score() == mean
        }
    &&& forall|i: int|
        0 <= i < seen ==> {
            let mean = accumulators[#[trigger] players[i]].spec_mean_score() as u64;
            by_mean.contains_key(mean) && id_views(by_mean[mean]@).contains(players[i])
        }
}

/// Files every player under its rounded mean.
fn group_by_mean(players: &PlayerDataMap) -> (by_mean: BTreeMap<u64, Vec<String>>)
    requires
        players.wf(),
    ensures
        grouped(by_mean@, players.players(), players.players().len() as int, players@),
{
    let mut by_mean: BTreeMap<u64, Vec<String>> = BTreeMap::new();
    let count = players.len();
    let mut position: usize = 0;
    proof {
        players.lemma_players();
    }
    while position < count
        invariant
            players.wf(),
            count == players.players().len(),
            position <= count,
            players.players().no_duplicates(),
            grouped(by_mean@, players.players(), position as int, players@),
        decreases count - position,
    {
        let (player_id, data) = players.player_at(position);
        let mean = data.mean_score();
        let ghost before = by_mean@;
        let ghost all = players.players();
        let mut ids = match by_mean.remove(&mean) {
            Some(ids) => ids,
            None => Vec::new(),
        };
        let ghost old_ids = id_views(ids@);
        ids.push(player_id.clone());
        by_mean.insert(mean, ids);
        proof {
            let new_ids = id_views(ids@);
            assert(new_ids =~= old_ids.push(player_id@));
            assert(all.take(position + 1) =~= all.take(position as int).push(player_id@));
            assert(before.contains_key(mean) ==> old_ids == id_views(before[mean]@));
            assert(!old_ids.contains(player_id@)) by {
                if old_ids.contains(player_id@) {
                    assert(all.take(position as int).contains(player_id@));
                    let earlier = choose|i: int|
                        0 <= i < all.take(position as int).len() && all.take(position as int)[i] == player_id@;
                    assert(all[earlier] == all[position as int]);
                }
            }
            assert(new_ids.no_duplicates()) by {
                assert forall|i: int, j: int| 0 <= i < new_ids.len() && 0 <= j < new_ids.len() && i != j implies new_ids[i]
                    != new_ids[j] by {
                    if i < old_ids.len() {
                        assert(old_ids.contains(old_ids[i]));
                    }
                    if j < old_ids.len() {
                        assert(old_ids.contains(old_ids[j]));
                    }
                }
            }
            assert forall|other: u64, player: Seq<char>|
                by_mean@.contains_key(other) && #[trigger] id_views(by_mean@[other]@).contains(player) implies {
                &&& all.take(position + 1).contains(player)
                &&& players@[player].spec_mean_score() == other
            } by {
                if other == mean {
                    let at = choose|i: int| 0 <= i < new_ids.len() && new_ids[i] == player;
                    if at < old_ids.len() {
                        assert(old_ids.contains(player));
                        let earlier = choose|i: int|
                            0 <= i < all.take(position as int).len() && all.take(position as int)[i] == player;
                        assert(all.take(position + 1)[earlier] == player);
                    } else {
                        assert(all.take(position + 1)[position as int] == player);
                    }
                } else {
                    assert(before.contains_key(other));
                    assert(id_views(before[other]@).contains(player));
                    let earlier = choose|i: int|
                        0 <= i < all.take(position as int).len() && all.take(position as int)[i] == player;
                    assert(all.take(position + 1)[earlier] == player);
                }
            }
            assert forall|i: int| 0 <= i < position + 1 implies {
                let filed = players@[#[trigger] all[i]].spec_mean_score() as u64;
                by_mean@.contains_key(filed) && id_views(by_mean@[filed]@).contains(all[i])
            } by {
                let filed = players@[all[i]].spec_mean_score() as u64;
                if i < position {
                    if filed == mean {
                        let at = choose|k: int| 0 <= k < old_ids.len() && old_ids[k] == all[i];
                        assert(new_ids[at] == all[i]);
                    }
                } else {
                    assert(new_ids[old_ids.len() as int] == all[i]);
                }
            }
        }
        position = position + 1;
    }
    by_mean
}

/// Groups the players by rounded mean, best mean first, and orders the
/// players of each group by ascending id.
pub fn set_mean_score_map(players: &PlayerDataMap) -> (ranking: MeanScoreMap)
    requires
        players.wf(),
    ensures
        ranking.wf(),
        ranks(ranking@, players@),
{
    let mut by_mean = group_by_mean(players);
    let means = ascending_means(&by_mean);
    let ghost filed = by_mean@;
    let ghost all = players.players();
    let mut groups: Vec<ScoreGroup> = Vec::new();
    let mut remaining = means.len();
    proof {
        players.lemma_players();
    }
    while remaining > 0
        invariant
            remaining <= means.len(),
            groups.len() == means.len() - remaining,
            forall|i: int, j: int| 0 <= i < j < means.len() ==> means[i] < means[j],
            means@.to_set() =~= filed.dom(),
            all == players.players(),
            forall|i: int| 0 <= i < means.len() ==> filed.contains_key(#[trigger] means[i]),
            grouped(filed, all, all.len() as int, players@),
            forall|i: int|
                0 <= i < remaining ==> by_mean@.contains_key(#[trigger] means[i]) && by_mean@[means[i]]
                    == filed[means[i]],
            forall|g: int|
                0 <= g < groups.len() ==> {
                    &&& (#[trigger] groups[g]).mean_score == means[means.len() - 1 - g]
                    &&& lex_ascending(groups[g]@.player_ids)
                    &&& groups[g]@.player_ids.to_multiset() == id_views(
                        filed[groups[g].mean_score]@,
                    ).to_multiset()
                },
            forall|mean: u64| #[trigger]
                filed.contains_key(mean) ==> filed[mean].len() > 0 && id_views(filed[mean]@).no_duplicates(),
        decreases remaining,
    {
        remaining = remaining - 1;
        let mean = means[remaining];
        match by_mean.remove(&mean) {
            Some(mut ids) => {
                let ghost unsorted = id_views(ids@);
                sort_player_ids(&mut ids);
                proof {
                    let sorted = id_views(ids@);
                    unsorted.lemma_multiset_has_no_duplicates();
                    sorted.lemma_multiset_has_no_duplicates_conv();
                    lemma_lex_distinct_ascending(sorted);
                }
                groups.push(ScoreGroup { mean_score: mean, player_ids: ids });
            },
            None => {
                assert(false);
            },
        }
    }
    let ranking = MeanScoreMap { groups };
    proof {
        players.lemma_players();
        let views = ranking@;
        assert(all.take(all.len() as int) =~= all);
        assert forall|g: int| 0 <= g < views.len() implies {
            &&& (#[trigger] views[g]).mean_score == means[means.len() - 1 - g]
            &&& filed.contains_key(views[g].mean_score)
            &&& views[g].player_ids.len() > 0
            &&& lex_ascending(views[g].player_ids)
        } by {
            let group = ranking.groups[g];
            assert(views[g] == group@);
            assert(filed.contains_key(means[means.len() - 1 - g]));
            group@.player_ids.to_multiset_ensures();
            id_views(filed[group.mean_score]@).to_multiset_ensures();
        }
        assert forall|g: int, player: Seq<char>| 0 <= g < views.len() implies (
        #[trigger] views[g].player_ids.contains(player) <==> id_views(filed[views[g].mean_score]@).contains(
            player,
        )) by {
            let group = ranking.groups[g];
            assert(views[g] == group@);
            vstd::seq_lib::to_multiset_contains(group@.player_ids, player);
            vstd::seq_lib::to_multiset_contains(id_views(filed[group.mean_score]@), player);
        }
        assert(well_ranked(views)) by {
            assert forall|g: int, h: int| 0 <= g < h < views.len() implies (#[trigger] views[g]).mean_score > (
            #[trigger] views[h]).mean_score by {
                assert(means[means.len() - 1 - h] < means[means.len() - 1 - g]);
            }
        }
        assert forall|g: int, player: Seq<char>|
            0 <= g < views.len() && #[trigger] views[g].player_ids.contains(player) implies {
            &&& players@.contains_key(player)
            &&& players@[player].spec_mean_score() == views[g].mean_score
        } by {
            assert(id_views(filed[views[g].mean_score]@).contains(player));
        }
        assert forall|player: Seq<char>| #[trigger] players@.contains_key(player) implies exists|g: int|
            0 <= g < views.len() && (#[trigger] views[g]).player_ids.contains(player) by {
            assert(all.contains(player));
            let at = choose|i: int| 0 <= i < all.len() && all[i] == player;
            let mean = players@[all[at]].spec_mean_score() as u64;
            assert(filed.contains_key(mean) && id_views(filed[mean]@).contains(player));
            assert(means@.to_set().contains(mean));
            let slot = choose|i: int| 0 <= i < means.len() && means[i] == mean;
            let g = means.len() - 1 - slot;
            assert(views[g].mean_score == mean);
            assert(views[g].player_ids.contains(player));
        }
    }
    ranking
}

} // verus!
