//! The aggregator: one score accumulator per player.

use vstd::prelude::*;
use vstd::hash_map::StringHashMap;
use crate::error::RankingError;
use crate::lexical::id_views;
use crate::record::{
    appears, lemma_absent_player, lemma_totals_grow, lemma_totals_step, record_count, total_score, totals_fit,
    LogValue,
};
use crate::score::ScoreData;

verus! {

/// The accumulators of all players seen so far, found by player id and
/// walked in the order in which the players first appeared.
///
/// As a mathematical value it is the map from player id to accumulator.
pub struct PlayerDataMap {
    player_ids: Vec<String>,
    scores: Vec<ScoreData>,
    index: StringHashMap<usize>,
}

impl View for PlayerDataMap {
    type V = Map<Seq<char>, ScoreData>;

    closed spec fn view(&self) -> Map<Seq<char>, ScoreData> {
        Map::new(
            |player: Seq<char>| self.index@.contains_key(player),
            |player: Seq<char>| self.scores@[self.index@[player] as int],
        )
    }
}

/// `accumulators` holds, for each player of `records` and for no one else,
/// the sum and the number of that player's scores.
pub open spec fn accumulates(accumulators: Map<Seq<char>, ScoreData>, records: Seq<LogValue>) -> bool {
    forall|player: Seq<char>|
        {
            &&& #[trigger] accumulators.contains_key(player) <==> appears(records, player)
            &&& accumulators.contains_key(player) ==> {
                &&& accumulators[player].sum == total_score(records, player)
                &&& accumulators[player].count == record_count(records, player)
            }
        }
}

impl PlayerDataMap {
    /// The index finds each player at its position, and only players; every
    /// accumulator has counted at least one record.
    pub closed spec fn wf(&self) -> bool {
        &&& self.player_ids.len() == self.scores.len()
        &&& forall|i: int| 0 <= i < self.scores.len() ==> (#[trigger] self.scores[i]).count > 0
        &&& forall|i: int|
            0 <= i < self.player_ids.len() ==> {
                &&& self.index@.contains_key(#[trigger] self.player_ids[i]@)
                &&& self.index@[self.player_ids[i]@] == i
            }
        &&& forall|player: Seq<char>| #[trigger]
            self.index@.contains_key(player) ==> {
                &&& self.index@[player] < self.player_ids.len()
                &&& self.player_ids[self.index@[player] as int]@ == player
            }
    }

    /// The players in the order in which they first appeared.
    pub closed spec fn players(&self) -> Seq<Seq<char>> {
        id_views(self.player_ids@)
    }

    /// `players` lists each player of the map once.
    pub proof fn lemma_players(&self)
        requires
            self.wf(),
        ensures
            self.players().no_duplicates(),
            forall|player: Seq<char>| self@.contains_key(player) <==> self.players().contains(player),
            self@.dom().finite(),
            self@.dom().len() == self.players().len(),
            forall|player: Seq<char>| #[trigger] self@.contains_key(player) ==> self@[player].count > 0,
    {
        let players = self.players();
        assert forall|i: int, j: int| 0 <= i < players.len() && 0 <= j < players.len() && i != j implies players[i]
            != players[j] by {
            assert(self.index@[self.player_ids[i]@] == i);
            assert(self.index@[self.player_ids[j]@] == j);
        }
        assert forall|player: Seq<char>| self@.contains_key(player) <==> players.contains(player) by {
            if self@.contains_key(player) {
                assert(players[self.index@[player] as int] == player);
            }
            if players.contains(player) {
                let i = choose|i: int| 0 <= i < players.len() && players[i] == player;
                assert(self.index@.contains_key(self.player_ids[i]@));
            }
        }
        assert(self@.dom() =~= players.to_set());
        players.unique_seq_to_set();
        vstd::seq_lib::seq_to_set_is_finite(players);
    }

    /// A map without players.
    pub fn new() -> (map: Self)
        ensures
            map.wf(),
            map@ == Map::<Seq<char>, ScoreData>::empty(),
    {
        let map = PlayerDataMap { player_ids: Vec::new(), scores: Vec::new(), index: StringHashMap::new() };
        assert(map@ =~= Map::<Seq<char>, ScoreData>::empty());
        map
    }

    /// The number of players.
    pub fn len(&self) -> (n: usize)
        requires
            self.wf(),
        ensures
            n == self@.len(),
            n == self.players().len(),
    {
        proof {
            self.lemma_players();
        }
        self.player_ids.len()
    }

    /// The accumulator of `player_id`, if that player has a record.
    pub fn get(&self, player_id: &str) -> (data: Option<ScoreData>)
        requires
            self.wf(),
        ensures
            match data {
                Some(found) => self@.contains_key(player_id@) && found == self@[player_id@],
                None => !self@.contains_key(player_id@),
            },
    {
        match self.index.get(player_id) {
            Some(position) => Some(self.scores[*position]),
            None => None,
        }
    }

    /// The `position`-th player in order of first appearance, with its
    /// accumulator.
    pub fn player_at(&self, position: usize) -> (player: (&String, ScoreData))
        requires
            self.wf(),
            position < self.players().len(),
        ensures
            player.0@ == self.players()[position as int],
            self@.contains_key(player.0@),
            player.1 == self@[player.0@],
            player.1.count > 0,
    {
        (&self.player_ids[position], self.scores[position])
    }

    /// Accounts for one record of `player_id`, creating the player's
    /// accumulator at its first record. Returns `false`, and changes
    /// nothing, where the player's sum or count would leave `u64`.
    pub fn record(&mut self, player_id: &str, score: u64) -> (recorded: bool)
        requires
            old(self).wf(),
        ensures
            final(self).wf(),
            recorded <==> (old(self)@.contains_key(player_id@) ==> old(self)@[player_id@].sum + score <= u64::MAX
                && old(self)@[player_id@].count < u64::MAX),
            !recorded ==> final(self)@ == old(self)@ && final(self).players() == old(self).players(),
            recorded && old(self)@.contains_key(player_id@) ==> final(self)@ == old(self)@.insert(
                player_id@,
                ScoreData {
                    sum: (old(self)@[player_id@].sum + score) as u64,
                    count: (old(self)@[player_id@].count + 1) as u64,
                },
            ) && final(self).players() == old(self).players(),
            recorded && !old(self)@.contains_key(player_id@) ==> final(self)@ == old(self)@.insert(
                player_id@,
                ScoreData { sum: score, count: 1 },
            ) && final(self).players() == old(self).players().push(player_id@),
    {
        match self.index.get(player_id) {
            Some(found) => {
                let position = *found;
                let mut data = self.scores[position];
                if score > u64::MAX - data.sum || data.count == u64::MAX {
                    return false;
                }
                data.add(score);
                self.scores.set(position, data);
                assert(self@ =~= old(self)@.insert(player_id@, data));
                true
            },
            None => {
                let position = self.player_ids.len();
                let mut data = ScoreData::new();
                data.add(score);
                self.player_ids.push(player_id.to_owned());
                self.scores.push(data);
                self.index.insert(player_id.to_owned(), position);
                assert(self@ =~= old(self)@.insert(player_id@, data));
                assert(self.players() =~= old(self).players().push(player_id@));
                true
            },
        }
    }
}

/// Builds the accumulators of `records`: each player of the input gets
/// exactly one, holding the sum and the number of that player's scores.
///
/// Fails where a player's score total does not fit in `u64`, naming the
/// first record with which a total leaves that range.
pub fn set_player_data_map(records: &Vec<LogValue>) -> (result: Result<PlayerDataMap, RankingError>)
    ensures
        result is Ok <==> totals_fit(records@),
        match result {
            Ok(map) => map.wf() && accumulates(map@, records@),
            Err(RankingError::Overflow { row }) => {
                &&& row < records.len()
                &&& totals_fit(records@.take(row as int))
                &&& total_score(records@.take(row + 1), records[row as int].player_id@) > u64::MAX
            },
            Err(_) => false,
        },
{
    let mut map = PlayerDataMap::new();
    let mut row: usize = 0;
    while row < records.len()
        invariant
            row <= records.len(),
            map.wf(),
            accumulates(map@, records@.take(row as int)),
        decreases records.len() - row,
    {
        let record = &records[row];
        let ghost before = map@;
        let recorded = map.record(record.player_id.as_str(), record.score);
        proof {
            let player = record.player_id@;
            let seen = records@.take(row as int);
            assert forall|other: Seq<char>| #[trigger] total_score(seen, other) <= u64::MAX by {
                assert(before.contains_key(other) <==> appears(seen, other));
                if !appears(seen, other) {
                    lemma_absent_player(seen, other);
                }
            }
            lemma_totals_step(records@, row as int, player);
            if recorded {
                assert forall|other: Seq<char>|
                    {
                        &&& #[trigger] map@.contains_key(other) <==> appears(
                            records@.take(row + 1),
                            other,
                        )
                        &&& map@.contains_key(other) ==> {
                            &&& map@[other].sum == total_score(records@.take(row + 1), other)
                            &&& map@[other].count == record_count(records@.take(row + 1), other)
                        }
                    } by {
                    lemma_totals_step(records@, row as int, other);
                    assert(before.contains_key(other) <==> appears(seen, other));
                    if !appears(seen, other) {
                        lemma_absent_player(seen, other);
                    }
                }
            } else {
                assert(before.contains_key(player) <==> appears(seen, player));
                lemma_totals_grow(records@, row + 1, player);
            }
        }
        if !recorded {
            return Err(RankingError::Overflow { row });
        }
        row = row + 1;
    }
    proof {
        assert(records@.take(row as int) =~= records@);
        assert forall|player: Seq<char>| #[trigger] total_score(records@, player) <= u64::MAX by {
            assert(map@.contains_key(player) <==> appears(records@, player));
            if !appears(records@, player) {
                lemma_absent_player(records@, player);
            }
        }
    }
    Ok(map)
}

} // verus!
