//! Decoded play-log records and the totals they add up to.

use vstd::prelude::*;

verus! {

/// One decoded row of the play log. Any further column of the input, such
/// as a creation timestamp, is not part of it.
#[derive(Debug)]
pub struct LogValue {
    pub player_id: String,
    pub score: u64,
}

/// Some record of `records` belongs to `player`.
pub open spec fn appears(records: Seq<LogValue>, player: Seq<char>) -> bool {
    exists|i: int| 0 <= i < records.len() && (#[trigger] records[i]).player_id@ == player
}

/// The sum of the scores of `player`'s records.
pub open spec fn total_score(records: Seq<LogValue>, player: Seq<char>) -> nat
    decreases records.len(),
{
    if records.len() == 0 {
        0
    } else {
        let last = records.last();
        total_score(records.drop_last(), player) + if last.player_id@ == player {
            last.score as nat
        } else {
            0
        }
    }
}

/// The number of `player`'s records.
pub open spec fn record_count(records: Seq<LogValue>, player: Seq<char>) -> nat
    decreases records.len(),
{
    if records.len() == 0 {
        0
    } else {
        record_count(records.drop_last(), player) + if records.last().player_id@ == player {
            1nat
        } else {
            0
        }
    }
}

/// Every player's score total can be held in a `u64`.
pub open spec fn totals_fit(records: Seq<LogValue>) -> bool {
    forall|player: Seq<char>| #[trigger] total_score(records, player) <= u64::MAX
}

/// What one more record does to the totals.
pub proof fn lemma_totals_step(records: Seq<LogValue>, n: int, player: Seq<char>)
    requires
        0 <= n < records.len(),
    ensures
        total_score(records.take(n + 1), player) == total_score(records.take(n), player) + if records[n].player_id@
            == player {
            records[n].score as nat
        } else {
            0
        },
        record_count(records.take(n + 1), player) == record_count(records.take(n), player) + if records[n].player_id@
            == player {
            1nat
        } else {
            0
        },
        record_count(records.take(n), player) <= n,
        appears(records.take(n + 1), player) <==> appears(records.take(n), player) || records[n].player_id@
            == player,
    decreases n,
{
    let longer = records.take(n + 1);
    let shorter = records.take(n);
    assert(longer.drop_last() =~= shorter);
    assert(longer.last() == records[n]);
    if n > 0 {
        lemma_totals_step(records, n - 1, player);
    }
    if appears(shorter, player) {
        let i = choose|i: int| 0 <= i < shorter.len() && (#[trigger] shorter[i]).player_id@ == player;
        assert(longer[i].player_id@ == player);
    }
    if records[n].player_id@ == player {
        assert(longer[n].player_id@ == player);
    }
    if appears(longer, player) {
        let i = choose|i: int| 0 <= i < longer.len() && (#[trigger] longer[i]).player_id@ == player;
        if i < n {
            assert(shorter[i].player_id@ == player);
        }
    }
}

/// Totals only grow as records are added.
pub proof fn lemma_totals_grow(records: Seq<LogValue>, n: int, player: Seq<char>)
    requires
        0 <= n <= records.len(),
    ensures
        total_score(records.take(n), player) <= total_score(records, player),
        record_count(records.take(n), player) <= record_count(records, player),
    decreases records.len() - n,
{
    if n < records.len() {
        lemma_totals_step(records, n, player);
        lemma_totals_grow(records, n + 1, player);
    } else {
        assert(records.take(n) =~= records);
    }
}

/// A player without a record has no score and no count.
pub proof fn lemma_absent_player(records: Seq<LogValue>, player: Seq<char>)
    requires
        !appears(records, player),
    ensures
        total_score(records, player) == 0,
        record_count(records, player) == 0,
    decreases records.len(),
{
    if records.len() > 0 {
        assert(records[records.len() - 1].player_id@ != player);
        assert forall|i: int| 0 <= i < records.drop_last().len() implies (#[trigger] records.drop_last()[i]).player_id@
            != player by {
            assert(records[i].player_id@ != player);
        }
        lemma_absent_player(records.drop_last(), player);
    }
}

/// What one record adds to the score total and to the count of `player`.
pub open spec fn share(record: LogValue, player: Seq<char>) -> (nat, nat) {
    if record.player_id@ == player {
        (record.score as nat, 1nat)
    } else {
        (0nat, 0nat)
    }
}

/// Taking a record out takes its share out of the totals.
pub proof fn lemma_totals_without(records: Seq<LogValue>, at: int, player: Seq<char>)
    requires
        0 <= at < records.len(),
    ensures
        total_score(records, player) == total_score(records.remove(at), player) + share(records[at], player).0,
        record_count(records, player) == record_count(records.remove(at), player) + share(
            records[at],
            player,
        ).1,
    decreases records.len(),
{
    if at == records.len() - 1 {
        assert(records.remove(at) =~= records.drop_last());
    } else {
        lemma_totals_without(records.drop_last(), at, player);
        assert(records.remove(at).drop_last() =~= records.drop_last().remove(at));
        assert(records.remove(at).last() == records.last());
    }
}

/// The totals do not depend on the order of the records: two logs that
/// hold the same records, each as often, give every player the same sum
/// and the same count.
pub proof fn lemma_totals_any_order(first: Seq<LogValue>, second: Seq<LogValue>, player: Seq<char>)
    requires
        first.to_multiset() == second.to_multiset(),
    ensures
        total_score(first, player) == total_score(second, player),
        record_count(first, player) == record_count(second, player),
        appears(first, player) <==> appears(second, player),
    decreases first.len(),
{
    first.to_multiset_ensures();
    second.to_multiset_ensures();
    if first.len() > 0 {
        let last = first.last();
        assert(first.contains(last));
        assert(first.to_multiset().count(last) > 0);
        assert(second.to_multiset().count(last) > 0);
        assert(second.contains(last));
        let at = choose|at: int| 0 <= at < second.len() && second[at] == last;
        assert(first.remove(first.len() - 1) =~= first.drop_last());
        assert(first.remove(first.len() - 1).to_multiset() =~= first.to_multiset().remove(last));
        assert(second.remove(at).to_multiset() =~= second.to_multiset().remove(last));
        lemma_totals_any_order(first.drop_last(), second.remove(at), player);
        lemma_totals_without(second, at, player);
        if appears(first.drop_last(), player) {
            let i = choose|i: int|
                0 <= i < first.drop_last().len() && (#[trigger] first.drop_last()[i]).player_id@ == player;
            assert(first[i].player_id@ == player);
        }
        if appears(second.remove(at), player) {
            let i = choose|i: int|
                0 <= i < second.remove(at).len() && (#[trigger] second.remove(at)[i]).player_id@ == player;
            if i < at {
                assert(second[i].player_id@ == player);
            } else {
                assert(second[i + 1].player_id@ == player);
            }
        }
        if appears(first, player) {
            let i = choose|i: int| 0 <= i < first.len() && (#[trigger] first[i]).player_id@ == player;
            if i < first.len() - 1 {
                assert(first.drop_last()[i].player_id@ == player);
            } else {
                assert(second[at].player_id@ == player);
            }
        }
        if appears(second, player) {
            let i = choose|i: int| 0 <= i < second.len() && (#[trigger] second[i]).player_id@ == player;
            if i < at {
                assert(second.remove(at)[i].player_id@ == player);
            } else if i > at {
                assert(second.remove(at)[i - 1].player_id@ == player);
            } else {
                assert(first[first.len() - 1].player_id@ == player);
            }
        }
    } else {
        assert(second.len() == 0);
    }
}

} // verus!
