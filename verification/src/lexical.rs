//! The lexical order on player identifiers.
//!
//! Identifiers are compared character by character, each character by its
//! code point; a proper prefix comes before the longer string. This is the
//! order `str` has in the standard library.

use vstd::prelude::*;

verus! {

/// `a` comes strictly before `b` in lexical order.
pub open spec fn lex_lt(a: Seq<char>, b: Seq<char>) -> bool
    decreases a.len(),
{
    if b.len() == 0 {
        false
    } else if a.len() == 0 {
        true
    } else if a[0] == b[0] {
        lex_lt(a.drop_first(), b.drop_first())
    } else {
        (a[0] as int) < (b[0] as int)
    }
}

/// Each identifier comes strictly before every later one.
pub open spec fn lex_ascending(ids: Seq<Seq<char>>) -> bool {
    forall|i: int, j: int| 0 <= i < j < ids.len() ==> lex_lt(#[trigger] ids[i], #[trigger] ids[j])
}

/// No identifier comes after a later one; equal neighbours are allowed.
pub open spec fn lex_non_descending(ids: Seq<Seq<char>>) -> bool {
    forall|i: int, j: int| 0 <= i < j < ids.len() ==> !lex_lt(#[trigger] ids[j], #[trigger] ids[i])
}

/// No identifier comes before itself.
pub proof fn lemma_lex_irreflexive(a: Seq<char>)
    ensures
        !lex_lt(a, a),
    decreases a.len(),
{
    if a.len() > 0 {
        lemma_lex_irreflexive(a.drop_first());
    }
}

/// Of two different identifiers exactly one comes before the other.
pub proof fn lemma_lex_total(a: Seq<char>, b: Seq<char>)
    ensures
        a != b ==> lex_lt(a, b) || lex_lt(b, a),
        !(lex_lt(a, b) && lex_lt(b, a)),
    decreases a.len(),
{
    if a.len() > 0 && b.len() > 0 {
        if a[0] == b[0] {
            lemma_lex_total(a.drop_first(), b.drop_first());
            if a.drop_first() == b.drop_first() {
                assert(a =~= seq![a[0]] + a.drop_first());
                assert(b =~= seq![b[0]] + b.drop_first());
            }
        }
    } else if a.len() == 0 && b.len() == 0 {
        assert(a =~= b);
    }
}

/// A sequence without repeats that never descends ascends strictly.
pub proof fn lemma_lex_distinct_ascending(ids: Seq<Seq<char>>)
    requires
        lex_non_descending(ids),
        ids.no_duplicates(),
    ensures
        lex_ascending(ids),
{
    assert forall|i: int, j: int| 0 <= i < j < ids.len() implies lex_lt(
        #[trigger] ids[i],
        #[trigger] ids[j],
    ) by {
        lemma_lex_total(ids[i], ids[j]);
    }
}

/// Two strictly ascending sequences that hold the same identifiers are the
/// same sequence: a set of identifiers has one lexical arrangement.
pub proof fn lemma_lex_ascending_unique(first: Seq<Seq<char>>, second: Seq<Seq<char>>)
    requires
        lex_ascending(first),
        lex_ascending(second),
        forall|id: Seq<char>| first.contains(id) <==> second.contains(id),
    ensures
        first == second,
    decreases first.len(),
{
    if first.len() == 0 {
        if second.len() > 0 {
            assert(second.contains(second[0]));
        }
        assert(first =~= second);
    } else if second.len() == 0 {
        assert(first.contains(first[0]));
    } else {
        // Both heads are the least identifier of the common set.
        assert(first.contains(first[0]));
        assert(second.contains(second[0]));
        let at_second = choose|k: int| 0 <= k < second.len() && second[k] == first[0];
        let at_first = choose|k: int| 0 <= k < first.len() && first[k] == second[0];
        lemma_lex_total(first[0], second[0]);
        lemma_lex_irreflexive(first[0]);
        lemma_lex_irreflexive(second[0]);
        if at_second > 0 {
            assert(lex_lt(second[0], second[at_second]));
        }
        if at_first > 0 {
            assert(lex_lt(first[0], first[at_first]));
        }
        assert(first[0] == second[0]);
        let first_rest = first.drop_first();
        let second_rest = second.drop_first();
        assert forall|id: Seq<char>| first_rest.contains(id) <==> second_rest.contains(id) by {
            lemma_lex_irreflexive(id);
            if first_rest.contains(id) {
                let k = choose|k: int| 0 <= k < first_rest.len() && first_rest[k] == id;
                assert(first[k + 1] == id);
                assert(lex_lt(first[0], first[k + 1]));
                assert(first.contains(id));
                let m = choose|m: int| 0 <= m < second.len() && second[m] == id;
                assert(m > 0);
                assert(second_rest[m - 1] == id);
            }
            if second_rest.contains(id) {
                let k = choose|k: int| 0 <= k < second_rest.len() && second_rest[k] == id;
                assert(second[k + 1] == id);
                assert(lex_lt(second[0], second[k + 1]));
                assert(second.contains(id));
                let m = choose|m: int| 0 <= m < first.len() && first[m] == id;
                assert(m > 0);
                assert(first_rest[m - 1] == id);
            }
        }
        assert(lex_ascending(first_rest)) by {
            assert forall|i: int, j: int| 0 <= i < j < first_rest.len() implies lex_lt(
                #[trigger] first_rest[i],
                #[trigger] first_rest[j],
            ) by {
                assert(lex_lt(first[i + 1], first[j + 1]));
            }
        }
        assert(lex_ascending(second_rest)) by {
            assert forall|i: int, j: int| 0 <= i < j < second_rest.len() implies lex_lt(
                #[trigger] second_rest[i],
                #[trigger] second_rest[j],
            ) by {
                assert(lex_lt(second[i + 1], second[j + 1]));
            }
        }
        lemma_lex_ascending_unique(first_rest, second_rest);
        assert(first =~= seq![first[0]] + first_rest);
        assert(second =~= seq![second[0]] + second_rest);
    }
}

/// The identifiers of `ids`, each as its sequence of characters.
pub open spec fn id_views(ids: Seq<String>) -> Seq<Seq<char>> {
    ids.map_values(|id: String| id@)
}

/// `slice::sort` on a vector of strings. The standard library documents
/// that the slice ends up in ascending order of `Ord` and holds the elements
/// it held before, and that strings are ordered lexicographically by code
/// point.
#[verifier::external_body]
pub(crate) fn sort_player_ids(ids: &mut Vec<String>)
    ensures
        lex_non_descending(id_views(final(ids)@)),
        id_views(final(ids)@).to_multiset() == id_views(old(ids)@).to_multiset(),
{
    ids.sort();
}

} // verus!
