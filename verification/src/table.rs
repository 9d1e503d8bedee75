//! Key/value tables stored as vectors of pairs.
//!
//! The parse result keeps its two maps as plain vectors: keyword pairs as
//! `(&str, &str)` entries and flag counts as `(char, u64)` entries.  Each
//! vector is read through an abstraction function into a `Map`, built
//! entry by entry so that a later entry overwrites an earlier one with
//! the same key.

use vstd::prelude::*;

verus! {

/// The map read from keyword entries, later entries winning.
pub open spec fn pairs_map(ps: Seq<(&str, &str)>) -> Map<Seq<char>, Seq<char>>
    decreases ps.len(),
{
    if ps.len() == 0 {
        Map::empty()
    } else {
        pairs_map(ps.drop_last()).insert(ps.last().0@, ps.last().1@)
    }
}

/// The map read from flag-count entries, later entries winning.
pub open spec fn counts_map(ps: Seq<(char, u64)>) -> Map<char, nat>
    decreases ps.len(),
{
    if ps.len() == 0 {
        Map::empty()
    } else {
        counts_map(ps.drop_last()).insert(ps.last().0, ps.last().1 as nat)
    }
}

/// The total of all flag counts.
pub open spec fn counts_sum(ps: Seq<(char, u64)>) -> nat
    decreases ps.len(),
{
    if ps.len() == 0 {
        0
    } else {
        counts_sum(ps.drop_last()) + ps.last().1 as nat
    }
}

/// No two keyword entries share a key.
pub open spec fn pairs_unique(ps: Seq<(&str, &str)>) -> bool {
    forall|p: int, q: int| 0 <= p < q < ps.len() ==> ps[p].0@ != ps[q].0@
}

/// No two flag entries share a character.
pub open spec fn counts_unique(ps: Seq<(char, u64)>) -> bool {
    forall|p: int, q: int| 0 <= p < q < ps.len() ==> ps[p].0 != ps[q].0
}

/// A key is in the map exactly when some entry carries it.
pub proof fn lemma_pairs_map_contains(ps: Seq<(&str, &str)>, key: Seq<char>)
    ensures
        pairs_map(ps).contains_key(key) <==> exists|p: int|
            0 <= p < ps.len() && #[trigger] ps[p].0@ == key,
    decreases ps.len(),
{
    if ps.len() > 0 {
        lemma_pairs_map_contains(ps.drop_last(), key);
        if pairs_map(ps).contains_key(key) && ps.last().0@ != key {
            let p = choose|p: int| 0 <= p < ps.drop_last().len() && #[trigger] ps.drop_last()[p].0@ == key;
            assert(ps[p].0@ == key);
        }
        if exists|p: int| 0 <= p < ps.len() && #[trigger] ps[p].0@ == key {
            let p = choose|p: int| 0 <= p < ps.len() && #[trigger] ps[p].0@ == key;
            if p < ps.len() - 1 {
                assert(ps.drop_last()[p].0@ == key);
            }
        }
    }
}

/// The value at a key is the value of its last entry.
pub proof fn lemma_pairs_map_last(ps: Seq<(&str, &str)>, p: int)
    requires
        0 <= p < ps.len(),
        forall|q: int| p < q < ps.len() ==> ps[q].0@ != ps[p].0@,
    ensures
        pairs_map(ps).contains_key(ps[p].0@),
        pairs_map(ps)[ps[p].0@] == ps[p].1@,
    decreases ps.len(),
{
    if p < ps.len() - 1 {
        assert(ps.drop_last()[p] == ps[p]);
        assert(forall|q: int| p < q < ps.drop_last().len() ==> ps.drop_last()[q].0@ != ps.drop_last()[p].0@);
        lemma_pairs_map_last(ps.drop_last(), p);
    }
}

/// Removing the only entry with a key removes the key from the map.
pub proof fn lemma_pairs_map_remove(ps: Seq<(&str, &str)>, p: int)
    requires
        pairs_unique(ps),
        0 <= p < ps.len(),
    ensures
        pairs_map(ps.remove(p)) == pairs_map(ps).remove(ps[p].0@),
    decreases ps.len(),
{
    let key = ps[p].0@;
    if p == ps.len() - 1 {
        assert(ps.remove(p) =~= ps.drop_last());
        lemma_pairs_map_contains(ps.drop_last(), key);
        assert(forall|q: int| 0 <= q < ps.drop_last().len() ==> (#[trigger] ps.drop_last()[q].0@) != key);
        assert(pairs_map(ps.drop_last()) =~= pairs_map(ps).remove(key));
    } else {
        assert(ps.remove(p).drop_last() =~= ps.drop_last().remove(p));
        assert(forall|a: int, b: int| 0 <= a < b < ps.drop_last().len() ==> (#[trigger] ps.drop_last()[a].0@)
            != (#[trigger] ps.drop_last()[b].0@));
        lemma_pairs_map_remove(ps.drop_last(), p);
        assert(ps.remove(p).last() == ps.last());
        assert(ps.drop_last()[p] == ps[p]);
        assert(ps.last().0@ != key);
        assert(pairs_map(ps.remove(p)) =~= pairs_map(ps).remove(key));
    }
}

/// A character is in the map exactly when some entry carries it.
pub proof fn lemma_counts_map_contains(ps: Seq<(char, u64)>, key: char)
    ensures
        counts_map(ps).contains_key(key) <==> exists|p: int|
            0 <= p < ps.len() && #[trigger] ps[p].0 == key,
    decreases ps.len(),
{
    if ps.len() > 0 {
        lemma_counts_map_contains(ps.drop_last(), key);
        if counts_map(ps).contains_key(key) && ps.last().0 != key {
            let p = choose|p: int| 0 <= p < ps.drop_last().len() && #[trigger] ps.drop_last()[p].0 == key;
            assert(ps[p].0 == key);
        }
        if exists|p: int| 0 <= p < ps.len() && #[trigger] ps[p].0 == key {
            let p = choose|p: int| 0 <= p < ps.len() && #[trigger] ps[p].0 == key;
            if p < ps.len() - 1 {
                assert(ps.drop_last()[p].0 == key);
            }
        }
    }
}

/// The count at a character is the count of its last entry.
pub proof fn lemma_counts_map_last(ps: Seq<(char, u64)>, p: int)
    requires
        0 <= p < ps.len(),
        forall|q: int| p < q < ps.len() ==> ps[q].0 != ps[p].0,
    ensures
        counts_map(ps).contains_key(ps[p].0),
        counts_map(ps)[ps[p].0] == ps[p].1 as nat,
    decreases ps.len(),
{
    if p < ps.len() - 1 {
        assert(ps.drop_last()[p] == ps[p]);
        assert(forall|q: int| p < q < ps.drop_last().len() ==> ps.drop_last()[q].0 != ps.drop_last()[p].0);
        lemma_counts_map_last(ps.drop_last(), p);
    }
}

/// Removing the only entry with a character removes it from the map.
pub proof fn lemma_counts_map_remove(ps: Seq<(char, u64)>, p: int)
    requires
        counts_unique(ps),
        0 <= p < ps.len(),
    ensures
        counts_map(ps.remove(p)) == counts_map(ps).remove(ps[p].0),
    decreases ps.len(),
{
    let key = ps[p].0;
    if p == ps.len() - 1 {
        assert(ps.remove(p) =~= ps.drop_last());
        lemma_counts_map_contains(ps.drop_last(), key);
        assert(forall|q: int| 0 <= q < ps.drop_last().len() ==> (#[trigger] ps.drop_last()[q].0) != key);
        assert(counts_map(ps.drop_last()) =~= counts_map(ps).remove(key));
    } else {
        assert(ps.remove(p).drop_last() =~= ps.drop_last().remove(p));
        assert(forall|a: int, b: int| 0 <= a < b < ps.drop_last().len() ==> (#[trigger] ps.drop_last()[a].0)
            != (#[trigger] ps.drop_last()[b].0));
        lemma_counts_map_remove(ps.drop_last(), p);
        assert(ps.remove(p).last() == ps.last());
        assert(ps.drop_last()[p] == ps[p]);
        assert(ps.last().0 != key);
        assert(counts_map(ps.remove(p)) =~= counts_map(ps).remove(key));
    }
}

/// Removing an entry lowers the total by that entry's count.
pub proof fn lemma_counts_sum_remove(ps: Seq<(char, u64)>, p: int)
    requires
        0 <= p < ps.len(),
    ensures
        counts_sum(ps.remove(p)) + ps[p].1 == counts_sum(ps),
    decreases ps.len(),
{
    if p == ps.len() - 1 {
        assert(ps.remove(p) =~= ps.drop_last());
    } else {
        assert(ps.remove(p).drop_last() =~= ps.drop_last().remove(p));
        lemma_counts_sum_remove(ps.drop_last(), p);
        assert(ps.remove(p).last() == ps.last());
        assert(ps.drop_last()[p] == ps[p]);
    }
}

} // verus!
