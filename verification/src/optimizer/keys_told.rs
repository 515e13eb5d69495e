//! Predicates that are left once those with keys that came before are gone.

use vstd::prelude::*;

use crate::optimizer::duplicates;
use crate::optimizer::equivalence;
use crate::query::PredicateView;

verus! {

/// What is left of predicates is some of them.
pub proof fn lemma_distinct_among(ps: Seq<PredicateView>)
    ensures
        forall|i: int|
            0 <= i < duplicates::distinct_predicates(ps).len() ==> ps.contains(
                #[trigger] duplicates::distinct_predicates(ps)[i],
            ),
    decreases ps.len(),
{
    if ps.len() > 0 {
        let front = ps.drop_last();
        lemma_distinct_among(front);
        let before = duplicates::distinct_predicates(front);
        let all = duplicates::distinct_predicates(ps);
        assert(ps[ps.len() - 1] == ps.last());
        assert forall|i: int| 0 <= i < all.len() implies ps.contains(#[trigger] all[i]) by {
            if i < before.len() {
                assert(front.contains(before[i]));
                let k = choose|k: int| 0 <= k < front.len() && front[k] == before[i];
                assert(ps[k] == all[i]);
            }
        }
    }
}

/// Of every predicate one that is alike is left where keys tell them apart.
pub proof fn lemma_distinct_alike(ps: Seq<PredicateView>, g: Set<PredicateView>)
    requires
        equivalence::among(ps, g),
        equivalence::keys_tell(g),
    ensures
        forall|i: int|
            0 <= i < ps.len() ==> duplicates::has_alike(
                duplicates::distinct_predicates(ps),
                #[trigger] ps[i],
            ),
    decreases ps.len(),
{
    if ps.len() > 0 {
        let front = ps.drop_last();
        let p = ps.last();
        assert forall|i: int| 0 <= i < front.len() implies g.contains(#[trigger] front[i]) by {
            assert(front[i] == ps[i]);
        }
        lemma_distinct_alike(front, g);
        let before = duplicates::distinct_predicates(front);
        let all = duplicates::distinct_predicates(ps);
        let key = duplicates::key_of(p);
        assert(ps[ps.len() - 1] == p);
        assert forall|i: int| 0 <= i < ps.len() implies duplicates::has_alike(
            all,
            #[trigger] ps[i],
        ) by {
            if i < front.len() {
                assert(front[i] == ps[i]);
                assert(duplicates::has_alike(before, front[i]));
                let k = choose|k: int|
                    0 <= k < before.len() && duplicates::alike(#[trigger] before[k], front[i]);
                assert(all[k] == before[k]);
                assert(duplicates::alike(all[k], ps[i]));
            } else if duplicates::has_key(before, key) {
                let k = choose|k: int|
                    0 <= k < before.len() && duplicates::key_of(#[trigger] before[k]) == key;
                assert(g.contains(before[k])) by {
                    lemma_distinct_among(front);
                    assert(front.contains(before[k]));
                    let m = choose|m: int| 0 <= m < front.len() && front[m] == before[k];
                    assert(g.contains(front[m]));
                }
                reveal(equivalence::keys_tell);
                assert(g.contains(p));
                assert(duplicates::alike(all[k], p));
            } else {
                duplicates::lemma_alike_self(p);
                assert(duplicates::alike(all[before.len() as int], p));
            }
        }
    }
}

} // verus!
