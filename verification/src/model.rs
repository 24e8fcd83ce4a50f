//! Spec-level views of the executable data — strings as character sequences,
//! clusters as sequences of those, collections as sequences of clusters —
//! together with the well-formedness predicates the contracts share.

use vstd::prelude::*;

verus! {

/// The character sequences of a sequence of strings.
pub open spec fn strs_view(ss: Seq<&str>) -> Seq<Seq<char>> {
    ss.map_values(|s: &str| s@)
}

/// The view of one cluster collection.
pub open spec fn coll_view(cs: Seq<Vec<&str>>) -> Seq<Seq<Seq<char>>> {
    cs.map_values(|c: Vec<&str>| strs_view(c@))
}

/// The view of a list of collections, one per input slice.
pub open spec fn colls_view(rs: Seq<Vec<Vec<&str>>>) -> Seq<Seq<Seq<Seq<char>>>> {
    rs.map_values(|r: Vec<Vec<&str>>| coll_view(r@))
}

/// Every cluster of the collection has at least one member, its
/// representative.
pub open spec fn clusters_nonempty(cs: Seq<Seq<Seq<char>>>) -> bool {
    forall|i: int| 0 <= i < cs.len() ==> #[trigger] cs[i].len() > 0
}

/// Every member of every cluster equals that cluster's first member, its
/// representative.
pub open spec fn clusters_uniform(cs: Seq<Seq<Seq<char>>>) -> bool {
    forall|i: int, k: int|
        0 <= i < cs.len() && 0 <= k < cs[i].len() ==> #[trigger] cs[i][k] == cs[i][0]
}

/// Every collection in the list consists of nonempty clusters.
pub open spec fn colls_nonempty(rs: Seq<Seq<Seq<Seq<char>>>>) -> bool {
    forall|i: int| 0 <= i < rs.len() ==> clusters_nonempty(#[trigger] rs[i])
}

/// The representatives — the clusters' first members — are pairwise
/// distinct.
pub open spec fn reps_distinct(cs: Seq<Seq<Seq<char>>>) -> bool {
    forall|i: int, j: int|
        #![trigger cs[i], cs[j]]
        0 <= i < j < cs.len() ==> cs[i][0] != cs[j][0]
}

/// Every collection in the list has pairwise distinct representatives.
pub open spec fn colls_distinct(rs: Seq<Seq<Seq<Seq<char>>>>) -> bool {
    forall|i: int| 0 <= i < rs.len() ==> reps_distinct(#[trigger] rs[i])
}

/// Every collection in the list consists of uniform clusters.
pub open spec fn colls_uniform(rs: Seq<Seq<Seq<Seq<char>>>>) -> bool {
    forall|i: int| 0 <= i < rs.len() ==> clusters_uniform(#[trigger] rs[i])
}

/// Splitting a sequence by a predicate and its complement preserves the
/// multiset of elements.
pub proof fn lemma_filter_complement_multiset<A>(
    s: Seq<A>,
    p: spec_fn(A) -> bool,
    q: spec_fn(A) -> bool,
)
    requires
        forall|x: A| #[trigger] q(x) == !p(x),
    ensures
        s.filter(p).to_multiset().add(s.filter(q).to_multiset()) =~= s.to_multiset(),
    decreases s.len(),
{
    reveal(Seq::filter);
    broadcast use vstd::seq_lib::group_to_multiset_ensures;
    broadcast use vstd::multiset::group_multiset_axioms;

    if s.len() == 0 {
    } else {
        let s0 = s.drop_last();
        let x = s.last();
        lemma_filter_complement_multiset(s0, p, q);
        assert(s0.push(x) =~= s);
        if p(x) {
            assert(s.filter(p) =~= s0.filter(p).push(x));
            assert(s.filter(q) =~= s0.filter(q));
        } else {
            assert(s.filter(p) =~= s0.filter(p));
            assert(s.filter(q) =~= s0.filter(q).push(x));
        }
    }
}

} // verus!
