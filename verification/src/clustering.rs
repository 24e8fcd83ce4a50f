//! Grouping one slice of strings into clusters.  Each string joins the first
//! earlier cluster whose representative it is similar to; otherwise it starts
//! a cluster of its own.  Similarity is tested only against representatives,
//! a deliberate approximation that keeps each pass linear in the number of
//! clusters rather than of members.

use vstd::prelude::*;

use crate::fraction::Fraction;
use crate::model::{clusters_nonempty, coll_view, lemma_filter_complement_multiset, strs_view};
use crate::similarity::{is_similar, is_similar_spec};

verus! {

/// The test a candidate must pass to join the cluster represented by `rep`.
pub open spec fn similar_to(rep: Seq<char>, f: Fraction) -> spec_fn(Seq<char>) -> bool {
    |s: Seq<char>| is_similar_spec(rep, s, f)
}

/// The complement of `similar_to`: candidates left for later clusters.
pub open spec fn not_similar_to(rep: Seq<char>, f: Fraction) -> spec_fn(Seq<char>) -> bool {
    |s: Seq<char>| !is_similar_spec(rep, s, f)
}

/// The clusters formed from `items` in order: the first item is a
/// representative and collects every later item similar to it, in input
/// order; the items not collected are clustered in turn.
pub open spec fn cluster_spec(items: Seq<Seq<char>>, f: Fraction) -> Seq<Seq<Seq<char>>>
    decreases items.len(),
    via cluster_spec_decreases
{
    if items.len() == 0 {
        Seq::empty()
    } else {
        let rep = items[0];
        let members = items.drop_first().filter(similar_to(rep, f));
        let rest = items.drop_first().filter(not_similar_to(rep, f));
        seq![seq![rep] + members] + cluster_spec(rest, f)
    }
}

#[via_fn]
proof fn cluster_spec_decreases(items: Seq<Seq<char>>, f: Fraction) {
    if items.len() != 0 {
        items.drop_first().lemma_filter_len(not_similar_to(items[0], f));
    }
}

/// Every cluster formed is nonempty, and a nonempty input forms at least one
/// cluster.
pub proof fn lemma_cluster_spec_wf(items: Seq<Seq<char>>, f: Fraction)
    ensures
        clusters_nonempty(cluster_spec(items, f)),
        items.len() > 0 ==> cluster_spec(items, f).len() > 0,
    decreases items.len(),
{
    if items.len() != 0 {
        let rep = items[0];
        let rest = items.drop_first().filter(not_similar_to(rep, f));
        items.drop_first().lemma_filter_len(not_similar_to(rep, f));
        lemma_cluster_spec_wf(rest, f);
    }
}

/// Clustering neither loses nor duplicates items: the members of all formed
/// clusters are exactly the input items.
pub proof fn lemma_cluster_spec_multiset(items: Seq<Seq<char>>, f: Fraction)
    ensures
        cluster_spec(items, f).flatten().to_multiset() =~= items.to_multiset(),
    decreases items.len(),
{
    broadcast use vstd::multiset::group_multiset_axioms;

    if items.len() == 0 {
        assert(cluster_spec(items, f).flatten() =~= Seq::<Seq<char>>::empty());
        assert(items =~= Seq::<Seq<char>>::empty());
    } else {
        let rep = items[0];
        let tail = items.drop_first();
        let members = tail.filter(similar_to(rep, f));
        let rest = tail.filter(not_similar_to(rep, f));
        let first_cluster = seq![rep] + members;
        let rest_clusters = cluster_spec(rest, f);

        tail.lemma_filter_len(not_similar_to(rep, f));
        lemma_cluster_spec_multiset(rest, f);
        lemma_filter_complement_multiset(tail, similar_to(rep, f), not_similar_to(rep, f));

        assert(cluster_spec(items, f).flatten() =~= first_cluster + rest_clusters.flatten()) by {
            vstd::seq_lib::lemma_flatten_concat(seq![first_cluster], rest_clusters);
            assert(seq![first_cluster].flatten() =~= first_cluster) by {
                seq![first_cluster].lemma_flatten_one_element();
            }
        }
        vstd::seq_lib::lemma_multiset_commutative(first_cluster, rest_clusters.flatten());
        vstd::seq_lib::lemma_multiset_commutative(seq![rep], members);
        assert(items =~= seq![rep] + tail);
        vstd::seq_lib::lemma_multiset_commutative(seq![rep], tail);
    }
}

/// One singleton cluster per input string, in input order.
pub fn init_container<'a>(inputs: &[&'a str]) -> (r: Vec<Vec<&'a str>>)
    requires
        inputs@.len() > 0,
    ensures
        r@.len() == inputs@.len(),
        forall|i: int| 0 <= i < r@.len() ==> #[trigger] r@[i]@ == seq![inputs@[i]],
{
    let mut container: Vec<Vec<&'a str>> = Vec::new();
    let mut i: usize = 0;
    while i < inputs.len()
        invariant
            i <= inputs@.len(),
            container@.len() == i,
            forall|k: int| 0 <= k < i ==> #[trigger] container@[k]@ == seq![inputs@[k]],
        decreases inputs@.len() - i,
    {
        let mut c: Vec<&'a str> = Vec::new();
        c.push(inputs[i]);
        proof {
            assert(c@ =~= seq![inputs@[i as int]]);
        }
        container.push(c);
        i += 1;
    }
    container
}

/// Group the strings of one slice into clusters under the tolerance `f`.
///
/// Each string joins the first earlier representative it is similar to;
/// otherwise it opens a new cluster with itself as representative.
pub fn cluster<'a>(inputs: &[&'a str], f: Fraction) -> (r: Vec<Vec<&'a str>>)
    requires
        f.is_valid(),
        inputs@.len() > 0,
    ensures
        coll_view(r@) == cluster_spec(strs_view(inputs@), f),
        r@.len() > 0,
        clusters_nonempty(coll_view(r@)),
{
    let mut result: Vec<Vec<&'a str>> = Vec::new();
    let mut remaining: Vec<&'a str> = vstd::slice::slice_to_vec(inputs);
    proof {
        assert(coll_view(result@) + cluster_spec(strs_view(remaining@), f) =~= cluster_spec(
            strs_view(inputs@),
            f,
        ));
    }
    while remaining.len() > 0
        invariant
            f.is_valid(),
            coll_view(result@) + cluster_spec(strs_view(remaining@), f) == cluster_spec(
                strs_view(inputs@),
                f,
            ),
        decreases remaining@.len(),
    {
        let ghost prev = remaining@;
        let rep: &'a str = remaining[0];
        let mut grp: Vec<&'a str> = Vec::new();
        grp.push(rep);
        let mut rest: Vec<&'a str> = Vec::new();
        let mut j: usize = 1;
        proof {
            assert(strs_view(grp@) =~= seq![rep@] + strs_view(prev.subrange(1, 1)).filter(
                similar_to(rep@, f),
            )) by {
                assert(prev.subrange(1, 1) =~= Seq::<&str>::empty());
                assert(strs_view(Seq::<&str>::empty()) =~= Seq::<Seq<char>>::empty());
                reveal(Seq::filter);
            }
            assert(strs_view(rest@) =~= strs_view(prev.subrange(1, 1)).filter(
                not_similar_to(rep@, f),
            )) by {
                assert(prev.subrange(1, 1) =~= Seq::<&str>::empty());
                assert(strs_view(Seq::<&str>::empty()) =~= Seq::<Seq<char>>::empty());
                reveal(Seq::filter);
            }
        }
        while j < remaining.len()
            invariant
                f.is_valid(),
                remaining@ == prev,
                prev.len() > 0,
                1 <= j <= prev.len(),
                rep == prev[0],
                strs_view(grp@) == seq![rep@] + strs_view(prev.subrange(1, j as int)).filter(
                    similar_to(rep@, f),
                ),
                strs_view(rest@) == strs_view(prev.subrange(1, j as int)).filter(
                    not_similar_to(rep@, f),
                ),
            decreases prev.len() - j,
        {
            let ghost seen = strs_view(prev.subrange(1, j as int));
            let cand = remaining[j];
            if is_similar(rep, cand, f) {
                grp.push(cand);
            } else {
                rest.push(cand);
            }
            proof {
                assert(prev.subrange(1, j as int + 1) =~= prev.subrange(1, j as int).push(
                    prev[j as int],
                ));
                assert(strs_view(prev.subrange(1, j as int + 1)) =~= seen.push(cand@));
                seen.lemma_filter_push(cand@, similar_to(rep@, f));
                seen.lemma_filter_push(cand@, not_similar_to(rep@, f));
                if is_similar_spec(rep@, cand@, f) {
                    assert(strs_view(grp@) =~= (seq![rep@] + seen.filter(similar_to(rep@, f))).push(
                        cand@,
                    ));
                    assert((seq![rep@] + seen.filter(similar_to(rep@, f))).push(cand@) =~= seq![
                        rep@,
                    ] + seen.filter(similar_to(rep@, f)).push(cand@));
                } else {
                    assert(strs_view(grp@) =~= seq![rep@] + seen.filter(similar_to(rep@, f)));
                    assert(strs_view(rest@) =~= seen.filter(not_similar_to(rep@, f)).push(cand@));
                }
            }
            j += 1;
        }
        proof {
            assert(prev.subrange(1, prev.len() as int) =~= prev.drop_first());
            assert(strs_view(prev.drop_first()) =~= strs_view(prev).drop_first());
            assert(strs_view(prev)[0] == rep@);
            assert(strs_view(prev).len() > 0);
        }
        let ghost old_result = result@;
        result.push(grp);
        remaining = rest;
        proof {
            let items = strs_view(prev);
            let members = items.drop_first().filter(similar_to(rep@, f));
            let restv = items.drop_first().filter(not_similar_to(rep@, f));
            assert(cluster_spec(items, f) == seq![seq![rep@] + members] + cluster_spec(restv, f));
            assert(strs_view(grp@) == seq![rep@] + members);
            assert(strs_view(remaining@) == restv);
            assert(coll_view(result@) =~= coll_view(old_result).push(strs_view(grp@)));
            assert(coll_view(old_result).push(strs_view(grp@)) + cluster_spec(restv, f) =~= coll_view(
                old_result,
            ) + (seq![seq![rep@] + members] + cluster_spec(restv, f)));
            items.drop_first().lemma_filter_len(not_similar_to(rep@, f));
            assert(remaining@.len() < prev.len());
        }
    }
    proof {
        assert(strs_view(remaining@) =~= Seq::<Seq<char>>::empty());
        assert(cluster_spec(strs_view(remaining@), f) =~= Seq::<Seq<Seq<char>>>::empty());
        assert(coll_view(result@) + cluster_spec(strs_view(remaining@), f) =~= coll_view(result@));
        lemma_cluster_spec_wf(strs_view(inputs@), f);
        assert(strs_view(inputs@).len() > 0);
    }
    result
}

} // verus!
