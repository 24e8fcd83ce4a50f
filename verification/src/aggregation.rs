//! Reducing the per-slice collections to one: adjacent pairs of collections
//! are merged round after round, as in walking a binary tree from the leaves
//! to the root, until a single collection remains.

use vstd::prelude::*;

use crate::fraction::Fraction;
use crate::merge::{
    copy_strs, lemma_merge_spec_multiset, lemma_merge_spec_wf, merge_clusters, merge_spec,
};
use crate::model::{clusters_nonempty, coll_view, colls_nonempty, colls_view};

verus! {

/// One reduction round: collections are taken two at a time by position and
/// merged; an unpaired final collection passes through unchanged.
pub open spec fn merge_round(colls: Seq<Seq<Seq<Seq<char>>>>, f: Fraction) -> Seq<
    Seq<Seq<Seq<char>>>,
>
    decreases colls.len(),
{
    if colls.len() <= 1 {
        colls
    } else {
        seq![merge_spec(colls[0], colls[1], f)] + merge_round(colls.skip(2), f)
    }
}

/// A round on two or more collections strictly shrinks the list, and a round
/// never empties a nonempty list.
pub proof fn lemma_merge_round_len(colls: Seq<Seq<Seq<Seq<char>>>>, f: Fraction)
    ensures
        colls.len() >= 2 ==> merge_round(colls, f).len() < colls.len(),
        colls.len() >= 1 ==> merge_round(colls, f).len() >= 1,
        colls.len() <= 1 ==> merge_round(colls, f) == colls,
    decreases colls.len(),
{
    if colls.len() >= 2 {
        lemma_merge_round_len(colls.skip(2), f);
    }
}

/// A round of merges keeps every cluster nonempty.
pub proof fn lemma_merge_round_wf(colls: Seq<Seq<Seq<Seq<char>>>>, f: Fraction)
    requires
        colls_nonempty(colls),
    ensures
        colls_nonempty(merge_round(colls, f)),
    decreases colls.len(),
{
    if colls.len() >= 2 {
        lemma_merge_spec_wf(colls[0], colls[1], f);
        assert(colls_nonempty(colls.skip(2)));
        lemma_merge_round_wf(colls.skip(2), f);
        assert forall|i: int| 0 <= i < merge_round(colls, f).len() implies clusters_nonempty(
            #[trigger] merge_round(colls, f)[i],
        ) by {
            if i > 0 {
                assert(merge_round(colls, f)[i] == merge_round(colls.skip(2), f)[i - 1]);
            }
        }
    }
}

/// A round of merges neither loses nor duplicates members.
pub proof fn lemma_merge_round_multiset(colls: Seq<Seq<Seq<Seq<char>>>>, f: Fraction)
    ensures
        merge_round(colls, f).flatten().flatten().to_multiset() =~= colls.flatten().flatten()
            .to_multiset(),
    decreases colls.len(),
{
    broadcast use vstd::multiset::group_multiset_axioms;
    broadcast use vstd::seq_lib::group_to_multiset_ensures;

    if colls.len() >= 2 {
        let m = merge_spec(colls[0], colls[1], f);
        let rest = merge_round(colls.skip(2), f);
        lemma_merge_round_multiset(colls.skip(2), f);
        lemma_merge_spec_multiset(colls[0], colls[1], f);

        // the round's total, split into the first merged pair and the rest
        assert((seq![m] + rest).flatten() =~= m + rest.flatten()) by {
            vstd::seq_lib::lemma_flatten_concat(seq![m], rest);
            seq![m].lemma_flatten_one_element();
        }
        vstd::seq_lib::lemma_flatten_concat(m, rest.flatten());
        assert((m + rest.flatten()).flatten() =~= m.flatten() + rest.flatten().flatten());
        vstd::seq_lib::lemma_multiset_commutative(m.flatten(), rest.flatten().flatten());

        // the input's total, split the same way
        assert(colls.flatten() =~= colls[0] + (colls[1] + colls.skip(2).flatten())) by {
            assert(colls.drop_first().drop_first() =~= colls.skip(2));
            assert(colls.drop_first().flatten() == colls.drop_first().first() + colls.drop_first()
                .drop_first().flatten());
        }
        vstd::seq_lib::lemma_flatten_concat(colls[0], colls[1] + colls.skip(2).flatten());
        vstd::seq_lib::lemma_flatten_concat(colls[1], colls.skip(2).flatten());
        assert(colls.flatten().flatten() =~= colls[0].flatten() + (colls[1].flatten() + colls.skip(
            2,
        ).flatten().flatten()));
        vstd::seq_lib::lemma_multiset_commutative(
            colls[0].flatten(),
            colls[1].flatten() + colls.skip(2).flatten().flatten(),
        );
        vstd::seq_lib::lemma_multiset_commutative(
            colls[1].flatten(),
            colls.skip(2).flatten().flatten(),
        );
    }
}

/// The final collection: rounds of pairwise merges until one collection
/// remains.  An empty list aggregates to an empty collection.
pub open spec fn aggregate_spec(colls: Seq<Seq<Seq<Seq<char>>>>, f: Fraction) -> Seq<
    Seq<Seq<char>>,
>
    decreases colls.len(),
    via aggregate_spec_decreases
{
    if colls.len() == 0 {
        Seq::empty()
    } else if colls.len() == 1 {
        colls[0]
    } else {
        aggregate_spec(merge_round(colls, f), f)
    }
}

#[via_fn]
proof fn aggregate_spec_decreases(colls: Seq<Seq<Seq<Seq<char>>>>, f: Fraction) {
    if colls.len() >= 2 {
        lemma_merge_round_len(colls, f);
    }
}

/// Aggregation keeps every cluster nonempty.
pub proof fn lemma_aggregate_spec_wf(colls: Seq<Seq<Seq<Seq<char>>>>, f: Fraction)
    requires
        colls_nonempty(colls),
    ensures
        clusters_nonempty(aggregate_spec(colls, f)),
    decreases colls.len(),
{
    if colls.len() >= 2 {
        lemma_merge_round_len(colls, f);
        lemma_merge_round_wf(colls, f);
        lemma_aggregate_spec_wf(merge_round(colls, f), f);
    }
}

/// Aggregation neither loses nor duplicates members: the members of the
/// final collection are exactly the members of all the partial collections.
pub proof fn lemma_aggregate_spec_multiset(colls: Seq<Seq<Seq<Seq<char>>>>, f: Fraction)
    ensures
        aggregate_spec(colls, f).flatten().to_multiset() =~= colls.flatten().flatten()
            .to_multiset(),
    decreases colls.len(),
{
    broadcast use vstd::multiset::group_multiset_axioms;
    broadcast use vstd::seq_lib::group_to_multiset_ensures;

    if colls.len() == 0 {
        assert(aggregate_spec(colls, f).flatten() =~= Seq::<Seq<char>>::empty());
        assert(colls.flatten() =~= Seq::<Seq<Seq<char>>>::empty());
        assert(colls.flatten().flatten() =~= Seq::<Seq<char>>::empty());
    } else if colls.len() == 1 {
        assert(colls.flatten() =~= colls[0]) by {
            colls.lemma_flatten_one_element();
        }
    } else {
        lemma_merge_round_len(colls, f);
        lemma_merge_round_multiset(colls, f);
        lemma_aggregate_spec_multiset(merge_round(colls, f), f);
    }
}

/// A fresh collection holding the same clusters.
fn copy_coll<'a>(v: &Vec<Vec<&'a str>>) -> (r: Vec<Vec<&'a str>>)
    ensures
        coll_view(r@) == coll_view(v@),
{
    let mut r: Vec<Vec<&'a str>> = Vec::new();
    let mut i: usize = 0;
    while i < v.len()
        invariant
            i <= v@.len(),
            coll_view(r@) == coll_view(v@).take(i as int),
        decreases v@.len() - i,
    {
        let c = copy_strs(&v[i]);
        r.push(c);
        proof {
            assert(coll_view(r@) =~= coll_view(v@).take(i as int).push(coll_view(v@)[i as int]));
            assert(coll_view(v@).take(i as int + 1) =~= coll_view(v@).take(i as int).push(
                coll_view(v@)[i as int],
            ));
        }
        i += 1;
    }
    proof {
        assert(coll_view(v@).take(v@.len() as int) =~= coll_view(v@));
    }
    r
}

/// Reduce the per-slice collections to a single collection by merging them
/// in adjacent pairs, round after round, until one remains.
pub fn aggregate_results<'a>(
    results: Vec<Vec<Vec<&'a str>>>,
    max_edit_frac: Fraction,
) -> (r: Vec<Vec<&'a str>>)
    requires
        max_edit_frac.is_valid(),
        results@.len() > 0,
        colls_nonempty(colls_view(results@)),
    ensures
        coll_view(r@) == aggregate_spec(colls_view(results@), max_edit_frac),
        clusters_nonempty(coll_view(r@)),
{
    let ghost orig = colls_view(results@);
    let mut current = results;
    while current.len() > 1
        invariant
            max_edit_frac.is_valid(),
            current@.len() >= 1,
            colls_nonempty(colls_view(current@)),
            aggregate_spec(colls_view(current@), max_edit_frac) == aggregate_spec(
                orig,
                max_edit_frac,
            ),
        decreases current@.len(),
    {
        let ghost cur = colls_view(current@);
        let mut next: Vec<Vec<Vec<&'a str>>> = Vec::new();
        let mut j: usize = 0;
        proof {
            assert(cur.skip(0) =~= cur);
            assert(colls_view(next@) + merge_round(cur.skip(0), max_edit_frac) =~= merge_round(
                cur,
                max_edit_frac,
            ));
        }
        while j < current.len()
            invariant
                max_edit_frac.is_valid(),
                colls_view(current@) == cur,
                colls_nonempty(cur),
                j <= current@.len(),
                colls_view(next@) + merge_round(cur.skip(j as int), max_edit_frac) == merge_round(
                    cur,
                    max_edit_frac,
                ),
                colls_nonempty(colls_view(next@)),
            decreases current@.len() - j,
        {
            let ghost old_next = next@;
            if j + 1 == current.len() {
                let c = copy_coll(&current[j]);
                next.push(c);
                proof {
                    assert(cur.skip(j as int) =~= seq![cur[j as int]]);
                    assert(merge_round(cur.skip(j as int), max_edit_frac) == cur.skip(j as int));
                    assert(colls_view(next@) =~= colls_view(old_next).push(cur[j as int]));
                    assert(cur.skip(j as int + 1) =~= Seq::<Seq<Seq<Seq<char>>>>::empty());
                    assert(colls_view(old_next).push(cur[j as int]) + merge_round(
                        cur.skip(j as int + 1),
                        max_edit_frac,
                    ) =~= colls_view(old_next) + merge_round(cur.skip(j as int), max_edit_frac));
                }
                j += 1;
            } else {
                let a = copy_coll(&current[j]);
                let b = copy_coll(&current[j + 1]);
                proof {
                    assert(clusters_nonempty(cur[j as int]));
                    assert(clusters_nonempty(cur[j as int + 1]));
                }
                let m = merge_clusters(a, b, max_edit_frac);
                next.push(m);
                proof {
                    let pair = cur.skip(j as int);
                    assert(pair.len() >= 2);
                    assert(pair[0] == cur[j as int]);
                    assert(pair[1] == cur[j as int + 1]);
                    assert(pair.skip(2) =~= cur.skip(j as int + 2));
                    assert(merge_round(pair, max_edit_frac) == seq![
                        merge_spec(cur[j as int], cur[j as int + 1], max_edit_frac),
                    ] + merge_round(cur.skip(j as int + 2), max_edit_frac));
                    assert(colls_view(next@) =~= colls_view(old_next).push(coll_view(m@)));
                    assert(colls_view(old_next).push(coll_view(m@)) + merge_round(
                        cur.skip(j as int + 2),
                        max_edit_frac,
                    ) =~= colls_view(old_next) + merge_round(pair, max_edit_frac));
                }
                j += 2;
            }
            proof {
                assert forall|x: int| 0 <= x < colls_view(next@).len() implies clusters_nonempty(
                    #[trigger] colls_view(next@)[x],
                ) by {
                    if x < old_next.len() {
                        assert(clusters_nonempty(colls_view(old_next)[x]));
                    }
                }
            }
        }
        proof {
            assert(cur.skip(current@.len() as int) =~= Seq::<Seq<Seq<Seq<char>>>>::empty());
            assert(colls_view(next@) + merge_round(cur.skip(current@.len() as int), max_edit_frac)
                =~= colls_view(next@));
            lemma_merge_round_len(cur, max_edit_frac);
        }
        current = next;
    }
    let ghost last = colls_view(current@);
    let r = current.remove(0);
    proof {
        assert(coll_view(r@) == last[0]);
        assert(aggregate_spec(last, max_edit_frac) == last[0]);
        assert(clusters_nonempty(last[0]));
    }
    r
}

} // verus!
