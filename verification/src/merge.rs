//! Combining two independently formed cluster collections.  Each cluster of
//! the first collection absorbs, in order, every not-yet-absorbed cluster of
//! the second whose representative is similar to its own; the second
//! collection's leftover clusters are appended unchanged.

use vstd::prelude::*;

use crate::fraction::Fraction;
use crate::model::{clusters_nonempty, coll_view, strs_view};
use crate::similarity::{is_similar, is_similar_spec};

verus! {

/// The test a cluster of the second collection must pass to be absorbed by
/// the cluster represented by `rep`.
pub open spec fn cluster_similar_to(rep: Seq<char>, f: Fraction) -> spec_fn(
    Seq<Seq<char>>,
) -> bool {
    |c: Seq<Seq<char>>| is_similar_spec(rep, c[0], f)
}

/// The complement of `cluster_similar_to`: clusters left for later
/// absorbers or for the tail of the result.
pub open spec fn cluster_not_similar_to(rep: Seq<char>, f: Fraction) -> spec_fn(
    Seq<Seq<char>>,
) -> bool {
    |c: Seq<Seq<char>>| !is_similar_spec(rep, c[0], f)
}

/// The merge of two collections: the clusters of `one` in order, each
/// extended with the members of every remaining cluster of `two` whose
/// representative is similar to its own, followed by the clusters of `two`
/// no cluster of `one` absorbed, in their order.
pub open spec fn merge_spec(
    one: Seq<Seq<Seq<char>>>,
    two: Seq<Seq<Seq<char>>>,
    f: Fraction,
) -> Seq<Seq<Seq<char>>>
    decreases one.len(),
{
    if one.len() == 0 {
        two
    } else {
        let rep = one[0][0];
        let absorbed = two.filter(cluster_similar_to(rep, f));
        let kept = two.filter(cluster_not_similar_to(rep, f));
        seq![one[0] + absorbed.flatten()] + merge_spec(one.drop_first(), kept, f)
    }
}

/// A merge of well-formed collections is well formed, keeps at least as many
/// clusters as `one`, and is nonempty whenever either input is.
pub proof fn lemma_merge_spec_wf(one: Seq<Seq<Seq<char>>>, two: Seq<Seq<Seq<char>>>, f: Fraction)
    requires
        clusters_nonempty(one),
        clusters_nonempty(two),
    ensures
        clusters_nonempty(merge_spec(one, two, f)),
        merge_spec(one, two, f).len() >= one.len(),
        merge_spec(one, two, f).len() <= one.len() + two.len(),
        one.len() > 0 || two.len() > 0 ==> merge_spec(one, two, f).len() > 0,
    decreases one.len(),
{
    if one.len() != 0 {
        let rep = one[0][0];
        let kept = two.filter(cluster_not_similar_to(rep, f));
        two.lemma_filter_len(cluster_not_similar_to(rep, f));
        assert forall|i: int| 0 <= i < kept.len() implies #[trigger] kept[i].len() > 0 by {
            // every filtered element is an element of `two`
            lemma_filter_elements_contained(two, cluster_not_similar_to(rep, f), i);
            let w = choose|w: int| 0 <= w < two.len() && two[w] == kept[i];
            assert(two[w].len() > 0);
        }
        lemma_merge_spec_wf(one.drop_first(), kept, f);
    }
}

/// Each element of a filtered sequence occurs in the original sequence.
pub proof fn lemma_filter_elements_contained<A>(s: Seq<A>, p: spec_fn(A) -> bool, i: int)
    requires
        0 <= i < s.filter(p).len(),
    ensures
        s.contains(s.filter(p)[i]),
    decreases s.len(),
{
    reveal(Seq::filter);
    if s.len() > 0 {
        let s0 = s.drop_last();
        if p(s.last()) && i == s.filter(p).len() - 1 {
            assert(s[s.len() - 1] == s.filter(p)[i]);
        } else {
            lemma_filter_elements_contained(s0, p, i);
            let w = choose|w: int| 0 <= w < s0.len() && s0[w] == s0.filter(p)[i];
            assert(s[w] == s.filter(p)[i]);
        }
    }
}

/// Splitting a sequence of clusters by a predicate and its complement
/// preserves the multiset of all their members.
proof fn lemma_filter_complement_flatten_multiset(
    s: Seq<Seq<Seq<char>>>,
    p: spec_fn(Seq<Seq<char>>) -> bool,
    q: spec_fn(Seq<Seq<char>>) -> bool,
)
    requires
        forall|x: Seq<Seq<char>>| #[trigger] q(x) == !p(x),
    ensures
        s.filter(p).flatten().to_multiset().add(s.filter(q).flatten().to_multiset())
            =~= s.flatten().to_multiset(),
    decreases s.len(),
{
    reveal(Seq::filter);
    broadcast use vstd::multiset::group_multiset_axioms;
    broadcast use vstd::seq_lib::group_to_multiset_ensures;

    if s.len() == 0 {
        assert(s.flatten() =~= Seq::<Seq<char>>::empty());
    } else {
        let s0 = s.drop_last();
        let x = s.last();
        lemma_filter_complement_flatten_multiset(s0, p, q);
        assert(s0.push(x) =~= s);
        s0.lemma_flatten_push(x);
        assert(s.flatten() == s0.flatten() + x);
        vstd::seq_lib::lemma_multiset_commutative(s0.flatten(), x);
        assert(s.flatten().to_multiset() =~= s0.flatten().to_multiset().add(x.to_multiset()));
        if p(x) {
            assert(s.filter(p) =~= s0.filter(p).push(x));
            assert(s.filter(q) =~= s0.filter(q));
            s0.filter(p).lemma_flatten_push(x);
            assert(s.filter(p).flatten() == s0.filter(p).flatten() + x);
            vstd::seq_lib::lemma_multiset_commutative(s0.filter(p).flatten(), x);
            assert(s.filter(p).flatten().to_multiset() =~= s0.filter(p).flatten().to_multiset().add(
                x.to_multiset(),
            ));
        } else {
            assert(s.filter(p) =~= s0.filter(p));
            assert(s.filter(q) =~= s0.filter(q).push(x));
            s0.filter(q).lemma_flatten_push(x);
            assert(s.filter(q).flatten() == s0.filter(q).flatten() + x);
            vstd::seq_lib::lemma_multiset_commutative(s0.filter(q).flatten(), x);
            assert(s.filter(q).flatten().to_multiset() =~= s0.filter(q).flatten().to_multiset().add(
                x.to_multiset(),
            ));
        }
    }
}

/// Merging neither loses nor duplicates members: the members of the merged
/// collection are exactly the members of the two inputs together.
pub proof fn lemma_merge_spec_multiset(
    one: Seq<Seq<Seq<char>>>,
    two: Seq<Seq<Seq<char>>>,
    f: Fraction,
)
    ensures
        merge_spec(one, two, f).flatten().to_multiset() =~= one.flatten().to_multiset().add(
            two.flatten().to_multiset(),
        ),
    decreases one.len(),
{
    broadcast use vstd::multiset::group_multiset_axioms;
    broadcast use vstd::seq_lib::group_to_multiset_ensures;

    if one.len() == 0 {
        assert(one.flatten() =~= Seq::<Seq<char>>::empty());
    } else {
        let rep = one[0][0];
        let absorbed = two.filter(cluster_similar_to(rep, f));
        let kept = two.filter(cluster_not_similar_to(rep, f));
        let first_cluster = one[0] + absorbed.flatten();
        let rest_merge = merge_spec(one.drop_first(), kept, f);

        lemma_merge_spec_multiset(one.drop_first(), kept, f);
        lemma_filter_complement_flatten_multiset(
            two,
            cluster_similar_to(rep, f),
            cluster_not_similar_to(rep, f),
        );

        assert(merge_spec(one, two, f).flatten() =~= first_cluster + rest_merge.flatten()) by {
            vstd::seq_lib::lemma_flatten_concat(seq![first_cluster], rest_merge);
            seq![first_cluster].lemma_flatten_one_element();
        }
        vstd::seq_lib::lemma_multiset_commutative(first_cluster, rest_merge.flatten());
        vstd::seq_lib::lemma_multiset_commutative(one[0], absorbed.flatten());
        assert(one.flatten() == one[0] + one.drop_first().flatten());
        vstd::seq_lib::lemma_multiset_commutative(one[0], one.drop_first().flatten());
    }
}

/// A fresh vector holding the same string slices.
pub(crate) fn copy_strs<'a>(v: &Vec<&'a str>) -> (r: Vec<&'a str>)
    ensures
        r@ == v@,
{
    let mut r: Vec<&'a str> = Vec::new();
    let mut i: usize = 0;
    while i < v.len()
        invariant
            i <= v@.len(),
            r@ == v@.subrange(0, i as int),
        decreases v@.len() - i,
    {
        r.push(v[i]);
        proof {
            assert(v@.subrange(0, i as int + 1) =~= v@.subrange(0, i as int).push(v@[i as int]));
        }
        i += 1;
    }
    proof {
        assert(v@.subrange(0, v@.len() as int) =~= v@);
    }
    r
}

/// Merge two independently formed collections into one.
///
/// Every cluster of `set_one`, in order, absorbs the members of each
/// remaining cluster of `set_two` whose representative is similar to its
/// own; `set_two`'s clusters that no cluster of `set_one` absorbed follow at
/// the end unchanged.
pub fn merge_clusters<'a>(
    set_one: Vec<Vec<&'a str>>,
    set_two: Vec<Vec<&'a str>>,
    f: Fraction,
) -> (r: Vec<Vec<&'a str>>)
    requires
        f.is_valid(),
        clusters_nonempty(coll_view(set_one@)),
        clusters_nonempty(coll_view(set_two@)),
    ensures
        coll_view(r@) == merge_spec(coll_view(set_one@), coll_view(set_two@), f),
        clusters_nonempty(coll_view(r@)),
{
    let ghost one0 = coll_view(set_one@);
    let ghost two0 = coll_view(set_two@);
    let mut result: Vec<Vec<&'a str>> = Vec::new();
    let mut two_left = set_two;
    let mut i: usize = 0;
    proof {
        assert(one0.skip(0) =~= one0);
    }
    while i < set_one.len()
        invariant
            f.is_valid(),
            i <= set_one@.len(),
            coll_view(set_one@) == one0,
            clusters_nonempty(one0),
            clusters_nonempty(coll_view(two_left@)),
            clusters_nonempty(coll_view(result@)),
            coll_view(result@) + merge_spec(one0.skip(i as int), coll_view(two_left@), f)
                == merge_spec(one0, two0, f),
        decreases set_one@.len() - i,
    {
        proof {
            assert(one0[i as int].len() > 0);
            assert(one0[i as int] == strs_view(set_one@[i as int]@));
        }
        let rep: &'a str = set_one[i][0];
        let mut merged: Vec<&'a str> = copy_strs(&set_one[i]);
        let mut kept: Vec<Vec<&'a str>> = Vec::new();
        let ghost tl = coll_view(two_left@);
        let mut j: usize = 0;
        proof {
            reveal(Seq::filter);
            assert(tl.subrange(0, 0) =~= Seq::<Seq<Seq<char>>>::empty());
            assert(strs_view(merged@) =~= one0[i as int] + tl.subrange(0, 0).filter(
                cluster_similar_to(rep@, f),
            ).flatten());
            assert(coll_view(kept@) =~= tl.subrange(0, 0).filter(cluster_not_similar_to(rep@, f)));
        }
        while j < two_left.len()
            invariant
                f.is_valid(),
                j <= two_left@.len(),
                coll_view(two_left@) == tl,
                clusters_nonempty(tl),
                rep@ == one0[i as int][0],
                strs_view(merged@) == one0[i as int] + tl.subrange(0, j as int).filter(
                    cluster_similar_to(rep@, f),
                ).flatten(),
                coll_view(kept@) == tl.subrange(0, j as int).filter(
                    cluster_not_similar_to(rep@, f),
                ),
                clusters_nonempty(coll_view(kept@)),
                one0[i as int].len() > 0,
            decreases two_left@.len() - j,
        {
            let ghost seen = tl.subrange(0, j as int);
            proof {
                assert(tl[j as int].len() > 0);
                assert(tl[j as int] == strs_view(two_left@[j as int]@));
                assert(tl.subrange(0, j as int + 1) =~= seen.push(tl[j as int]));
                seen.lemma_filter_push(tl[j as int], cluster_similar_to(rep@, f));
                seen.lemma_filter_push(tl[j as int], cluster_not_similar_to(rep@, f));
            }
            let cand_rep: &'a str = two_left[j][0];
            if is_similar(rep, cand_rep, f) {
                let ghost before = merged@;
                let mut k: usize = 0;
                while k < two_left[j].len()
                    invariant
                        j < two_left@.len(),
                        k <= two_left@[j as int]@.len(),
                        merged@ == before + two_left@[j as int]@.subrange(0, k as int),
                    decreases two_left@[j as int]@.len() - k,
                {
                    let s: &'a str = two_left[j][k];
                    merged.push(s);
                    proof {
                        assert(two_left@[j as int]@.subrange(0, k as int + 1) =~= two_left@[
                            j as int
                        ]@.subrange(0, k as int).push(two_left@[j as int]@[k as int]));
                    }
                    k += 1;
                }
                proof {
                    assert(two_left@[j as int]@.subrange(
                        0,
                        two_left@[j as int]@.len() as int,
                    ) =~= two_left@[j as int]@);
                    assert(strs_view(merged@) =~= strs_view(before) + tl[j as int]);
                    broadcast use Seq::lemma_flatten_push;

                    assert(strs_view(merged@) =~= one0[i as int] + tl.subrange(
                        0,
                        j as int + 1,
                    ).filter(cluster_similar_to(rep@, f)).flatten());
                }
            } else {
                let c = copy_strs(&two_left[j]);
                kept.push(c);
                proof {
                    assert(coll_view(kept@) =~= tl.subrange(0, j as int + 1).filter(
                        cluster_not_similar_to(rep@, f),
                    ));
                }
            }
            j += 1;
        }
        let ghost old_result = result@;
        result.push(merged);
        two_left = kept;
        i += 1;
        proof {
            let prev_one = one0.skip(i - 1);
            assert(tl.subrange(0, tl.len() as int) =~= tl);
            assert(prev_one[0] == one0[i - 1]);
            assert(prev_one.drop_first() =~= one0.skip(i as int));
            assert(merge_spec(prev_one, tl, f) == seq![
                one0[i - 1] + tl.filter(cluster_similar_to(rep@, f)).flatten(),
            ] + merge_spec(one0.skip(i as int), coll_view(two_left@), f));
            assert(coll_view(result@) =~= coll_view(old_result).push(strs_view(merged@)));
            assert(coll_view(old_result).push(strs_view(merged@)) + merge_spec(
                one0.skip(i as int),
                coll_view(two_left@),
                f,
            ) =~= coll_view(old_result) + merge_spec(prev_one, tl, f));
            assert(strs_view(merged@).len() > 0);
        }
    }
    proof {
        assert(one0.skip(set_one@.len() as int) =~= Seq::<Seq<Seq<char>>>::empty());
    }
    let ghost tail_result = result@;
    let mut rest = two_left;
    let ghost left = rest@;
    result.append(&mut rest);
    proof {
        assert(coll_view(result@) =~= coll_view(tail_result) + coll_view(left));
        assert forall|x: int| 0 <= x < coll_view(result@).len() implies #[trigger] coll_view(
            result@,
        )[x].len() > 0 by {
            if x < tail_result.len() {
                assert(coll_view(tail_result)[x].len() > 0);
            } else {
                assert(coll_view(left)[x - tail_result.len()].len() > 0);
            }
        }
    }
    result
}

} // verus!
