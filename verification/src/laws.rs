//! Cross-component laws of the library, stated and proved over the
//! spec-level model: the final collection covers the input exactly; at zero
//! tolerance only exact matches are grouped, and the produced clusters are
//! then the same whatever worker count is chosen.

use vstd::prelude::*;

use crate::aggregation::{
    aggregate_spec, lemma_aggregate_spec_multiset, lemma_merge_round_len, lemma_merge_round_wf,
    merge_round,
};
use crate::cluster_strings_spec;
use crate::clustering::{cluster_spec, not_similar_to, similar_to};
use crate::formation::{form_spec, lemma_form_spec_multiset, lemma_form_spec_wf, slice_of};
use crate::fraction::Fraction;
use crate::merge::{
    cluster_not_similar_to, cluster_similar_to, lemma_filter_elements_contained, merge_spec,
};
use crate::model::{
    clusters_nonempty, clusters_uniform, colls_distinct, colls_nonempty, colls_uniform,
    reps_distinct,
};
use crate::similarity::{is_similar_spec, lemma_similar_at_zero_iff_eq};

verus! {

/// Law: coverage.  On valid arguments every input string lands in exactly
/// one cluster of the final collection — the members of all clusters,
/// counted with multiplicity, are exactly the inputs — whatever worker
/// count is chosen.
pub proof fn lemma_coverage(items: Seq<Seq<char>>, f: Fraction, n: nat)
    requires
        f.is_valid(),
        0 < n <= items.len(),
    ensures
        cluster_strings_spec(items, f, n).flatten().to_multiset() == items.to_multiset(),
{
    lemma_form_spec_multiset(items, f, n);
    lemma_aggregate_spec_multiset(form_spec(items, f, n), f);
}

/// At zero tolerance every cluster the single pass forms is uniform: each
/// member equals the representative.
proof fn lemma_cluster_spec_uniform_at_zero(items: Seq<Seq<char>>, f: Fraction)
    requires
        f.is_valid(),
        f.num == 0,
    ensures
        clusters_uniform(cluster_spec(items, f)),
    decreases items.len(),
{
    if items.len() != 0 {
        let rep = items[0];
        let members = items.drop_first().filter(similar_to(rep, f));
        let rest = items.drop_first().filter(not_similar_to(rep, f));
        items.drop_first().lemma_filter_len(not_similar_to(rep, f));
        lemma_cluster_spec_uniform_at_zero(rest, f);
        let first = seq![rep] + members;
        assert forall|k: int| 0 <= k < first.len() implies #[trigger] (first[k]) == first[0] by {
            if k > 0 {
                items.drop_first().lemma_filter_pred(similar_to(rep, f), k - 1);
                assert(is_similar_spec(rep, members[k - 1], f));
                lemma_similar_at_zero_iff_eq(rep, members[k - 1], f);
            }
        }
        let cs = cluster_spec(items, f);
        assert forall|i: int, k: int|
            0 <= i < cs.len() && 0 <= k < cs[i].len() implies #[trigger] cs[i][k] == cs[i][0] by {
            if i == 0 {
                assert(cs[0] == first);
            } else {
                assert(cs[i] == cluster_spec(rest, f)[i - 1]);
                assert(clusters_uniform(cluster_spec(rest, f)));
            }
        }
    }
}

/// When every member of every cluster in a list equals `rep`, so does every
/// element of the flattened list.
proof fn lemma_flatten_all_eq(s: Seq<Seq<Seq<char>>>, rep: Seq<char>)
    requires
        forall|i: int, k: int|
            0 <= i < s.len() && 0 <= k < s[i].len() ==> #[trigger] s[i][k] == rep,
    ensures
        forall|k: int| 0 <= k < s.flatten().len() ==> #[trigger] s.flatten()[k] == rep,
    decreases s.len(),
{
    if s.len() != 0 {
        assert(forall|i: int, k: int|
            0 <= i < s.drop_first().len() && 0 <= k < s.drop_first()[i].len()
                ==> #[trigger] s.drop_first()[i][k] == rep);
        lemma_flatten_all_eq(s.drop_first(), rep);
        assert(s.flatten() == s[0] + s.drop_first().flatten());
        assert forall|k: int| 0 <= k < s.flatten().len() implies #[trigger] s.flatten()[k]
            == rep by {
            if k < s[0].len() {
                assert(s.flatten()[k] == s[0][k]);
            } else {
                assert(s.flatten()[k] == s.drop_first().flatten()[k - s[0].len()]);
            }
        }
    }
}

/// At zero tolerance a merge of collections of uniform clusters yields
/// uniform clusters.
proof fn lemma_merge_spec_uniform_at_zero(
    one: Seq<Seq<Seq<char>>>,
    two: Seq<Seq<Seq<char>>>,
    f: Fraction,
)
    requires
        f.is_valid(),
        f.num == 0,
        clusters_nonempty(one),
        clusters_nonempty(two),
        clusters_uniform(one),
        clusters_uniform(two),
    ensures
        clusters_uniform(merge_spec(one, two, f)),
    decreases one.len(),
{
    if one.len() != 0 {
        let rep = one[0][0];
        let absorbed = two.filter(cluster_similar_to(rep, f));
        let kept = two.filter(cluster_not_similar_to(rep, f));

        assert forall|i: int, k: int|
            0 <= i < kept.len() && 0 <= k < kept[i].len() implies #[trigger] kept[i][k]
            == kept[i][0] && kept[i].len() > 0 by {
            lemma_filter_elements_contained(two, cluster_not_similar_to(rep, f), i);
            let w = choose|w: int| 0 <= w < two.len() && two[w] == kept[i];
            assert(two[w][k] == two[w][0]);
        }
        assert forall|i: int| 0 <= i < kept.len() implies #[trigger] kept[i].len() > 0 by {
            lemma_filter_elements_contained(two, cluster_not_similar_to(rep, f), i);
            let w = choose|w: int| 0 <= w < two.len() && two[w] == kept[i];
            assert(two[w].len() > 0);
        }
        assert(clusters_nonempty(one.drop_first()));
        assert(clusters_uniform(one.drop_first())) by {
            assert forall|i: int, k: int|
                0 <= i < one.drop_first().len() && 0 <= k < one.drop_first()[i].len()
                    implies #[trigger] one.drop_first()[i][k] == one.drop_first()[i][0] by {
                assert(one[i + 1][k] == one[i + 1][0]);
            }
        }
        lemma_merge_spec_uniform_at_zero(one.drop_first(), kept, f);

        // every member of every absorbed cluster equals the representative
        assert forall|i: int, k: int|
            0 <= i < absorbed.len() && 0 <= k < absorbed[i].len() implies #[trigger] (absorbed[i][k])
            == rep by {
            lemma_filter_elements_contained(two, cluster_similar_to(rep, f), i);
            let w = choose|w: int| 0 <= w < two.len() && two[w] == absorbed[i];
            assert(two[w][k] == two[w][0]);
            two.lemma_filter_pred(cluster_similar_to(rep, f), i);
            assert(is_similar_spec(rep, absorbed[i][0], f));
            lemma_similar_at_zero_iff_eq(rep, absorbed[i][0], f);
        }
        lemma_flatten_all_eq(absorbed, rep);

        let first = one[0] + absorbed.flatten();
        assert forall|k: int| 0 <= k < first.len() implies #[trigger] (first[k]) == first[0] by {
            assert(first[0] == one[0][0]);
            if k < one[0].len() {
                assert(first[k] == one[0][k]);
                assert(one[0][k] == one[0][0]);
            } else {
                assert(first[k] == absorbed.flatten()[k - one[0].len()]);
            }
        }

        let ms = merge_spec(one, two, f);
        assert forall|i: int, k: int|
            0 <= i < ms.len() && 0 <= k < ms[i].len() implies #[trigger] ms[i][k] == ms[i][0] by {
            if i == 0 {
                assert(ms[0] == first);
            } else {
                assert(ms[i] == merge_spec(one.drop_first(), kept, f)[i - 1]);
                assert(clusters_uniform(merge_spec(one.drop_first(), kept, f)));
            }
        }
    }
}

/// At zero tolerance a round of merges keeps every cluster uniform.
proof fn lemma_merge_round_uniform_at_zero(colls: Seq<Seq<Seq<Seq<char>>>>, f: Fraction)
    requires
        f.is_valid(),
        f.num == 0,
        colls_nonempty(colls),
        colls_uniform(colls),
    ensures
        colls_uniform(merge_round(colls, f)),
    decreases colls.len(),
{
    if colls.len() >= 2 {
        lemma_merge_spec_uniform_at_zero(colls[0], colls[1], f);
        assert(colls_nonempty(colls.skip(2)));
        assert(colls_uniform(colls.skip(2)));
        lemma_merge_round_uniform_at_zero(colls.skip(2), f);
        assert forall|i: int| 0 <= i < merge_round(colls, f).len() implies clusters_uniform(
            #[trigger] merge_round(colls, f)[i],
        ) by {
            if i > 0 {
                assert(merge_round(colls, f)[i] == merge_round(colls.skip(2), f)[i - 1]);
                assert(clusters_uniform(merge_round(colls.skip(2), f)[i - 1]));
            }
        }
    }
}

/// At zero tolerance aggregation keeps every cluster uniform.
proof fn lemma_aggregate_spec_uniform_at_zero(colls: Seq<Seq<Seq<Seq<char>>>>, f: Fraction)
    requires
        f.is_valid(),
        f.num == 0,
        colls_nonempty(colls),
        colls_uniform(colls),
    ensures
        clusters_uniform(aggregate_spec(colls, f)),
    decreases colls.len(),
{
    if colls.len() == 0 {
    } else if colls.len() == 1 {
        assert(clusters_uniform(colls[0]));
    } else {
        lemma_merge_round_len(colls, f);
        lemma_merge_round_wf(colls, f);
        lemma_merge_round_uniform_at_zero(colls, f);
        lemma_aggregate_spec_uniform_at_zero(merge_round(colls, f), f);
    }
}

/// A filtered collection keeps its representatives pairwise distinct.
proof fn lemma_filter_preserves_distinct_reps(
    s: Seq<Seq<Seq<char>>>,
    p: spec_fn(Seq<Seq<char>>) -> bool,
)
    requires
        reps_distinct(s),
    ensures
        reps_distinct(s.filter(p)),
    decreases s.len(),
{
    reveal(Seq::filter);
    if s.len() > 0 {
        let s0 = s.drop_last();
        assert(reps_distinct(s0));
        lemma_filter_preserves_distinct_reps(s0, p);
        if p(s.last()) {
            let fs = s.filter(p);
            assert forall|i: int, j: int|
                #![trigger fs[i], fs[j]]
                0 <= i < j < fs.len() implies fs[i][0] != fs[j][0] by {
                if j == fs.len() - 1 {
                    lemma_filter_elements_contained(s0, p, i);
                    let w = choose|w: int| 0 <= w < s0.len() && s0[w] == s0.filter(p)[i];
                    assert(s[w] == fs[i]);
                    assert(s[w][0] != s[s.len() - 1][0]);
                } else {
                    assert(s0.filter(p)[i][0] != s0.filter(p)[j][0]);
                }
            }
        }
    }
}

/// Every representative the single pass picks is one of the items.
proof fn lemma_cluster_spec_reps_in_items(items: Seq<Seq<char>>, f: Fraction)
    ensures
        forall|i: int|
            0 <= i < cluster_spec(items, f).len() ==> items.contains(
                #[trigger] cluster_spec(items, f)[i][0],
            ),
    decreases items.len(),
{
    if items.len() != 0 {
        let rep = items[0];
        let rest = items.drop_first().filter(not_similar_to(rep, f));
        items.drop_first().lemma_filter_len(not_similar_to(rep, f));
        lemma_cluster_spec_reps_in_items(rest, f);
        let cs = cluster_spec(items, f);
        let cs1 = cluster_spec(rest, f);
        assert forall|i: int| 0 <= i < cs.len() implies items.contains(#[trigger] cs[i][0]) by {
            if i == 0 {
                assert(cs[0][0] == items[0]);
            } else {
                assert(cs[i] == cs1[i - 1]);
                assert(rest.contains(cs1[i - 1][0]));
                let k = choose|k: int| 0 <= k < rest.len() && rest[k] == cs1[i - 1][0];
                lemma_filter_elements_contained(items.drop_first(), not_similar_to(rep, f), k);
                let w = choose|w: int|
                    0 <= w < items.drop_first().len() && items.drop_first()[w] == rest[k];
                assert(items[w + 1] == cs[i][0]);
            }
        }
    }
}

/// At zero tolerance the single pass picks pairwise distinct
/// representatives.
proof fn lemma_cluster_spec_distinct_at_zero(items: Seq<Seq<char>>, f: Fraction)
    requires
        f.is_valid(),
        f.num == 0,
    ensures
        reps_distinct(cluster_spec(items, f)),
    decreases items.len(),
{
    if items.len() != 0 {
        let rep = items[0];
        let rest = items.drop_first().filter(not_similar_to(rep, f));
        items.drop_first().lemma_filter_len(not_similar_to(rep, f));
        lemma_cluster_spec_distinct_at_zero(rest, f);
        lemma_cluster_spec_reps_in_items(rest, f);
        let cs = cluster_spec(items, f);
        let cs1 = cluster_spec(rest, f);
        assert forall|i: int, j: int|
            #![trigger cs[i], cs[j]]
            0 <= i < j < cs.len() implies cs[i][0] != cs[j][0] by {
            if i == 0 {
                assert(cs[0][0] == rep);
                assert(cs[j] == cs1[j - 1]);
                assert(rest.contains(cs1[j - 1][0]));
                let k = choose|k: int| 0 <= k < rest.len() && rest[k] == cs1[j - 1][0];
                items.drop_first().lemma_filter_pred(not_similar_to(rep, f), k);
                assert(!is_similar_spec(rep, rest[k], f));
                lemma_similar_at_zero_iff_eq(rep, rest[k], f);
            } else {
                assert(cs[i] == cs1[i - 1]);
                assert(cs[j] == cs1[j - 1]);
                assert(cs1[i - 1][0] != cs1[j - 1][0]);
            }
        }
    }
}

/// The shape of a merge: the first clusters keep `one`'s representatives in
/// order, and every later cluster is an untouched cluster of `two`.
proof fn lemma_merge_spec_shape(one: Seq<Seq<Seq<char>>>, two: Seq<Seq<Seq<char>>>, f: Fraction)
    requires
        clusters_nonempty(one),
    ensures
        merge_spec(one, two, f).len() >= one.len(),
        forall|i: int|
            0 <= i < one.len() ==> #[trigger] merge_spec(one, two, f)[i][0] == one[i][0],
        forall|i: int|
            one.len() <= i < merge_spec(one, two, f).len() ==> two.contains(
                #[trigger] merge_spec(one, two, f)[i],
            ),
    decreases one.len(),
{
    if one.len() != 0 {
        let rep = one[0][0];
        let kept = two.filter(cluster_not_similar_to(rep, f));
        assert(clusters_nonempty(one.drop_first()));
        lemma_merge_spec_shape(one.drop_first(), kept, f);
        let m = merge_spec(one, two, f);
        let m1 = merge_spec(one.drop_first(), kept, f);
        assert forall|i: int| 0 <= i < one.len() implies #[trigger] m[i][0] == one[i][0] by {
            if i > 0 {
                assert(m[i] == m1[i - 1]);
                assert(m1[i - 1][0] == one.drop_first()[i - 1][0]);
            }
        }
        assert forall|i: int| one.len() <= i < m.len() implies two.contains(#[trigger] m[i]) by {
            assert(m[i] == m1[i - 1]);
            assert(kept.contains(m1[i - 1]));
            let w = choose|w: int| 0 <= w < kept.len() && kept[w] == m1[i - 1];
            lemma_filter_elements_contained(two, cluster_not_similar_to(rep, f), w);
        }
    }
}

/// At zero tolerance a merge keeps the representatives pairwise distinct.
proof fn lemma_merge_spec_distinct_at_zero(
    one: Seq<Seq<Seq<char>>>,
    two: Seq<Seq<Seq<char>>>,
    f: Fraction,
)
    requires
        f.is_valid(),
        f.num == 0,
        clusters_nonempty(one),
        clusters_nonempty(two),
        reps_distinct(one),
        reps_distinct(two),
    ensures
        reps_distinct(merge_spec(one, two, f)),
    decreases one.len(),
{
    if one.len() != 0 {
        let rep = one[0][0];
        let kept = two.filter(cluster_not_similar_to(rep, f));
        assert forall|i: int| 0 <= i < kept.len() implies #[trigger] kept[i].len() > 0 by {
            lemma_filter_elements_contained(two, cluster_not_similar_to(rep, f), i);
            let w = choose|w: int| 0 <= w < two.len() && two[w] == kept[i];
            assert(two[w].len() > 0);
        }
        lemma_filter_preserves_distinct_reps(two, cluster_not_similar_to(rep, f));
        assert(clusters_nonempty(one.drop_first()));
        assert(reps_distinct(one.drop_first()));
        lemma_merge_spec_distinct_at_zero(one.drop_first(), kept, f);
        lemma_merge_spec_shape(one.drop_first(), kept, f);
        let m = merge_spec(one, two, f);
        let m1 = merge_spec(one.drop_first(), kept, f);
        assert forall|i: int, j: int|
            #![trigger m[i], m[j]]
            0 <= i < j < m.len() implies m[i][0] != m[j][0] by {
            if i == 0 {
                assert(m[0][0] == rep);
                assert(m[j] == m1[j - 1]);
                if j - 1 < one.drop_first().len() {
                    assert(m1[j - 1][0] == one.drop_first()[j - 1][0]);
                    assert(one[j][0] != one[0][0]);
                } else {
                    assert(kept.contains(m1[j - 1]));
                    let w = choose|w: int| 0 <= w < kept.len() && kept[w] == m1[j - 1];
                    two.lemma_filter_pred(cluster_not_similar_to(rep, f), w);
                    assert(!is_similar_spec(rep, kept[w][0], f));
                    lemma_similar_at_zero_iff_eq(rep, kept[w][0], f);
                }
            } else {
                assert(m[i] == m1[i - 1]);
                assert(m[j] == m1[j - 1]);
                assert(m1[i - 1][0] != m1[j - 1][0]);
            }
        }
    }
}

/// At zero tolerance a round of merges keeps the representatives of every
/// collection pairwise distinct.
proof fn lemma_merge_round_distinct_at_zero(colls: Seq<Seq<Seq<Seq<char>>>>, f: Fraction)
    requires
        f.is_valid(),
        f.num == 0,
        colls_nonempty(colls),
        colls_distinct(colls),
    ensures
        colls_distinct(merge_round(colls, f)),
    decreases colls.len(),
{
    if colls.len() >= 2 {
        lemma_merge_spec_distinct_at_zero(colls[0], colls[1], f);
        assert(colls_nonempty(colls.skip(2)));
        assert(colls_distinct(colls.skip(2)));
        lemma_merge_round_distinct_at_zero(colls.skip(2), f);
        assert forall|i: int| 0 <= i < merge_round(colls, f).len() implies reps_distinct(
            #[trigger] merge_round(colls, f)[i],
        ) by {
            if i > 0 {
                assert(merge_round(colls, f)[i] == merge_round(colls.skip(2), f)[i - 1]);
                assert(reps_distinct(merge_round(colls.skip(2), f)[i - 1]));
            }
        }
    }
}

/// At zero tolerance aggregation keeps the representatives pairwise
/// distinct.
proof fn lemma_aggregate_spec_distinct_at_zero(colls: Seq<Seq<Seq<Seq<char>>>>, f: Fraction)
    requires
        f.is_valid(),
        f.num == 0,
        colls_nonempty(colls),
        colls_distinct(colls),
    ensures
        reps_distinct(aggregate_spec(colls, f)),
    decreases colls.len(),
{
    if colls.len() == 0 {
    } else if colls.len() == 1 {
        assert(reps_distinct(colls[0]));
    } else {
        lemma_merge_round_len(colls, f);
        lemma_merge_round_wf(colls, f);
        lemma_merge_round_distinct_at_zero(colls, f);
        lemma_aggregate_spec_distinct_at_zero(merge_round(colls, f), f);
    }
}

/// Law: at zero tolerance only exact duplicates are grouped.  Every member
/// of every cluster of the final collection equals that cluster's
/// representative — equivalently, sits at edit distance zero from it.
pub proof fn lemma_zero_tolerance_exact(items: Seq<Seq<char>>, f: Fraction, n: nat)
    requires
        f.is_valid(),
        f.num == 0,
        0 < n <= items.len(),
    ensures
        clusters_uniform(cluster_strings_spec(items, f, n)),
{
    lemma_form_spec_wf(items, f, n);
    assert forall|i: int| 0 <= i < form_spec(items, f, n).len() implies clusters_uniform(
        #[trigger] form_spec(items, f, n)[i],
    ) by {
        lemma_cluster_spec_uniform_at_zero(slice_of(items, n, i), f);
    }
    lemma_aggregate_spec_uniform_at_zero(form_spec(items, f, n), f);
}

/// At zero tolerance the final collection's representatives are pairwise
/// distinct.
proof fn lemma_zero_tolerance_distinct(items: Seq<Seq<char>>, f: Fraction, n: nat)
    requires
        f.is_valid(),
        f.num == 0,
        0 < n <= items.len(),
    ensures
        reps_distinct(cluster_strings_spec(items, f, n)),
{
    lemma_form_spec_wf(items, f, n);
    assert forall|i: int| 0 <= i < form_spec(items, f, n).len() implies reps_distinct(
        #[trigger] form_spec(items, f, n)[i],
    ) by {
        lemma_cluster_spec_distinct_at_zero(slice_of(items, n, i), f);
    }
    lemma_aggregate_spec_distinct_at_zero(form_spec(items, f, n), f);
}

/// In a uniform cluster a value counts as the whole cluster or not at all.
proof fn lemma_uniform_cluster_count(c: Seq<Seq<char>>, v: Seq<char>)
    requires
        forall|k: int| 0 <= k < c.len() ==> #[trigger] c[k] == c[0],
    ensures
        c.to_multiset().count(v) == if c.len() > 0 && v == c[0] {
            c.len()
        } else {
            0nat
        },
    decreases c.len(),
{
    broadcast use vstd::multiset::group_multiset_axioms;
    broadcast use vstd::seq_lib::group_to_multiset_ensures;

    if c.len() > 0 {
        let c0 = c.drop_last();
        assert(forall|k: int| 0 <= k < c0.len() ==> #[trigger] c0[k] == c0[0]);
        lemma_uniform_cluster_count(c0, v);
        assert(c =~= c0.push(c.last()));
        assert(c.last() == c[0]);
        if c0.len() > 0 {
            assert(c0[0] == c[0]);
        }
    }
}

/// With distinct representatives, a value's occurrences across a collection
/// are exactly the occurrences in the cluster it represents, if any.
proof fn lemma_coll_count(cs: Seq<Seq<Seq<char>>>, v: Seq<char>)
    requires
        clusters_nonempty(cs),
        clusters_uniform(cs),
        reps_distinct(cs),
    ensures
        (forall|i: int| 0 <= i < cs.len() ==> (#[trigger] cs[i])[0] != v)
            ==> cs.flatten().to_multiset().count(v) == 0,
        forall|i: int|
            #![trigger cs[i]]
            0 <= i < cs.len() && cs[i][0] == v ==> cs.flatten().to_multiset().count(v)
                == cs[i].len(),
    decreases cs.len(),
{
    broadcast use vstd::multiset::group_multiset_axioms;
    broadcast use vstd::seq_lib::group_to_multiset_ensures;

    if cs.len() == 0 {
        assert(cs.flatten() =~= Seq::<Seq<char>>::empty());
    } else {
        let rest = cs.drop_first();
        assert(clusters_nonempty(rest));
        assert(clusters_uniform(rest)) by {
            assert forall|i: int, k: int|
                0 <= i < rest.len() && 0 <= k < rest[i].len() implies #[trigger] rest[i][k]
                == rest[i][0] by {
                assert(cs[i + 1][k] == cs[i + 1][0]);
            }
        }
        assert(reps_distinct(rest)) by {
            assert forall|i: int, j: int|
                #![trigger rest[i], rest[j]]
                0 <= i < j < rest.len() implies rest[i][0] != rest[j][0] by {
                assert(cs[i + 1][0] != cs[j + 1][0]);
            }
        }
        lemma_coll_count(rest, v);
        assert(cs.flatten() == cs[0] + rest.flatten());
        vstd::seq_lib::lemma_multiset_commutative(cs[0], rest.flatten());
        assert(forall|k: int| 0 <= k < cs[0].len() ==> #[trigger] cs[0][k] == cs[0][0]);
        lemma_uniform_cluster_count(cs[0], v);
        assert(cs.flatten().to_multiset().count(v) == cs[0].to_multiset().count(v)
            + rest.flatten().to_multiset().count(v));
        if forall|i: int| 0 <= i < cs.len() ==> (#[trigger] cs[i])[0] != v {
            assert(cs[0][0] != v);
            assert forall|i: int| 0 <= i < rest.len() implies (#[trigger] rest[i])[0] != v by {
                assert(cs[i + 1][0] != v);
            }
        }
        assert forall|i: int|
            #![trigger cs[i]]
            0 <= i < cs.len() && cs[i][0] == v implies cs.flatten().to_multiset().count(v)
            == (cs[i]).len() by {
            if i == 0 {
                // no later cluster carries the representative `v`
                assert forall|j: int| 0 <= j < rest.len() implies (#[trigger] rest[j])[0] != v by {
                    assert(cs[0][0] != cs[j + 1][0]);
                }
                assert(rest.flatten().to_multiset().count(v) == 0);
            } else {
                assert(rest[i - 1][0] == v);
                assert(rest.flatten().to_multiset().count(v) == rest[i - 1].len());
                assert(cs[0][0] != cs[i][0]);
                assert(cs[0].to_multiset().count(v) == 0);
            }
        }
    }
}

/// A member of the flattened collection sits in one of its clusters.
proof fn lemma_flatten_contains(cs: Seq<Seq<Seq<char>>>, v: Seq<char>)
    requires
        cs.flatten().contains(v),
    ensures
        exists|i: int| 0 <= i < cs.len() && (#[trigger] cs[i]).contains(v),
    decreases cs.len(),
{
    if cs.len() == 0 {
        assert(cs.flatten() =~= Seq::<Seq<char>>::empty());
    } else {
        assert(cs.flatten() == cs[0] + cs.drop_first().flatten());
        let k = choose|k: int| 0 <= k < cs.flatten().len() && cs.flatten()[k] == v;
        if k < cs[0].len() {
            assert(cs[0].contains(v));
        } else {
            assert(cs.drop_first().flatten()[k - cs[0].len()] == v);
            lemma_flatten_contains(cs.drop_first(), v);
            let i = choose|i: int|
                0 <= i < cs.drop_first().len() && (#[trigger] cs.drop_first()[i]).contains(v);
            assert(cs[i + 1].contains(v));
        }
    }
}

/// The one cluster a value `v` can form at zero tolerance: every occurrence
/// of `v` among the items, and nothing else.
pub open spec fn value_cluster(items: Seq<Seq<char>>, c: Seq<Seq<char>>) -> bool {
    &&& c.len() > 0
    &&& c.len() == items.to_multiset().count(c[0])
    &&& forall|k: int| 0 <= k < c.len() ==> #[trigger] c[k] == c[0]
}

/// A collection that is uniform, has distinct representatives and covers
/// `items` is forced: it holds each value cluster of `items` exactly once
/// and nothing else.
proof fn lemma_forced_collection(cs: Seq<Seq<Seq<char>>>, items: Seq<Seq<char>>, c: Seq<Seq<char>>)
    requires
        clusters_nonempty(cs),
        clusters_uniform(cs),
        reps_distinct(cs),
        cs.flatten().to_multiset() == items.to_multiset(),
    ensures
        cs.to_multiset().count(c) == if value_cluster(items, c) {
            1nat
        } else {
            0nat
        },
{
    broadcast use vstd::multiset::group_multiset_axioms;
    broadcast use vstd::seq_lib::group_to_multiset_ensures;

    if cs.contains(c) {
        let i = choose|i: int| 0 <= i < cs.len() && cs[i] == c;
        assert(c.len() > 0);
        assert(forall|k: int| 0 <= k < c.len() ==> #[trigger] c[k] == c[0]) by {
            assert(forall|k: int| 0 <= k < cs[i].len() ==> #[trigger] cs[i][k] == cs[i][0]);
        }
        lemma_coll_count(cs, c[0]);
        assert(cs.flatten().to_multiset().count(c[0]) == cs[i].len());
        assert(value_cluster(items, c));
        // distinct representatives leave no room for a duplicate cluster
        assert(cs.no_duplicates()) by {
            assert forall|x: int, y: int|
                0 <= x < cs.len() && 0 <= y < cs.len() && x != y implies cs[x] != cs[y] by {
                if x < y {
                    assert(cs[x][0] != cs[y][0]);
                } else {
                    assert(cs[y][0] != cs[x][0]);
                }
            }
        }
        cs.lemma_multiset_has_no_duplicates();
        assert(cs.to_multiset().contains(c));
    } else {
        assert(cs.to_multiset().count(c) == 0);
        if value_cluster(items, c) {
            let v = c[0];
            assert(items.to_multiset().count(v) > 0);
            assert(cs.flatten().to_multiset().count(v) > 0);
            assert(cs.flatten().contains(v));
            lemma_flatten_contains(cs, v);
            let i = choose|i: int| 0 <= i < cs.len() && (#[trigger] cs[i]).contains(v);
            let k = choose|k: int| 0 <= k < cs[i].len() && cs[i][k] == v;
            assert(cs[i][0] == v);
            lemma_coll_count(cs, v);
            assert(cs.flatten().to_multiset().count(v) == cs[i].len());
            assert(cs[i].len() == c.len());
            assert(cs[i] =~= c) by {
                assert(forall|w: int| 0 <= w < cs[i].len() ==> #[trigger] cs[i][w] == cs[i][0]);
            }
            assert(false);
        }
    }
}

/// Law: at zero tolerance the produced clusters do not depend on the worker
/// count.  Each cluster is the sequence of all occurrences of one distinct
/// input value, so two valid worker counts yield the same multiset of
/// clusters.
pub proof fn lemma_zero_tolerance_determinism(items: Seq<Seq<char>>, f: Fraction, n1: nat, n2: nat)
    requires
        f.is_valid(),
        f.num == 0,
        0 < n1 <= items.len(),
        0 < n2 <= items.len(),
    ensures
        cluster_strings_spec(items, f, n1).to_multiset() == cluster_strings_spec(items, f, n2)
            .to_multiset(),
{
    broadcast use vstd::multiset::group_multiset_axioms;

    let c1 = cluster_strings_spec(items, f, n1);
    let c2 = cluster_strings_spec(items, f, n2);
    lemma_zero_tolerance_exact(items, f, n1);
    lemma_zero_tolerance_exact(items, f, n2);
    lemma_zero_tolerance_distinct(items, f, n1);
    lemma_zero_tolerance_distinct(items, f, n2);
    lemma_coverage(items, f, n1);
    lemma_coverage(items, f, n2);
    lemma_form_spec_wf(items, f, n1);
    lemma_form_spec_wf(items, f, n2);
    crate::aggregation::lemma_aggregate_spec_wf(form_spec(items, f, n1), f);
    crate::aggregation::lemma_aggregate_spec_wf(form_spec(items, f, n2), f);
    assert forall|c: Seq<Seq<char>>| true implies c1.to_multiset().count(c) == c2.to_multiset()
        .count(c) by {
        lemma_forced_collection(c1, items, c);
        lemma_forced_collection(c2, items, c);
    }
    assert(c1.to_multiset() =~= c2.to_multiset());
}

} // verus!
