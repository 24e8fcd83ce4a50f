//! Partitioning the input across workers: the input is split into contiguous,
//! roughly equal slices — every slice but the last holds `len / n` items, the
//! last absorbs the remainder — and each slice is clustered independently.

use vstd::arithmetic::div_mod::{
    lemma_div_is_ordered, lemma_div_multiples_vanish, lemma_fundamental_div_mod, lemma_mod_bound,
};
use vstd::arithmetic::mul::{
    lemma_mul_inequality, lemma_mul_is_distributive_add, lemma_mul_strict_inequality,
};
use vstd::prelude::*;

use crate::clustering::{cluster, cluster_spec, lemma_cluster_spec_multiset};
use crate::fraction::Fraction;
use crate::model::{clusters_nonempty, coll_view, colls_nonempty, colls_view, strs_view};

verus! {

/// Where slice `i` of `n` starts in an input of length `len`.
pub open spec fn slice_start(len: nat, n: nat, i: int) -> int {
    i * (len as int / n as int)
}

/// Where slice `i` of `n` ends: at the next slice's start, except that the
/// last slice runs to the end of the input.
pub open spec fn slice_end(len: nat, n: nat, i: int) -> int {
    if i + 1 == n {
        len as int
    } else {
        (i + 1) * (len as int / n as int)
    }
}

/// Slice `i` of `n` taken out of `items`.
pub open spec fn slice_of(items: Seq<Seq<char>>, n: nat, i: int) -> Seq<Seq<char>> {
    items.subrange(slice_start(items.len(), n, i), slice_end(items.len(), n, i))
}

/// The collections formed by clustering each of the `n` slices in turn.
pub open spec fn form_spec(items: Seq<Seq<char>>, f: Fraction, n: nat) -> Seq<
    Seq<Seq<Seq<char>>>,
> {
    Seq::new(n, |i: int| cluster_spec(slice_of(items, n, i), f))
}

/// With no more slices than items, every slice is nonempty and lies inside
/// the input.
pub proof fn lemma_slice_bounds(len: nat, n: nat, i: int)
    requires
        0 < n <= len,
        0 <= i < n,
    ensures
        0 <= slice_start(len, n, i) < slice_end(len, n, i) <= len,
{
    let q = len as int / n as int;
    assert(q >= 1) by {
        lemma_div_multiples_vanish(1, n as int);
        lemma_div_is_ordered(n as int, len as int, n as int);
    }
    assert((n as int) * q <= len) by {
        lemma_fundamental_div_mod(len as int, n as int);
        lemma_mod_bound(len as int, n as int);
    }
    lemma_mul_inequality(0, i, q);
    lemma_mul_strict_inequality(i, i + 1, q);
    if i + 1 == n {
        // the last slice begins strictly before the end of the input
        assert(i * q + q == (i + 1) * q) by {
            lemma_mul_is_distributive_add(q, i, 1);
        }
    } else {
        lemma_mul_inequality(i + 1, n as int, q);
    }
}

/// The slices of an input, in order, concatenate back to that input.
pub proof fn lemma_slices_cover(items: Seq<Seq<char>>, n: nat)
    requires
        0 < n <= items.len(),
    ensures
        Seq::new(n, |i: int| slice_of(items, n, i)).flatten() =~= items,
{
    lemma_slices_cover_prefix(items, n, n as int);
    assert(Seq::new(n, |i: int| slice_of(items, n, i)).take(n as int) =~= Seq::new(
        n,
        |i: int| slice_of(items, n, i),
    ));
    assert(items.subrange(0, items.len() as int) =~= items);
}

/// Where the first `k` slices of `n` end, as one prefix of the input.
pub open spec fn prefix_end(len: nat, n: nat, k: int) -> int {
    if k == n {
        len as int
    } else {
        k * (len as int / n as int)
    }
}

/// The first `k` slices concatenate to the input's prefix that ends where
/// slice `k` would begin.
proof fn lemma_slices_cover_prefix(items: Seq<Seq<char>>, n: nat, k: int)
    requires
        0 < n <= items.len(),
        0 <= k <= n,
    ensures
        Seq::new(n, |i: int| slice_of(items, n, i)).take(k).flatten() =~= items.subrange(
            0,
            prefix_end(items.len(), n, k),
        ),
    decreases k,
{
    let len = items.len();
    let slices = Seq::new(n, |i: int| slice_of(items, n, i));
    if k == 0 {
        assert(slices.take(0) =~= Seq::<Seq<Seq<char>>>::empty());
    } else {
        lemma_slices_cover_prefix(items, n, k - 1);
        lemma_slice_bounds(len, n, k - 1);
        assert(slices.take(k) =~= slices.take(k - 1).push(slice_of(items, n, k - 1)));
        slices.take(k - 1).lemma_flatten_push(slice_of(items, n, k - 1));
        assert(prefix_end(len, n, k - 1) == slice_start(len, n, k - 1));
        assert(prefix_end(len, n, k) == slice_end(len, n, k - 1)) by {
            if k < n {
                lemma_slice_bounds(len, n, k);
            }
        }
        assert(items.subrange(0, slice_start(len, n, k - 1)) + slice_of(items, n, k - 1)
            =~= items.subrange(0, slice_end(len, n, k - 1)));
    }
}

/// Forming collections from the slices neither loses nor duplicates items:
/// all members of all clusters of all collections are exactly the input.
pub proof fn lemma_form_spec_multiset(items: Seq<Seq<char>>, f: Fraction, n: nat)
    requires
        0 < n <= items.len(),
    ensures
        form_spec(items, f, n).flatten().flatten().to_multiset() =~= items.to_multiset(),
{
    broadcast use vstd::multiset::group_multiset_axioms;
    broadcast use vstd::seq_lib::group_to_multiset_ensures;

    lemma_form_prefix_multiset(items, f, n, n as int);
    assert(form_spec(items, f, n).take(n as int) =~= form_spec(items, f, n));
    assert(items.subrange(0, items.len() as int) =~= items);
}

/// The members of the first `k` formed collections are exactly the items of
/// the first `k` slices.
proof fn lemma_form_prefix_multiset(items: Seq<Seq<char>>, f: Fraction, n: nat, k: int)
    requires
        0 < n <= items.len(),
        0 <= k <= n,
    ensures
        form_spec(items, f, n).take(k).flatten().flatten().to_multiset() =~= items.subrange(
            0,
            prefix_end(items.len(), n, k),
        ).to_multiset(),
    decreases k,
{
    broadcast use vstd::multiset::group_multiset_axioms;
    broadcast use vstd::seq_lib::group_to_multiset_ensures;

    let len = items.len();
    let colls = form_spec(items, f, n);
    if k == 0 {
        assert(colls.take(0) =~= Seq::<Seq<Seq<Seq<char>>>>::empty());
        assert(colls.take(0).flatten() =~= Seq::<Seq<Seq<char>>>::empty());
        assert(colls.take(0).flatten().flatten() =~= Seq::<Seq<char>>::empty());
        assert(items.subrange(0, 0) =~= Seq::<Seq<char>>::empty());
    } else {
        lemma_form_prefix_multiset(items, f, n, k - 1);
        lemma_slice_bounds(len, n, k - 1);
        let prev = colls.take(k - 1);
        let coll = cluster_spec(slice_of(items, n, k - 1), f);
        assert(colls.take(k) =~= prev.push(coll));
        prev.lemma_flatten_push(coll);
        assert(colls.take(k).flatten() == prev.flatten() + coll);
        vstd::seq_lib::lemma_flatten_concat(prev.flatten(), coll);
        assert(colls.take(k).flatten().flatten() =~= prev.flatten().flatten() + coll.flatten());
        vstd::seq_lib::lemma_multiset_commutative(prev.flatten().flatten(), coll.flatten());
        lemma_cluster_spec_multiset(slice_of(items, n, k - 1), f);
        assert(prefix_end(len, n, k - 1) == slice_start(len, n, k - 1));
        assert(prefix_end(len, n, k) == slice_end(len, n, k - 1)) by {
            if k < n {
                lemma_slice_bounds(len, n, k);
            }
        }
        assert(items.subrange(0, slice_start(len, n, k - 1)) + slice_of(items, n, k - 1)
            =~= items.subrange(0, prefix_end(len, n, k)));
        vstd::seq_lib::lemma_multiset_commutative(
            items.subrange(0, slice_start(len, n, k - 1)),
            slice_of(items, n, k - 1),
        );
    }
}

/// Every formed collection consists of nonempty clusters, and there is one
/// collection per slice.
pub proof fn lemma_form_spec_wf(items: Seq<Seq<char>>, f: Fraction, n: nat)
    requires
        0 < n <= items.len(),
    ensures
        colls_nonempty(form_spec(items, f, n)),
        form_spec(items, f, n).len() == n,
{
    assert forall|i: int| 0 <= i < form_spec(items, f, n).len() implies clusters_nonempty(
        #[trigger] form_spec(items, f, n)[i],
    ) by {
        crate::clustering::lemma_cluster_spec_wf(slice_of(items, n, i), f);
    }
}

/// Split the input into `n_threads` contiguous slices and cluster each slice
/// independently, returning one collection per slice, in slice order.
pub fn form_clusters<'a>(
    inputs: &Vec<&'a str>,
    max_edit_frac: Fraction,
    n_threads: usize,
) -> (r: Vec<Vec<Vec<&'a str>>>)
    requires
        max_edit_frac.is_valid(),
        0 < n_threads <= inputs@.len(),
    ensures
        colls_view(r@) == form_spec(strs_view(inputs@), max_edit_frac, n_threads as nat),
        r@.len() == n_threads,
        colls_nonempty(colls_view(r@)),
{
    let ghost items = strs_view(inputs@);
    let ghost target = form_spec(items, max_edit_frac, n_threads as nat);
    let len = inputs.len();
    let q = len / n_threads;
    let mut out: Vec<Vec<Vec<&'a str>>> = Vec::new();
    let mut i: usize = 0;
    proof {
        assert(colls_view(out@) =~= target.take(0));
    }
    while i < n_threads
        invariant
            max_edit_frac.is_valid(),
            0 < n_threads <= inputs@.len(),
            len == inputs@.len(),
            q == len as int / n_threads as int,
            items == strs_view(inputs@),
            target == form_spec(items, max_edit_frac, n_threads as nat),
            i <= n_threads,
            out@.len() == i,
            colls_view(out@) == target.take(i as int),
            colls_nonempty(colls_view(out@)),
        decreases n_threads - i,
    {
        proof {
            lemma_slice_bounds(len as nat, n_threads as nat, i as int);
        }
        let start = i * q;
        let end = if i + 1 == n_threads {
            len
        } else {
            (i + 1) * q
        };
        let part = vstd::slice::slice_subrange(inputs.as_slice(), start, end);
        let c = cluster(part, max_edit_frac);
        proof {
            assert(strs_view(part@) =~= slice_of(items, n_threads as nat, i as int));
            assert(coll_view(c@) == target[i as int]);
        }
        let ghost old_out = out@;
        out.push(c);
        i += 1;
        proof {
            assert(colls_view(out@) =~= colls_view(old_out).push(coll_view(c@)));
            assert(target.take(i as int) =~= target.take(i - 1).push(target[i - 1]));
            assert forall|x: int| 0 <= x < colls_view(out@).len() implies clusters_nonempty(
                #[trigger] colls_view(out@)[x],
            ) by {
                if x < old_out.len() {
                    assert(clusters_nonempty(colls_view(old_out)[x]));
                }
            }
        }
    }
    proof {
        assert(target.take(n_threads as int) =~= target);
    }
    out
}

} // verus!
