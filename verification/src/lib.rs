//! Groups strings into clusters of near-duplicates.
//!
//! Two strings belong together when their Levenshtein distance is at most a
//! configurable fraction of the shorter string's length.  A single pass
//! groups each string with the first earlier cluster representative it is
//! similar to; independently formed cluster collections can be merged
//! pairwise, so the input may be partitioned, clustered per partition, and
//! the partial results reduced to one final collection.
//!
//! Similarity is tested only against a cluster's first member, its
//! representative, relying on approximate transitivity of near-duplicates:
//! two members of one cluster need not be similar to each other, only to the
//! shared representative.

use vstd::prelude::*;

mod aggregation;
mod clustering;
mod formation;
mod fraction;
mod laws;
mod merge;
mod model;
mod similarity;

pub use crate::aggregation::aggregate_results;
pub use crate::clustering::cluster;
pub use crate::clustering::init_container;
pub use crate::formation::form_clusters;
pub use crate::fraction::Fraction;
pub use crate::merge::merge_clusters;
pub use crate::similarity::get_max_edit_dist;
pub use crate::similarity::is_similar;

use crate::aggregation::{aggregate_spec, lemma_aggregate_spec_multiset, lemma_aggregate_spec_wf};
use crate::formation::{form_spec, lemma_form_spec_multiset};
use crate::model::{clusters_nonempty, coll_view, strs_view};

verus! {

/// Validation errors: the reasons the entry point rejects its arguments.
#[derive(Clone, Copy, PartialEq, Eq, Structural, Debug)]
pub enum ValueError {
    /// Fraction value outside of closed interval [0, 1].
    InvalidFraction,
    /// Input vector empty.
    EmptyVector,
    /// More threads allocated than input strings.
    InsufficientWork,
    /// Thread count less than one.
    InsufficientThreadCount,
}

/// The collection returned on valid arguments: the input split into `n`
/// slices, each slice clustered, and the partial collections reduced by
/// pairwise merges.
pub open spec fn cluster_strings_spec(items: Seq<Seq<char>>, f: Fraction, n: nat) -> Seq<
    Seq<Seq<char>>,
> {
    aggregate_spec(form_spec(items, f, n), f)
}

/// Group similar input strings into clusters.
///
/// Strings are grouped into a cluster when the Levenshtein distance between
/// a string and the cluster's representative is within `max_edit_frac` of
/// the shorter string's length.  The work is split into `n_threads` slices
/// that are clustered independently and then merged pairwise.
///
/// Arguments are validated in order: an empty input, then a tolerance
/// outside [0, 1], then more threads than inputs, then fewer than one
/// thread; the first failing check names the error.
pub fn cluster_strings<'a>(
    inputs: &Vec<&'a str>,
    max_edit_frac: Fraction,
    n_threads: usize,
) -> (r: Result<Vec<Vec<&'a str>>, ValueError>)
    ensures
        inputs@.len() == 0 ==> r == Err::<Vec<Vec<&'a str>>, ValueError>(ValueError::EmptyVector),
        inputs@.len() > 0 && !max_edit_frac.is_valid() ==> r == Err::<
            Vec<Vec<&'a str>>,
            ValueError,
        >(ValueError::InvalidFraction),
        inputs@.len() > 0 && max_edit_frac.is_valid() && n_threads > inputs@.len() ==> r == Err::<
            Vec<Vec<&'a str>>,
            ValueError,
        >(ValueError::InsufficientWork),
        inputs@.len() > 0 && max_edit_frac.is_valid() && n_threads == 0 ==> r == Err::<
            Vec<Vec<&'a str>>,
            ValueError,
        >(ValueError::InsufficientThreadCount),
        inputs@.len() > 0 && max_edit_frac.is_valid() && 0 < n_threads <= inputs@.len() ==> {
            &&& r is Ok
            &&& coll_view(r->Ok_0@) == cluster_strings_spec(
                strs_view(inputs@),
                max_edit_frac,
                n_threads as nat,
            )
            &&& coll_view(r->Ok_0@).flatten().to_multiset() == strs_view(inputs@).to_multiset()
            &&& clusters_nonempty(coll_view(r->Ok_0@))
        },
{
    // Validation here, before any work is dispatched.
    if inputs.len() == 0 {
        return Err(ValueError::EmptyVector);
    }
    if !max_edit_frac.valid() {
        return Err(ValueError::InvalidFraction);
    }
    if n_threads > inputs.len() {
        return Err(ValueError::InsufficientWork);
    }
    if n_threads == 0 {
        return Err(ValueError::InsufficientThreadCount);
    }

    let partials = form_clusters(inputs, max_edit_frac, n_threads);
    let result = aggregate_results(partials, max_edit_frac);
    proof {
        let items = strs_view(inputs@);
        lemma_form_spec_multiset(items, max_edit_frac, n_threads as nat);
        lemma_aggregate_spec_multiset(
            form_spec(items, max_edit_frac, n_threads as nat),
            max_edit_frac,
        );
        lemma_aggregate_spec_wf(form_spec(items, max_edit_frac, n_threads as nat), max_edit_frac);
    }
    Ok(result)
}

} // verus!
