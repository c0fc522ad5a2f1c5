//! The branches of the exhaustive search, handed out to worker threads.

use vstd::prelude::*;
use std::cmp::Ordering;
use rayon::iter::IntoParallelIterator;
use rayon::iter::ParallelIterator;
use crate::country::Country;
use crate::exhaustive::branch_outcome;
use crate::exhaustive::has_outcome;
use crate::graph::fusable;
use crate::ratio::frac_lt;
use crate::sums::variance_den;
use crate::sums::variance_num;

verus! {

/// The order of two countries by the variance of their values.
pub fn variance_order(a: &Country, b: &Country) -> (r: Ordering)
    requires
        a.within_limits(),
        b.within_limits(),
        a.regions@.len() >= 1,
        b.regions@.len() >= 1,
    ensures
        r == Ordering::Less <==> frac_lt(
            variance_num(a.values()),
            variance_den(a.values()),
            variance_num(b.values()),
            variance_den(b.values()),
        ),
        r == Ordering::Greater <==> frac_lt(
            variance_num(b.values()),
            variance_den(b.values()),
            variance_num(a.values()),
            variance_den(a.values()),
        ),
{
    let va = a.std_dev_sq().unwrap();
    let vb = b.std_dev_sq().unwrap();
    if va.lt(&vb) {
        Ordering::Less
    } else if vb.lt(&va) {
        Ordering::Greater
    } else {
        Ordering::Equal
    }
}

/// Runs `Country::explore_branch` on every pair of `links` through
/// rayon's `into_par_iter`, `filter_map` and `min_by`, and returns the
/// country of smallest variance among those that the branches returned.
///
/// The contract claims what rayon documents of the three: the function
/// handed to `filter_map` is called on each item, `min_by` returns an
/// item that compares greater than no other, and `None` only where there
/// is no item. So the result, where there is one, is what the branch of
/// some pair returned; and each pair's branch returned an outcome whose
/// variance is not below that of the result. Which of several countries
/// of the same variance comes back is left open.
#[verifier::external_body]
pub(crate) fn best_branch(
    country: &Country,
    links: Vec<(String, String)>,
    target_count: usize,
    ordered: bool,
) -> (r: Option<Country>)
    requires
        country.wf(),
        1 <= target_count,
        forall|i: int|
            0 <= i < links@.len() ==> fusable(country@, (#[trigger] links@[i]).0@, links@[i].1@, false),
    ensures
        r is Some ==> exists|i: int|
            0 <= i < links@.len() && branch_outcome(
                *country,
                #[trigger] links@[i],
                target_count,
                ordered,
                r,
            ),
        forall|j: int|
            0 <= j < links@.len() ==> has_outcome(
                *country,
                #[trigger] links@[j],
                target_count,
                ordered,
                r,
            ),
{
    links
        .into_par_iter()
        .filter_map(|link| country.explore_branch(&link, target_count, ordered))
        .min_by(|a, b| variance_order(a, b))
}

} // verus!
