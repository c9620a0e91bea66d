//! Weighted choice among a state's successors, drawn by rand.

use crate::edges::{edge_list_view, total_weight};
use rand::distributions::WeightedError;
use rand::seq::SliceRandom;
use vstd::prelude::*;

verus! {

#[verifier::external_type_specification]
#[verifier::external_body]
pub struct ExWeightedError(WeightedError);

/// Relies on rand's `SliceRandom::choose_weighted`, drawing from `rand::thread_rng()`,
/// with each entry's weight widened to `u128` so that the running sum cannot overflow.
/// `WeightedIndex::new` fails exactly when there is no entry or every weight is zero
/// (no `u128` weight is negative); otherwise the draw lands in the cumulative-weight
/// interval of one entry, and a zero weight has an empty interval.
#[verifier::external_body]
pub(crate) fn choose_weighted_edge(edges: &Vec<(String, u64)>) -> (r: Result<&(String, u64), WeightedError>)
    requires
        total_weight(edge_list_view(edges@)) <= u128::MAX,
    ensures
        r is Err <==> total_weight(edge_list_view(edges@)) == 0,
        r matches Ok(e) ==> exists|i: int| 0 <= i < edges@.len() && edges@[i] == *e && e.1 > 0,
{
    edges.choose_weighted(&mut rand::thread_rng(), |e| e.1 as u128)
}

} // verus!
