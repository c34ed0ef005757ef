//! Work handed out to threads item by item.

use vstd::prelude::*;
use rayon::prelude::{IntoParallelIterator, ParallelIterator};

verus! {

/// `rayon`'s parallel map over `0..n`, collected into a vector: item `i` of the result is what
/// `f` returned for `i`. The items may be computed in any order and on any thread; `collect` of
/// an indexed parallel iterator keeps their order.
#[verifier::external_body]
pub(crate) fn par_map<T: Send, F: Fn(usize) -> T + Sync + Send>(n: usize, f: F) -> (results: Vec<T>)
    requires
        forall|i: usize| i < n ==> call_requires(f, (i,)),
    ensures
        results@.len() == n,
        forall|i: usize| i < n ==> call_ensures(f, (i,), #[trigger] results@[i as int]),
{
    (0..n).into_par_iter().map(f).collect()
}

} // verus!
