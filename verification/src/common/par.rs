//! Work shared out to threads.

use vstd::prelude::*;
use rayon::iter::{IntoParallelRefIterator, ParallelIterator};

verus! {

/// Applies `f` to each of `items`, by rayon's `par_iter`, `map` and `collect`.
///
/// `par_iter` on a vector is an indexed parallel iterator; `map` applies the closure once to each
/// item and keeps the index, and `collect` into a vector puts the results in the order of the
/// items. So result `i` is one that `f` gives for item `i`.
#[verifier::external_body]
pub(crate) fn par_map<T: Sync, R: Send, F: Fn(&T) -> R + Sync + Send>(
    items: &Vec<T>,
    f: F,
) -> (out: Vec<R>)
    requires
        forall|i: int| 0 <= i < items@.len() ==> call_requires(f, (&#[trigger] items@[i],)),
    ensures
        out@.len() == items@.len(),
        forall|i: int|
            0 <= i < items@.len() ==> call_ensures(f, (&items@[i],), #[trigger] out@[i]),
{
    items.par_iter().map(|x| f(x)).collect()
}

} // verus!
