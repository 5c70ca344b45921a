//! Data-parallel mapping over a vector.
use vstd::prelude::*;
use rayon::iter::{IntoParallelRefIterator, ParallelIterator};

verus! {

/// Relies on rayon's `par_iter().map(f).collect()` over a `Vec`: `f` is
/// applied to every element, and the results are collected in the order of
/// the elements they came from.
#[verifier::external_body]
pub(crate) fn par_map<T: Sync, U: Send, F: Fn(&T) -> U + Sync + Send>(v: &Vec<T>, f: F) -> (r: Vec<U>)
    requires
        forall|i: int| 0 <= i < v.len() ==> f.requires((&v[i],)),
    ensures
        r.len() == v.len(),
        forall|i: int| #![trigger r[i]] 0 <= i < v.len() ==> f.ensures((&v[i],), r[i]),
{
    v.par_iter().map(f).collect()
}

} // verus!
