//! Data-parallel maps and reductions, run on rayon's thread pool.
use crate::field::{fadd, fmul, Belt};
use rayon::iter::{IndexedParallelIterator, IntoParallelIterator, IntoParallelRefIterator, ParallelIterator};
use vstd::prelude::*;

verus! {

/// The sum, in order, of the products of corresponding values of two sequences.
pub open spec fn dot(a: Seq<nat>, b: Seq<nat>) -> nat
    decreases a.len(),
{
    if a.len() == 0 || b.len() == 0 {
        0
    } else {
        fadd(dot(a.drop_last(), b.drop_last()), fmul(a.last(), b.last()))
    }
}

/// The field values of a sequence of elements.
pub open spec fn vals(s: Seq<Belt>) -> Seq<nat> {
    s.map_values(|b: Belt| b.val())
}

/// rayon's `par_iter().map(f).collect()` on a vector: an indexed parallel iterator
/// collects into a vector in the order of its source, so the result holds `f`
/// applied to each item, at the item's index.
#[verifier::external_body]
pub(crate) fn par_map<T: Sync, U: Send, F: Fn(&T) -> U + Sync + Send>(v: &Vec<T>, f: F) -> (r: Vec<U>)
    requires
        forall|i: int| 0 <= i < v.len() ==> call_requires(f, (&v[i],)),
    ensures
        r.len() == v.len(),
        forall|i: int| 0 <= i < v.len() ==> call_ensures(f, (&v[i],), #[trigger] r[i]),
{
    v.par_iter().map(f).collect()
}

/// rayon's `a.par_iter().zip(b.par_iter()).map(f).collect()`: zipping two indexed
/// parallel iterators of equal length pairs items of equal index, and the collect
/// keeps the order.
#[verifier::external_body]
pub(crate) fn par_zip_map<A: Sync, B: Sync, U: Send, F: Fn(&A, &B) -> U + Sync + Send>(
    a: &Vec<A>,
    b: &Vec<B>,
    f: F,
) -> (r: Vec<U>)
    requires
        a.len() == b.len(),
        forall|i: int| 0 <= i < a.len() ==> call_requires(f, (&a[i], &b[i])),
    ensures
        r.len() == a.len(),
        forall|i: int| 0 <= i < a.len() ==> call_ensures(f, (&a[i], &b[i]), #[trigger] r[i]),
{
    a.par_iter().zip(b.par_iter()).map(|(x, y)| f(x, y)).collect()
}

/// rayon's `(0..n).into_par_iter().map(f).collect()`: the result holds `f(i)` at
/// index `i`.
#[verifier::external_body]
pub(crate) fn par_tabulate<U: Send, F: Fn(usize) -> U + Sync + Send>(n: usize, f: F) -> (r: Vec<U>)
    requires
        forall|i: usize| i < n ==> call_requires(f, (i,)),
    ensures
        r.len() == n,
        forall|i: int| 0 <= i < n ==> call_ensures(f, (i as usize,), #[trigger] r[i]),
{
    (0..n).into_par_iter().map(f).collect()
}

/// rayon's `zip`, `map` and `reduce` with the field product and the field sum, whose
/// identity is zero: rayon combines the products in some bracketing, and since the
/// field sum is associative and commutative with identity zero every bracketing has
/// the value of the sum in order.
#[verifier::external_body]
pub(crate) fn par_dot(a: &Vec<Belt>, b: &Vec<Belt>) -> (r: Belt)
    requires
        a.len() == b.len(),
    ensures
        r.val() == dot(vals(a@), vals(b@)),
        r.canonical(),
{
    a.par_iter().zip(b.par_iter()).map(|(x, y)| x.mul(*y)).reduce(|| Belt::zero(), |s, t| s.add(t))
}

} // verus!
