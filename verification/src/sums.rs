//! Finite sums of field values and their algebra.
use crate::field::{
    fadd, fmul, lemma_canonical, lemma_fadd_assoc, lemma_fadd_comm, lemma_fadd_zero,
    lemma_fmul_distrib, lemma_fmul_zero, modulus,
};
use vstd::arithmetic::div_mod::lemma_small_mod;
use vstd::prelude::*;

verus! {

/// `f(0) + f(1) + ... + f(n - 1)` in the field.
pub open spec fn fsum(f: spec_fn(nat) -> nat, n: nat) -> nat
    decreases n,
{
    if n == 0 {
        0
    } else {
        fadd(fsum(f, (n - 1) as nat), f((n - 1) as nat))
    }
}

/// A sum is canonical.
pub proof fn lemma_fsum_canonical(f: spec_fn(nat) -> nat, n: nat)
    ensures
        fsum(f, n) < modulus(),
{
    if n > 0 {
        lemma_canonical(fsum(f, (n - 1) as nat), f((n - 1) as nat));
    }
}

/// Sums of functions that agree below `n` are equal.
pub proof fn lemma_fsum_ext(f: spec_fn(nat) -> nat, g: spec_fn(nat) -> nat, n: nat)
    requires
        forall|i: nat| i < n ==> #[trigger] f(i) == g(i),
    ensures
        fsum(f, n) == fsum(g, n),
    decreases n,
{
    if n > 0 {
        lemma_fsum_ext(f, g, (n - 1) as nat);
    }
}

/// A sum of zeros is zero.
pub proof fn lemma_fsum_zero(f: spec_fn(nat) -> nat, n: nat)
    requires
        forall|i: nat| i < n ==> #[trigger] f(i) == 0,
    ensures
        fsum(f, n) == 0,
    decreases n,
{
    if n > 0 {
        lemma_fsum_zero(f, (n - 1) as nat);
        lemma_small_mod(0, modulus());
    } else {
    }
}

/// The sum of a pointwise sum is the sum of the sums.
pub proof fn lemma_fsum_add(f: spec_fn(nat) -> nat, g: spec_fn(nat) -> nat, n: nat)
    ensures
        fsum(|i: nat| fadd(f(i), g(i)), n) == fadd(fsum(f, n), fsum(g, n)),
    decreases n,
{
    let h = |i: nat| fadd(f(i), g(i));
    if n == 0 {
        lemma_small_mod(0, modulus());
    } else {
        let n1 = (n - 1) as nat;
        lemma_fsum_add(f, g, n1);
        let a = fsum(f, n1);
        let b = fsum(g, n1);
        lemma_fadd_interchange(a, b, f(n1), g(n1));
    }
}

/// `(a + b) + (x + y) == (a + x) + (b + y)`.
pub proof fn lemma_fadd_interchange(a: nat, b: nat, x: nat, y: nat)
    ensures
        fadd(fadd(a, b), fadd(x, y)) == fadd(fadd(a, x), fadd(b, y)),
{
    lemma_fadd_assoc(fadd(a, b), x, y);
    lemma_fadd_assoc(a, b, x);
    lemma_fadd_comm(b, x);
    lemma_fadd_assoc(a, x, b);
    lemma_fadd_assoc(fadd(a, x), b, y);
}

/// A constant factor comes out of a sum.
pub proof fn lemma_fsum_scale(c: nat, f: spec_fn(nat) -> nat, n: nat)
    ensures
        fsum(|i: nat| fmul(c, f(i)), n) == fmul(c, fsum(f, n)),
    decreases n,
{
    if n == 0 {
        lemma_fmul_zero(c);
    } else {
        let n1 = (n - 1) as nat;
        lemma_fsum_scale(c, f, n1);
        lemma_fmul_distrib(c, fsum(f, n1), f(n1));
    }
}

/// A sum over `a + b` terms splits into the first `a` and the next `b`.
pub proof fn lemma_fsum_split(f: spec_fn(nat) -> nat, a: nat, b: nat)
    ensures
        fsum(f, a + b) == fadd(fsum(f, a), fsum(|i: nat| f(a + i), b)),
    decreases b,
{
    if b == 0 {
        lemma_fsum_canonical(f, a);
        lemma_fadd_zero(fsum(f, a));
        lemma_small_mod(fsum(f, a), modulus());
        assert(a + b == a);
    } else {
        let b1 = (b - 1) as nat;
        lemma_fsum_split(f, a, b1);
        assert((a + b - 1) as nat == a + b1);
        lemma_fadd_assoc(fsum(f, a), fsum(|i: nat| f(a + i), b1), f(a + b1));
    }
}

/// A sum whose terms vanish except at `j` is the term at `j`.
pub proof fn lemma_fsum_single(f: spec_fn(nat) -> nat, n: nat, j: nat)
    requires
        j < n,
        f(j) < modulus(),
        forall|i: nat| i < n && i != j ==> #[trigger] f(i) == 0,
    ensures
        fsum(f, n) == f(j),
    decreases n,
{
    if n - 1 == j {
        lemma_fsum_zero(f, j);
        lemma_fadd_zero(f(j));
        lemma_small_mod(f(j), modulus());
    } else {
        lemma_fsum_single(f, (n - 1) as nat, j);
        lemma_fadd_zero(f(j));
        lemma_small_mod(f(j), modulus());
    }
}

/// The order of a double sum does not matter.
pub proof fn lemma_fsum_swap(g: spec_fn(nat, nat) -> nat, m: nat, n: nat)
    ensures
        fsum(|k: nat| fsum(|i: nat| g(i, k), m), n) == fsum(|i: nat| fsum(|k: nat| g(i, k), n), m),
    decreases n,
{
    if n == 0 {
        lemma_fsum_zero(|i: nat| fsum(|k: nat| g(i, k), 0), m);
    } else {
        let n1 = (n - 1) as nat;
        lemma_fsum_swap(g, m, n1);
        // sum_i sum_{k<n} g = sum_i (sum_{k<n1} g + g(i, n1)) = sum_i sum_{k<n1} g + sum_i g(i, n1)
        let inner_n = |i: nat| fsum(|k: nat| g(i, k), n);
        let inner_n1 = |i: nat| fsum(|k: nat| g(i, k), n1);
        let last = |i: nat| g(i, n1);
        assert forall|i: nat| i < m implies #[trigger] inner_n(i) == fadd(inner_n1(i), last(i)) by {
        }
        lemma_fsum_ext(inner_n, |i: nat| fadd(inner_n1(i), last(i)), m);
        lemma_fsum_add(inner_n1, last, m);
    }
}

/// A sum over `2h` terms is the sum over pairs of consecutive terms.
pub proof fn lemma_fsum_pairs(f: spec_fn(nat) -> nat, h: nat)
    ensures
        fsum(f, 2 * h) == fsum(|j: nat| fadd(f(2 * j), f(2 * j + 1)), h),
    decreases h,
{
    if h > 0 {
        let h1 = (h - 1) as nat;
        lemma_fsum_pairs(f, h1);
        assert((2 * h - 1) as nat == 2 * h1 + 1);
        assert((2 * h1 + 1 - 1) as nat == 2 * h1);
        assert(fsum(f, 2 * h) == fadd(fsum(f, (2 * h1 + 1) as nat), f(2 * h1 + 1)));
        assert(fsum(f, (2 * h1 + 1) as nat) == fadd(fsum(f, 2 * h1), f(2 * h1)));
        lemma_fadd_assoc(fsum(f, 2 * h1), f(2 * h1), f(2 * h1 + 1));
    }
}

} // verus!
