//! Element-wise batch operations on field elements, polynomial evaluation,
//! matrix-vector products and Montgomery's batch inversion.
use crate::field::{finv, lemma_fpow_canonical, lemma_fpow_fmul, lemma_fmul_assoc, lemma_fmul_one_left, lemma_canonical, fadd, fmul, fpow, fsub, lemma_fadd_comm, lemma_fadd_zero, lemma_fmul_comm, lemma_fmul_zero, lemma_reduce_args, modulus, Belt};
use crate::conv::lemma_fmul_interchange;
use crate::cyclic::lemma_inverse;
use crate::roots::lemma_fpow_one;
use crate::par::{dot, par_dot, par_map, par_zip_map, vals};
use vstd::arithmetic::div_mod::*;
use vstd::prelude::*;

verus! {

/// The value of the polynomial with coefficients `c` (constant term first) at `x`.
pub open spec fn eval(c: Seq<nat>, x: nat) -> nat
    decreases c.len(),
{
    if c.len() == 0 {
        0
    } else {
        fadd(c[0], fmul(x, eval(c.drop_first(), x)))
    }
}

/// The product of a sequence of field values.
pub open spec fn product(s: Seq<nat>) -> nat
    decreases s.len(),
{
    if s.len() == 0 {
        1
    } else {
        fmul(product(s.drop_last()), s.last())
    }
}

/// Element-wise field sum of two vectors of equal length.
pub fn batch_add(a: &Vec<Belt>, b: &Vec<Belt>) -> (r: Vec<Belt>)
    requires
        a.len() == b.len(),
    ensures
        r.len() == a.len(),
        forall|i: int| 0 <= i < a.len() ==> #[trigger] r[i].val() == fadd(a[i].val(), b[i].val()) && r[i].canonical(),
{
    par_zip_map(
        a,
        b,
        (|x: &Belt, y: &Belt| -> (s: Belt)
            ensures
                s.val() == fadd(x.val(), y.val()),
                s.canonical(),
        {
            x.add(*y)
        }),
    )
}

/// Element-wise field difference of two vectors of equal length.
pub fn batch_sub(a: &Vec<Belt>, b: &Vec<Belt>) -> (r: Vec<Belt>)
    requires
        a.len() == b.len(),
    ensures
        r.len() == a.len(),
        forall|i: int| 0 <= i < a.len() ==> #[trigger] r[i].val() == fsub(a[i].val(), b[i].val()) && r[i].canonical(),
{
    par_zip_map(
        a,
        b,
        (|x: &Belt, y: &Belt| -> (s: Belt)
            ensures
                s.val() == fsub(x.val(), y.val()),
                s.canonical(),
        {
            x.sub(*y)
        }),
    )
}

/// Element-wise field product of two vectors of equal length.
pub fn batch_mul(a: &Vec<Belt>, b: &Vec<Belt>) -> (r: Vec<Belt>)
    requires
        a.len() == b.len(),
    ensures
        r.len() == a.len(),
        forall|i: int| 0 <= i < a.len() ==> #[trigger] r[i].val() == fmul(a[i].val(), b[i].val()) && r[i].canonical(),
{
    par_zip_map(
        a,
        b,
        (|x: &Belt, y: &Belt| -> (s: Belt)
            ensures
                s.val() == fmul(x.val(), y.val()),
                s.canonical(),
        {
            x.mul(*y)
        }),
    )
}

/// Each base raised to the same exponent.
pub fn batch_pow(bases: &Vec<Belt>, exp: u64) -> (r: Vec<Belt>)
    ensures
        r.len() == bases.len(),
        forall|i: int| 0 <= i < bases.len() ==> #[trigger] r[i].val() == fpow(bases[i].val(), exp as nat) && r[i].canonical(),
{
    par_map(
        bases,
        (|x: &Belt| -> (s: Belt)
            ensures
                s.val() == fpow(x.val(), exp as nat),
                s.canonical(),
        {
            x.pow(exp)
        }),
    )
}

/// The sum of the products of corresponding elements, computed in parallel.
pub fn linear_combination(coeffs: &Vec<Belt>, values: &Vec<Belt>) -> (r: Belt)
    requires
        coeffs.len() == values.len(),
    ensures
        r.val() == dot(vals(coeffs@), vals(values@)),
        r.canonical(),
{
    par_dot(coeffs, values)
}

/// The sum of the products of corresponding elements, computed in order.
pub fn row_dot(row: &Vec<Belt>, v: &Vec<Belt>) -> (r: Belt)
    requires
        row.len() == v.len(),
    ensures
        r.val() == dot(vals(row@), vals(v@)),
        r.canonical(),
{
    let mut acc = Belt::zero();
    let mut i: usize = 0;
    while i < row.len()
        invariant
            row.len() == v.len(),
            i <= row.len(),
            acc.canonical(),
            acc.val() == dot(vals(row@).take(i as int), vals(v@).take(i as int)),
        decreases row.len() - i,
    {
        let t = row[i].mul(v[i]);
        acc = acc.add(t);
        proof {
            let ra = vals(row@);
            let va = vals(v@);
            assert(ra.take(i + 1).drop_last() =~= ra.take(i as int));
            assert(va.take(i + 1).drop_last() =~= va.take(i as int));
        }
        i = i + 1;
    }
    proof {
        assert(vals(row@).take(row.len() as int) =~= vals(row@));
        assert(vals(v@).take(v.len() as int) =~= vals(v@));
    }
    acc
}

/// The product of a matrix, given by its rows, and a vector; each row has the
/// vector's length.
pub fn matrix_vector_mul(rows: &Vec<Vec<Belt>>, v: &Vec<Belt>) -> (r: Vec<Belt>)
    requires
        forall|i: int| 0 <= i < rows.len() ==> #[trigger] rows[i].len() == v.len(),
    ensures
        r.len() == rows.len(),
        forall|i: int| 0 <= i < rows.len() ==> #[trigger] r[i].val() == dot(vals(rows[i]@), vals(v@)) && r[i].canonical(),
{
    par_map(
        rows,
        (|row: &Vec<Belt>| -> (s: Belt)
            requires
                row.len() == v.len(),
            ensures
                s.val() == dot(vals(row@), vals(v@)),
                s.canonical(),
        {
            row_dot(row, v)
        }),
    )
}

/// Horner evaluation of the polynomial with coefficients `coeffs` (constant term
/// first) at `x`.
pub fn evaluate_polynomial(coeffs: &Vec<Belt>, x: Belt) -> (r: Belt)
    ensures
        r.val() == eval(vals(coeffs@), x.val()),
        coeffs.len() == 1 ==> r == coeffs[0],
        coeffs.len() != 1 ==> r.canonical(),
{
    if coeffs.len() == 0 {
        return Belt::zero();
    }
    let n = coeffs.len();
    let mut result = coeffs[n - 1];
    let ghost c = vals(coeffs@);
    proof {
        assert(c.subrange(n - 1, n as int).drop_first() =~= Seq::<nat>::empty());
        assert(eval(Seq::<nat>::empty(), x.val()) == 0);
        assert(c.subrange(n - 1, n as int)[0] == c[n - 1]);
        assert(c[n - 1] == coeffs[n - 1].val());
        lemma_fmul_zero(x.val());
        lemma_fadd_zero(c[n - 1]);
        lemma_small_mod(c[n - 1], modulus());
        lemma_mod_bound_val(coeffs[n - 1]);
    }
    let mut i: usize = n - 1;
    while i > 0
        invariant
            n == coeffs.len(),
            c == vals(coeffs@),
            i < n,
            result.val() == eval(c.subrange(i as int, n as int), x.val()),
            i < n - 1 ==> result.canonical(),
            i == n - 1 ==> result == coeffs[n - 1],
        decreases i,
    {
        i = i - 1;
        let ghost prev = result.val();
        result = result.mul(x).add(coeffs[i]);
        proof {
            assert(c.subrange(i as int, n as int).drop_first() =~= c.subrange(i + 1, n as int));
            lemma_fmul_comm(prev, x.val());
            lemma_fadd_comm(fmul(prev, x.val()), coeffs[i as int].val());
            lemma_small_mod(c[i as int], modulus());
            lemma_mod_bound_val(coeffs[i as int]);
            lemma_reduce_args(c[i as int], fmul(x.val(), prev));
        }
    }
    proof {
        assert(c.subrange(0, n as int) =~= c);
    }
    result
}

/// The value of a word is below the modulus.
pub proof fn lemma_mod_bound_val(b: Belt)
    ensures
        b.val() < modulus(),
{
}

/// The polynomial evaluated at each point, in parallel.
pub fn poly_eval_batch(coeffs: &Vec<Belt>, points: &Vec<Belt>) -> (r: Vec<Belt>)
    ensures
        r.len() == points.len(),
        forall|i: int| 0 <= i < points.len() ==> #[trigger] r[i].val() == eval(vals(coeffs@), points[i].val())
            && (coeffs.len() == 1 ==> r[i] == coeffs[0]) && (coeffs.len() != 1 ==> r[i].canonical()),
{
    par_map(
        points,
        (|x: &Belt| -> (s: Belt)
            ensures
                s.val() == eval(vals(coeffs@), x.val()),
                coeffs.len() == 1 ==> s == coeffs[0],
                coeffs.len() != 1 ==> s.canonical(),
        {
            evaluate_polynomial(coeffs, *x)
        }),
    )
}

/// The product of a concatenation is the product of the products.
pub proof fn lemma_product_append(a: Seq<nat>, b: Seq<nat>)
    ensures
        product(a + b) == fmul(product(a), product(b)),
    decreases b.len(),
{
    if b.len() == 0 {
        assert(a + b =~= a);
        lemma_product_canonical(a);
        lemma_fmul_one_left(product(a));
        lemma_small_mod(product(a), modulus());
    } else {
        assert((a + b).drop_last() =~= a + b.drop_last());
        lemma_product_append(a, b.drop_last());
        lemma_fmul_assoc(product(a), product(b.drop_last()), b.last());
    }
}

/// A product is a canonical representative.
pub proof fn lemma_product_canonical(s: Seq<nat>)
    ensures
        product(s) < modulus(),
    decreases s.len(),
{
    if s.len() == 0 {
        lemma_small_mod(1, modulus());
    } else {
        lemma_canonical(product(s.drop_last()), s.last());
    }
}

/// The product of a one-element sequence.
pub proof fn lemma_product_single(x: nat)
    ensures
        product(seq![x]) == x % modulus(),
{
    assert(seq![x].drop_last() =~= Seq::<nat>::empty());
    assert(product(Seq::<nat>::empty()) == 1);
    assert(seq![x].last() == x);
    assert(product(seq![x]) == fmul(1, x));
    lemma_fmul_one_left(x);
}

/// The inverses of all elements at once, by Montgomery's trick: one inversion of the
/// product of all elements, then two passes of multiplications. Entry `i` of the
/// result is the product of the elements before `i`, times the inverse of the product
/// of all elements, times the product of the elements after `i`.
pub fn batch_invert(elements: &Vec<Belt>) -> (r: Vec<Belt>)
    ensures
        r.len() == elements.len(),
        forall|i: int| 0 <= i < elements.len() ==> (#[trigger] r[i]).val() == fmul(
            product(vals(elements@).take(i)),
            fmul(finv(product(vals(elements@))), product(vals(elements@).skip(i + 1))),
        ) && r[i].canonical(),
        (forall|j: int| 0 <= j < elements.len() ==> #[trigger] elements[j].val() != 0) ==> forall|i: int|
            0 <= i < elements.len() ==> (#[trigger] r[i]).val() == finv(elements[i].val()) && fmul(
                elements[i].val(),
                r[i].val(),
            ) == 1,
{
    let n = elements.len();
    if n == 0 {
        return Vec::new();
    }
    let ghost s = vals(elements@);
    let mut products: Vec<Belt> = Vec::new();
    products.push(elements[0]);
    proof {
        assert(s.take(1) =~= seq![s[0]]);
        lemma_product_single(s[0]);
        lemma_small_mod(s[0], modulus());
    }
    let mut i: usize = 1;
    while i < n
        invariant
            n == elements.len(),
            s == vals(elements@),
            1 <= i <= n,
            products.len() == i,
            forall|j: int| 0 <= j < i ==> (#[trigger] products[j]).val() == product(s.take(j + 1)),
        decreases n - i,
    {
        let next = products[i - 1].mul(elements[i]);
        proof {
            assert(s.take(i + 1).drop_last() =~= s.take(i as int));
        }
        products.push(next);
        i = i + 1;
    }
    proof {
        assert(s.take(n as int) =~= s);
    }
    let mut inv = products[n - 1].inv();
    let mut results: Vec<Belt> = Vec::new();
    let mut k: usize = 0;
    while k < n
        invariant
            k <= n,
            results.len() == k,
        decreases n - k,
    {
        results.push(Belt::zero());
        k = k + 1;
    }
    let ghost total_inv = finv(product(s));
    proof {
        assert(s.skip(n as int) =~= Seq::<nat>::empty());
        lemma_canonical(product(s), (modulus() - 2) as nat);
        lemma_fmul_one_left(total_inv);
        lemma_small_mod(total_inv, modulus());
    }
    let mut i: usize = n - 1;
    while i >= 1
        invariant
            n == elements.len(),
            s == vals(elements@),
            i < n,
            products.len() == n,
            results.len() == n,
            forall|j: int| 0 <= j < n ==> (#[trigger] products[j]).val() == product(s.take(j + 1)),
            inv.val() == fmul(total_inv, product(s.skip(i + 1))),
            forall|j: int| i < j < n ==> (#[trigger] results[j]).val() == fmul(
                product(s.take(j)),
                fmul(total_inv, product(s.skip(j + 1))),
            ) && results[j].canonical(),
            inv.canonical(),
        decreases i,
    {
        let ghost old_inv = inv.val();
        results.set(i, products[i - 1].mul(inv));
        inv = inv.mul(elements[i]);
        proof {
            assert(s.take((i - 1) + 1) =~= s.take(i as int));
            assert(s.skip(i as int) =~= seq![s[i as int]] + s.skip(i + 1));
            lemma_product_append(seq![s[i as int]], s.skip(i + 1));
            lemma_product_single(s[i as int]);
            lemma_small_mod(s[i as int], modulus());
            lemma_product_canonical(s.skip(i + 1));
            lemma_fmul_comm(s[i as int], product(s.skip(i + 1)));
            lemma_fmul_assoc(total_inv, product(s.skip(i + 1)), s[i as int]);
        }
        i = i - 1;
    }
    results.set(0, inv);
    proof {
        assert(s.take(0) =~= Seq::<nat>::empty());
        lemma_fmul_one_left(inv.val());
        lemma_small_mod(inv.val(), modulus());
        assert forall|j: int| 0 <= j < n implies (#[trigger] results[j]).val() == fmul(
            product(s.take(j)),
            fmul(total_inv, product(s.skip(j + 1))),
        ) && results[j].canonical() by {
            if j == 0 {
                lemma_canonical(total_inv, product(s.skip(1)));
            }
        }
        if forall|j: int| 0 <= j < n ==> #[trigger] elements[j].val() != 0 {
            assert forall|i: int| 0 <= i < n implies (#[trigger] results[i]).val() == finv(elements[i].val())
                && fmul(elements[i].val(), results[i].val()) == 1 by {
                assert forall|j: int| 0 <= j < s.len() implies 0 < #[trigger] s[j] < modulus() by {
                    assert(s[j] == elements[j].val());
                    assert(elements[j].val() != 0);
                }
                lemma_batch_invert_elementwise(s, i);
            }
        }
    }
    results
}


/// Whether `finv(x)` is an inverse of `x`: it is of every `x` that is not a multiple
/// of `P` (`lemma_inverse`).
pub open spec fn invertible(x: nat) -> bool {
    fmul(x, finv(x)) == 1
}

/// The candidate inverse of a product is the product of the candidate inverses.
pub proof fn lemma_finv_mul(x: nat, y: nat)
    ensures
        finv(fmul(x, y)) == fmul(finv(x), finv(y)),
{
    lemma_fpow_fmul(x, y, (modulus() - 2) as nat);
}

/// A product of invertible values is invertible.
pub proof fn lemma_invertible_mul(x: nat, y: nat)
    requires
        invertible(x),
        invertible(y),
    ensures
        invertible(fmul(x, y)),
{
    lemma_finv_mul(x, y);
    lemma_fmul_interchange(x, y, finv(x), finv(y));
    assert(fmul(1, 1) == 1) by {
        lemma_small_mod(1, modulus());
    }
    assert(fmul(fmul(x, y), finv(fmul(x, y))) == fmul(fmul(x, finv(x)), fmul(y, finv(y))));
}

/// A product of invertible values is invertible.
pub proof fn lemma_product_invertible(s: Seq<nat>)
    requires
        forall|j: int| 0 <= j < s.len() ==> invertible(#[trigger] s[j]),
    ensures
        invertible(product(s)),
    decreases s.len(),
{
    if s.len() == 0 {
        lemma_fpow_one((modulus() - 2) as nat);
        lemma_small_mod(1, modulus());
    } else {
        lemma_product_invertible(s.drop_last());
        lemma_invertible_mul(product(s.drop_last()), s.last());
    }
}

/// Montgomery's batch inversion gives each element's own inverse when no element is
/// zero: the closed form that `batch_invert` computes at index `i` is `finv(s[i])`,
/// and `s[i]` times it is 1.
pub proof fn lemma_batch_invert_elementwise(s: Seq<nat>, i: int)
    requires
        0 <= i < s.len(),
        forall|j: int| 0 <= j < s.len() ==> 0 < #[trigger] s[j] < modulus(),
    ensures
        fmul(product(s.take(i)), fmul(finv(product(s)), product(s.skip(i + 1)))) == finv(s[i]),
        fmul(s[i], finv(s[i])) == 1,
{
    assert forall|j: int| 0 <= j < s.len() implies invertible(#[trigger] s[j]) by {
        lemma_small_mod(s[j], modulus());
        lemma_inverse(s[j]);
    }
    let pre = s.take(i);
    let post = s.skip(i + 1);
    let x = s[i];
    assert(s =~= pre + (seq![x] + post));
    assert(forall|j: int| 0 <= j < pre.len() ==> pre[j] == s[j]);
    assert(forall|j: int| 0 <= j < post.len() ==> post[j] == s[i + 1 + j]);
    lemma_product_invertible(pre);
    lemma_product_invertible(post);
    let a = product(pre);
    let b = product(post);
    lemma_product_append(pre, seq![x] + post);
    lemma_product_append(seq![x], post);
    lemma_product_single(x);
    lemma_product_canonical(pre);
    lemma_product_canonical(post);
    lemma_small_mod(x, modulus());
    // finv(a * (x * b)) == fa * (fx * fb)
    lemma_finv_mul(a, fmul(x, b));
    lemma_finv_mul(x, b);
    let fa = finv(a);
    let fx = finv(x);
    let fb = finv(b);
    lemma_fpow_canonical(x, (modulus() - 2) as nat);
    lemma_fpow_canonical(a, (modulus() - 2) as nat);
    // (fa * (fx * fb)) * b == fa * fx
    lemma_fmul_assoc(fx, fb, b);
    lemma_fmul_comm(fb, b);
    lemma_fmul_comm(fx, 1);
    lemma_fmul_one_left(fx);
    lemma_small_mod(fx, modulus());
    lemma_fmul_assoc(fa, fmul(fx, fb), b);
    // a * (fa * fx) == fx
    lemma_fmul_assoc(a, fa, fx);
    lemma_fmul_one_left(fx);
}

} // verus!
