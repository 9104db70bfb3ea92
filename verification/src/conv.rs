//! The product through transforms is the schoolbook product: evaluation turns the
//! product of polynomials into the product of values, and the inverse transform
//! recovers the coefficients from the values.
use crate::batch::eval;
use crate::dft::{
    canonical_seq, dft, lemma_eval_sum, lemma_fft_is_dft,
    lemma_inverse_transform, lemma_pow2_divides, minus_one,
};
use crate::fft::{fft_spec, lemma_two_pow_mono, lemma_two_pow_pos, two_pow};
use crate::field::{
    fmul, fpow, lemma_canonical, lemma_fadd_zero, lemma_fmul_assoc, lemma_fmul_comm,
    lemma_fmul_zero, lemma_fpow_add, lemma_fpow_mul, modulus,
};
use crate::poly_mul::{
    conv_partial, conv_term, fft_mul_spec, mul_root, multiply_spec, next_pow2, npow, pad, pointwise,
    poly_mul_spec, root_of_unity, FFT_MUL_THRESHOLD, MAX_FFT_SIZE,
};
use crate::roots::lemma_seven_half_order;
use crate::sums::{
    fsum, lemma_fsum_canonical, lemma_fsum_ext, lemma_fsum_scale, lemma_fsum_split,
    lemma_fsum_swap, lemma_fsum_zero,
};
use vstd::arithmetic::div_mod::lemma_small_mod;
use vstd::prelude::*;

verus! {

/// A coefficient of the product is the sum of its terms.
pub proof fn lemma_conv_partial_sum(p: Seq<nat>, q: Seq<nat>, k: int, rows: nat)
    ensures
        conv_partial(p, q, k, rows) == fsum(|i: nat| conv_term(p, q, k, i as int), rows),
    decreases rows,
{
    if rows > 0 {
        lemma_conv_partial_sum(p, q, k, (rows - 1) as nat);
    }
}

/// Trailing zeros do not change a polynomial's value.
pub proof fn lemma_eval_pad(a: Seq<nat>, n: nat, x: nat)
    requires
        a.len() <= n,
    ensures
        eval(pad(a, n), x) == eval(a, x),
    decreases a.len(), n,
{
    let z = Seq::new((n - a.len()) as nat, |i: int| 0nat);
    if a.len() == 0 {
        assert(pad(a, n) =~= z);
        lemma_eval_zeros(z, x);
    } else {
        let t = a.drop_first();
        lemma_eval_pad(t, (n - 1) as nat, x);
        assert(pad(a, n).drop_first() =~= pad(t, (n - 1) as nat));
        assert(pad(a, n)[0] == a[0]);
    }
}

/// A polynomial with zero coefficients is zero.
proof fn lemma_eval_zeros(z: Seq<nat>, x: nat)
    requires
        forall|i: int| 0 <= i < z.len() ==> z[i] == 0,
    ensures
        eval(z, x) == 0,
    decreases z.len(),
{
    if z.len() > 0 {
        lemma_eval_zeros(z.drop_first(), x);
        lemma_fmul_zero(x);
        lemma_small_mod(0, modulus());
    }
}

/// `(a b)(c d) == (a c)(b d)`.
pub proof fn lemma_fmul_interchange(a: nat, b: nat, c: nat, d: nat)
    ensures
        fmul(fmul(a, b), fmul(c, d)) == fmul(fmul(a, c), fmul(b, d)),
{
    lemma_fmul_assoc(fmul(a, b), c, d);
    lemma_fmul_assoc(a, b, c);
    lemma_fmul_comm(b, c);
    lemma_fmul_assoc(a, c, b);
    lemma_fmul_assoc(fmul(a, c), b, d);
}

/// Term `(i, k)` of the product's value at `x`: `x^k` times term `i` of coefficient `k`.
pub open spec fn product_term(p: Seq<nat>, q: Seq<nat>, x: nat, i: nat, k: nat) -> nat {
    fmul(fpow(x, k), conv_term(p, q, k as int, i as int))
}

/// The terms of coefficient `i` of `p` sum to `p_i x^i` times the value of `q`.
proof fn lemma_product_row(p: Seq<nat>, q: Seq<nat>, x: nat, i: nat)
    requires
        p.len() >= 1,
        q.len() >= 1,
        i < p.len(),
    ensures
        fsum(|k: nat| product_term(p, q, x, i, k), (p.len() + q.len() - 1) as nat) == fmul(
            eval(q, x),
            fmul(p[i as int], fpow(x, i)),
        ),
{
    let len = (p.len() + q.len() - 1) as nat;
    let qn = q.len();
    let g = |k: nat| product_term(p, q, x, i, k);
    let c = fmul(p[i as int], fpow(x, i));
    // below i and from i + |q| on, the terms vanish
    assert forall|k: nat| k < i implies #[trigger] g(k) == 0 by {
        lemma_fmul_zero(fpow(x, k));
    }
    lemma_fsum_zero(g, i);
    let g1 = |l: nat| g(i + l);
    let rest = (len - i - qn) as nat;
    assert forall|l: nat| l < rest implies #[trigger] g1(qn + l) == 0 by {
        lemma_fmul_zero(fpow(x, i + qn + l));
    }
    lemma_fsum_zero(|l: nat| g1(qn + l), rest);
    lemma_fsum_split(g, i, (len - i) as nat);
    assert(i + (len - i) as nat == len);
    lemma_fsum_split(g1, qn, rest);
    assert(qn + rest == (len - i) as nat);
    lemma_fsum_canonical(g1, qn);
    lemma_fadd_zero(fsum(g1, qn));
    lemma_small_mod(fsum(g1, qn), modulus());
    lemma_fsum_canonical(|l: nat| g(i + l), (len - i) as nat);
    lemma_small_mod(fsum(|l: nat| g(i + l), (len - i) as nat), modulus());
    // the middle terms are c times the terms of q's value
    let fq = |l: nat| fmul(q[l as int], fpow(x, l));
    assert forall|l: nat| l < qn implies #[trigger] g1(l) == fmul(c, fq(l)) by {
        lemma_fpow_add(x, i, l);
        assert(conv_term(p, q, (i + l) as int, i as int) == fmul(p[i as int], q[l as int]));
        lemma_fmul_interchange(fpow(x, i), fpow(x, l), p[i as int], q[l as int]);
        lemma_fmul_comm(fpow(x, i), p[i as int]);
        lemma_fmul_comm(fpow(x, l), q[l as int]);
    }
    lemma_fsum_ext(g1, |l: nat| fmul(c, fq(l)), qn);
    lemma_fsum_scale(c, fq, qn);
    lemma_eval_sum(q, x);
    lemma_fmul_comm(c, eval(q, x));
}

/// The value of the product is the product of the values.
pub proof fn lemma_eval_product(p: Seq<nat>, q: Seq<nat>, x: nat)
    requires
        p.len() >= 1,
        q.len() >= 1,
    ensures
        eval(poly_mul_spec(p, q), x) == fmul(eval(p, x), eval(q, x)),
{
    let pm = poly_mul_spec(p, q);
    let len = (p.len() + q.len() - 1) as nat;
    let pn = p.len();
    lemma_eval_sum(pm, x);
    let g = |i: nat, k: nat| product_term(p, q, x, i, k);
    assert forall|k: nat| k < len implies #[trigger] fmul(pm[k as int], fpow(x, k)) == fsum(
        |i: nat| g(i, k),
        pn,
    ) by {
        let ct = |i: nat| conv_term(p, q, k as int, i as int);
        lemma_conv_partial_sum(p, q, k as int, pn);
        lemma_fsum_scale(fpow(x, k), ct, pn);
        lemma_fmul_comm(pm[k as int], fpow(x, k));
        lemma_fsum_ext(|i: nat| fmul(fpow(x, k), ct(i)), |i: nat| g(i, k), pn);
    }
    lemma_fsum_ext(|k: nat| fmul(pm[k as int], fpow(x, k)), |k: nat| fsum(|i: nat| g(i, k), pn), len);
    lemma_fsum_swap(g, pn, len);
    let fp = |i: nat| fmul(p[i as int], fpow(x, i));
    let eq = eval(q, x);
    assert forall|i: nat| i < pn implies fsum(|k: nat| g(i, k), len) == fmul(eq, #[trigger] fp(i)) by {
        lemma_product_row(p, q, x, i);
        lemma_fsum_ext(|k: nat| g(i, k), |k: nat| product_term(p, q, x, i, k), len);
    }
    lemma_fsum_ext(|i: nat| fsum(|k: nat| g(i, k), len), |i: nat| fmul(eq, fp(i)), pn);
    lemma_fsum_scale(eq, fp, pn);
    lemma_eval_sum(p, x);
    lemma_fmul_comm(eq, eval(p, x));
}


/// The coefficients of a product of canonical polynomials are canonical.
pub proof fn lemma_product_canonical(p: Seq<nat>, q: Seq<nat>)
    ensures
        canonical_seq(poly_mul_spec(p, q)),
{
    assert forall|k: int| 0 <= k < poly_mul_spec(p, q).len() implies #[trigger] poly_mul_spec(
        p,
        q,
    )[k] < modulus() by {
        if p.len() > 0 {
            lemma_canonical(
                conv_partial(p, q, k, (p.len() - 1) as nat),
                conv_term(p, q, k, p.len() - 1),
            );
        }
    }
}

/// The product through transforms of size `2^m`, with a root whose power `2^(m-1)`
/// is `-1`, is the schoolbook product, for canonical non-empty factors whose product
/// fits in the transform.
pub proof fn lemma_fft_mul_is_product(p: Seq<nat>, q: Seq<nat>, m: nat, w: nat)
    requires
        p.len() >= 1,
        q.len() >= 1,
        canonical_seq(p),
        canonical_seq(q),
        m <= 32,
        p.len() + q.len() - 1 <= two_pow(m),
        m >= 1 ==> fpow(w, two_pow((m - 1) as nat)) == minus_one(),
    ensures
        fft_mul_spec(p, q, two_pow(m), w) == poly_mul_spec(p, q),
{
    let n = two_pow(m);
    let pm = poly_mul_spec(p, q);
    let r = pad(pm, n);
    let pp = pad(p, n);
    let qp = pad(q, n);
    lemma_product_canonical(p, q);
    assert(canonical_seq(pp));
    assert(canonical_seq(qp));
    assert(canonical_seq(r));
    lemma_fft_is_dft(pp, w, m);
    lemma_fft_is_dft(qp, w, m);
    lemma_fft_is_dft(r, w, m);
    let c = pointwise(fft_spec(pp, w), fft_spec(qp, w));
    assert forall|k: int| 0 <= k < n implies #[trigger] c[k] == fft_spec(r, w)[k] by {
        let x = fpow(w, k as nat);
        lemma_eval_pad(p, n, x);
        lemma_eval_pad(q, n, x);
        lemma_eval_pad(pm, n, x);
        lemma_eval_product(p, q, x);
    }
    assert(c =~= fft_spec(r, w));
    lemma_inverse_transform(r, w, m);
    let back = Seq::new(
        r.len(),
        |k: int| fmul(fft_spec(fft_spec(r, w), crate::field::finv(w))[k], crate::field::finv(r.len() % modulus())),
    );
    assert forall|k: int| 0 <= k < pm.len() implies #[trigger] fft_mul_spec(p, q, n, w)[k] == pm[k] by {
        assert(back[k] == r[k]);
    }
    assert(fft_mul_spec(p, q, n, w) =~= pm);
}


/// Doubling from `2^k` reaches a power of two `2^m` that is at least `x`, and `2^(m-1)`
/// is below `x` where there was a doubling.
pub proof fn lemma_npow_shape(x: nat, k: nat) -> (m: nat)
    ensures
        m >= k,
        npow(x, two_pow(k)) == two_pow(m),
        two_pow(m) >= x,
        m > k ==> two_pow((m - 1) as nat) < x,
    decreases (if two_pow(k) < x { x - two_pow(k) } else { 0 }),
{
    lemma_two_pow_pos(k);
    if two_pow(k) >= x {
        k
    } else {
        assert(two_pow(k + 1) == 2 * two_pow(k));
        let m = lemma_npow_shape(x, k + 1);
        m
    }
}

/// The root `multiply_fft` uses for a size `2^m`, `1 <= m <= 32`, has `-1` as its
/// power `2^(m-1)`.
pub proof fn lemma_mul_root_half(m: nat)
    requires
        1 <= m <= 32,
    ensures
        fpow(mul_root(two_pow(m)), two_pow((m - 1) as nat)) == minus_one(),
{
    let n = two_pow(m);
    let h = two_pow((m - 1) as nat);
    let q = lemma_pow2_divides(m);
    lemma_two_pow_pos((m - 1) as nat);
    assert(n == 2 * h);
    reveal_with_fuel(two_pow, 33);
    lemma_two_pow_mono(m, 32);
    assert(n <= MAX_FFT_SIZE);
    vstd::arithmetic::div_mod::lemma_div_multiples_vanish(q as int, n as int);
    vstd::arithmetic::mul::lemma_mul_is_commutative(n as int, q as int);
    assert(((modulus() - 1) as nat / n) as nat == q);
    lemma_fpow_mul(7, q, h);
    assert(q * h == ((modulus() - 1) as nat / 2) as nat) by (nonlinear_arith)
        requires
            (modulus() - 1) as nat == n * q,
            n == 2 * h,
    ;
    lemma_seven_half_order();
}

/// The root that `find_root_of_unity` gives for a size `2^m`, `1 <= m <= 32`, has
/// order exactly `2^m`: its power `2^(m-1)` is `-1` and its power `2^m` is 1.
pub proof fn lemma_root_of_unity_order(m: nat)
    requires
        1 <= m <= 32,
    ensures
        fpow(root_of_unity(two_pow(m)), two_pow((m - 1) as nat)) == minus_one(),
        fpow(root_of_unity(two_pow(m)), two_pow(m)) == 1,
{
    lemma_mul_root_half(m);
    reveal_with_fuel(two_pow, 33);
    lemma_two_pow_mono(m, 32);
    crate::dft::lemma_root_facts(root_of_unity(two_pow(m)), m);
}

/// What `multiply_fft` computes is the schoolbook product, for canonical non-empty
/// factors whose product has at most `MAX_FFT_SIZE` coefficients, below the
/// threshold as above it.
pub proof fn lemma_multiply_fft_is_naive(p: Seq<nat>, q: Seq<nat>)
    requires
        p.len() >= 1,
        q.len() >= 1,
        canonical_seq(p),
        canonical_seq(q),
        p.len() + q.len() - 1 <= MAX_FFT_SIZE,
    ensures
        fft_mul_spec(
            p,
            q,
            next_pow2((p.len() + q.len() - 1) as nat),
            mul_root(next_pow2((p.len() + q.len() - 1) as nat)),
        ) == poly_mul_spec(p, q),
{
    let len = (p.len() + q.len() - 1) as nat;
    assert(two_pow(0) == 1);
    let m = lemma_npow_shape(len, 0);
    reveal_with_fuel(two_pow, 33);
    if m > 32 {
        lemma_two_pow_mono(32, (m - 1) as nat);
    }
    if m >= 1 {
        lemma_mul_root_half(m);
    }
    lemma_fft_mul_is_product(p, q, m, mul_root(two_pow(m)));
}

/// Multiplication through transforms computes the schoolbook product: for canonical
/// non-empty factors whose product has at most `MAX_FFT_SIZE` coefficients, what
/// `multiply_polynomials` computes is the schoolbook product, whichever way it takes.
pub proof fn lemma_multiply_is_product(p: Seq<nat>, q: Seq<nat>)
    requires
        p.len() >= 1,
        q.len() >= 1,
        canonical_seq(p),
        canonical_seq(q),
        p.len() + q.len() - 1 <= MAX_FFT_SIZE,
    ensures
        multiply_spec(p, q) == poly_mul_spec(p, q),
{
    let len = (p.len() + q.len() - 1) as nat;
    if len >= FFT_MUL_THRESHOLD {
        lemma_multiply_fft_is_naive(p, q);
    }
}

} // verus!
