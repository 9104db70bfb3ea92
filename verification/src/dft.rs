//! What the transforms compute: evaluations of the input polynomial at the powers of
//! the root (when the root has order the length), and the inverse transform undoes
//! the transform.
use crate::batch::eval;
use crate::fft::{evens, fft_spec, lemma_two_pow_add, lemma_two_pow_mono, lemma_two_pow_pos, odds, two_pow};
use crate::field::{
    fadd, finv, fmul, fpow, fsub, lemma_canonical, lemma_fmul_assoc, lemma_fmul_comm,
    lemma_fmul_one_left, lemma_fpow_add, lemma_fpow_canonical, lemma_fpow_fmul, lemma_fpow_mul,
    lemma_reduce_args, modulus, lemma_fsub_int, lemma_fmul_zero, lemma_fmul_distrib,
};
use crate::roots::{lemma_fpow_one, lemma_two_order};
use crate::sums::{
    fsum, lemma_fsum_add, lemma_fsum_canonical, lemma_fsum_ext, lemma_fsum_pairs,
    lemma_fsum_scale, lemma_fsum_single, lemma_fsum_split, lemma_fsum_swap,
};
use vstd::arithmetic::div_mod::lemma_small_mod;
use vstd::prelude::*;

verus! {

/// The discrete Fourier transform of `a` with root `w`: the polynomial with
/// coefficients `a` evaluated at `w^0, w^1, ..., w^(n-1)`.
pub open spec fn dft(a: Seq<nat>, w: nat) -> Seq<nat> {
    Seq::new(a.len(), |k: int| eval(a, fpow(w, k as nat)))
}

/// Whether every entry is a canonical representative.
pub open spec fn canonical_seq(a: Seq<nat>) -> bool {
    forall|i: int| 0 <= i < a.len() ==> #[trigger] a[i] < modulus()
}

/// `x^2` is `x * x`.
pub proof fn lemma_fpow_two(x: nat)
    ensures
        fpow(x, 2) == fmul(x, x),
{
    assert(fpow(x, 0) == 1);
    assert(fpow(x, 1) == fmul(x, 1));
    lemma_fmul_one_left(x);
    assert(fpow(x, 2) == fmul(x, fpow(x, 1)));
    lemma_reduce_args(x, x);
}

/// Horner evaluation is the sum of the coefficients times the powers.
pub proof fn lemma_eval_sum(a: Seq<nat>, x: nat)
    ensures
        eval(a, x) == fsum(|i: nat| fmul(a[i as int], fpow(x, i)), a.len()),
    decreases a.len(),
{
    let f = |i: nat| fmul(a[i as int], fpow(x, i));
    if a.len() == 0 {
    } else {
        let t = a.drop_first();
        let n1 = (a.len() - 1) as nat;
        lemma_eval_sum(t, x);
        let ft = |i: nat| fmul(t[i as int], fpow(x, i));
        lemma_fsum_scale(x, ft, n1);
        assert forall|i: nat| i < n1 implies #[trigger] fmul(x, ft(i)) == f(1 + i) by {
            assert(t[i as int] == a[i as int + 1]);
            lemma_fmul_assoc(x, t[i as int], fpow(x, i));
            lemma_fmul_comm(x, t[i as int]);
            lemma_fmul_assoc(t[i as int], x, fpow(x, i));
            assert(fpow(x, i + 1) == fmul(x, fpow(x, i)));
            assert(1 + i == i + 1);
        }
        lemma_fsum_ext(|i: nat| fmul(x, ft(i)), |i: nat| f(1 + i), n1);
        lemma_fsum_split(f, 1, n1);
        assert(1 + n1 == a.len());
        assert(fsum(f, 0) == 0);
        assert(fsum(f, 1) == fadd(0, f(0)));
        lemma_canonical(a[0], fpow(x, 0));
        lemma_small_mod(f(0), modulus());
        assert(fpow(x, 0) == 1);
        lemma_fmul_one_left(a[0]);
        lemma_reduce_args(a[0], fmul(x, eval(t, x)));
    }
}

/// Evaluation at `x` splits into the even coefficients at `x^2` and `x` times the
/// odd ones at `x^2`.
pub proof fn lemma_eval_split(a: Seq<nat>, x: nat)
    requires
        a.len() % 2 == 0,
    ensures
        eval(a, x) == fadd(eval(evens(a), fmul(x, x)), fmul(x, eval(odds(a), fmul(x, x)))),
{
    let h = a.len() / 2;
    let y = fmul(x, x);
    let f = |i: nat| fmul(a[i as int], fpow(x, i));
    lemma_eval_sum(a, x);
    assert(a.len() == 2 * h);
    lemma_fsum_pairs(f, h);
    let fe = |j: nat| f(2 * j);
    let fo = |j: nat| f(2 * j + 1);
    lemma_fsum_ext(|j: nat| fadd(f(2 * j), f(2 * j + 1)), |j: nat| fadd(fe(j), fo(j)), h);
    lemma_fsum_add(fe, fo, h);
    let e = evens(a);
    let o = odds(a);
    lemma_eval_sum(e, y);
    lemma_eval_sum(o, y);
    lemma_fpow_two(x);
    assert forall|j: nat| j < h implies #[trigger] fe(j) == fmul(e[j as int], fpow(y, j)) by {
        lemma_fpow_mul(x, 2, j);
    }
    lemma_fsum_ext(fe, |j: nat| fmul(e[j as int], fpow(y, j)), h);
    let go = |j: nat| fmul(o[j as int], fpow(y, j));
    assert forall|j: nat| j < h implies #[trigger] fo(j) == fmul(x, go(j)) by {
        lemma_fpow_mul(x, 2, j);
        assert(fpow(x, 2 * j + 1) == fmul(x, fpow(x, 2 * j)));
        lemma_fmul_assoc(x, o[j as int], fpow(y, j));
        lemma_fmul_comm(x, o[j as int]);
        lemma_fmul_assoc(o[j as int], x, fpow(y, j));
    }
    lemma_fsum_ext(fo, |j: nat| fmul(x, go(j)), h);
    lemma_fsum_scale(x, go, h);
}


/// `-1` in the field.
pub open spec fn minus_one() -> nat {
    (modulus() - 1) as nat
}

/// Multiplying by `-1` negates.
pub proof fn lemma_mul_minus_one(x: nat)
    ensures
        fmul(x, minus_one()) == fsub(0, x),
        fmul(minus_one(), x) == fsub(0, x),
{
    let m = modulus() as int;
    lemma_fsub_int(0, x);
    lemma_fmul_comm(x, minus_one());
    assert(x * minus_one() == m * x + (-(x as int))) by (nonlinear_arith)
        requires
            minus_one() == m - 1,
    ;
    vstd::arithmetic::div_mod::lemma_mod_multiples_vanish(x as int, -(x as int), m);
}

/// `(-1) * (-1) == 1`.
pub proof fn lemma_minus_one_squared()
    ensures
        fmul(minus_one(), minus_one()) == 1,
{
    let m = modulus() as int;
    assert(minus_one() * minus_one() == m * (m - 2) + 1) by (nonlinear_arith)
        requires
            minus_one() == m - 1,
    ;
    vstd::arithmetic::div_mod::lemma_mod_multiples_vanish(m - 2, 1, m);
    lemma_small_mod(1, modulus());
}

/// Adding a negation subtracts.
pub proof fn lemma_fadd_neg(e: nat, z: nat)
    ensures
        fadd(e, fsub(0, z)) == fsub(e, z),
{
    let m = modulus() as int;
    lemma_fsub_int(0, z);
    lemma_fsub_int(e, z);
    vstd::arithmetic::div_mod::lemma_add_mod_noop(e as int, -(z as int), m);
    vstd::arithmetic::div_mod::lemma_mod_twice(e as int, m);
    vstd::arithmetic::div_mod::lemma_add_mod_noop(e as int, (-(z as int)) % m, m);
    vstd::arithmetic::div_mod::lemma_mod_twice(-(z as int), m);
}

/// When `w^h == -1`, the powers of `w` from `h` on are the negated earlier ones, and
/// the powers of `w^2` repeat with period `h`.
pub proof fn lemma_half_turn(w: nat, h: nat, j: nat)
    requires
        fpow(w, h) == minus_one(),
    ensures
        fpow(w, j + h) == fsub(0, fpow(w, j)),
        fpow(fmul(w, w), j + h) == fpow(fmul(w, w), j),
{
    lemma_fpow_add(w, j, h);
    lemma_mul_minus_one(fpow(w, j));
    let w2 = fmul(w, w);
    lemma_fpow_add(w2, j, h);
    lemma_fpow_fmul(w, w, h);
    lemma_minus_one_squared();
    lemma_fpow_canonical(w2, j);
    lemma_small_mod(fpow(w2, j), modulus());
    assert(fmul(fpow(w2, j), 1) == fpow(w2, j));
}

/// A transform of a canonical input of length `2^m` evaluates the input at the powers
/// of the root, provided the root's power `2^(m-1)` is `-1` (the root then has order
/// exactly `2^m`).
pub proof fn lemma_fft_is_dft(a: Seq<nat>, w: nat, m: nat)
    requires
        a.len() == two_pow(m),
        canonical_seq(a),
        m >= 1 ==> fpow(w, two_pow((m - 1) as nat)) == minus_one(),
    ensures
        fft_spec(a, w) == dft(a, w),
    decreases m,
{
    if m == 0 {
        assert(a.len() == 1);
        assert(fpow(w, 0) == 1);
        assert(a.drop_first().len() == 0);
        assert(eval(a.drop_first(), 1) == 0);
        lemma_fmul_zero(1);
        lemma_small_mod(a[0], modulus());
        assert(eval(a, 1) == a[0]);
        assert(fft_spec(a, w) =~= dft(a, w));
    } else {
        let m1 = (m - 1) as nat;
        let h = two_pow(m1);
        lemma_two_pow_pos(m1);
        assert(a.len() == 2 * h);
        let w2 = fmul(w, w);
        let e = evens(a);
        let o = odds(a);
        if m1 >= 1 {
            let h2 = two_pow((m1 - 1) as nat);
            assert(h == 2 * h2);
            lemma_fpow_fmul(w, w, h2);
            lemma_fpow_add(w, h2, h2);
        }
        lemma_fft_is_dft(e, w2, m1);
        lemma_fft_is_dft(o, w2, m1);
        let fe = fft_spec(e, w2);
        let fo = fft_spec(o, w2);
        assert forall|k: int| 0 <= k < a.len() implies #[trigger] fft_spec(a, w)[k] == dft(a, w)[k] by {
            let x = fpow(w, k as nat);
            lemma_eval_split(a, x);
            if k < h {
                lemma_fpow_fmul(w, w, k as nat);
            } else {
                let j = (k - h) as nat;
                lemma_half_turn(w, h, j);
                assert(k as nat == j + h);
                let u = fpow(w, j);
                // x == -u, so x * x == u * u and x * v == -(u * v)
                lemma_fpow_fmul(w, w, k as nat);
                lemma_fpow_fmul(w, w, j);
                let ov = eval(o, fmul(x, x));
                lemma_mul_minus_one(u);
                lemma_fmul_assoc(u, minus_one(), ov);
                lemma_fmul_comm(minus_one(), ov);
                lemma_fmul_assoc(u, ov, minus_one());
                lemma_mul_minus_one(fmul(u, ov));
                lemma_fadd_neg(eval(e, fmul(x, x)), fmul(u, ov));
            }
        }
        assert(fft_spec(a, w) =~= dft(a, w));
    }
}


/// `1 + x + x^2 + ... + x^(n-1)`.
pub open spec fn gsum(x: nat, n: nat) -> nat {
    fsum(|k: nat| fpow(x, k), n)
}

/// `1 + ... + x^(2n-1) == (1 + x^n)(1 + ... + x^(n-1))`.
pub proof fn lemma_gsum_double(x: nat, n: nat)
    ensures
        gsum(x, 2 * n) == fmul(fadd(1, fpow(x, n)), gsum(x, n)),
{
    let f = |k: nat| fpow(x, k);
    let s = gsum(x, n);
    let c = fpow(x, n);
    lemma_fsum_split(f, n, n);
    assert(n + n == 2 * n);
    assert forall|k: nat| k < n implies #[trigger] f(n + k) == fmul(c, f(k)) by {
        lemma_fpow_add(x, n, k);
    }
    lemma_fsum_ext(|k: nat| f(n + k), |k: nat| fmul(c, f(k)), n);
    lemma_fsum_scale(c, f, n);
    // s + c * s == (1 + c) * s
    lemma_fsum_canonical(f, n);
    lemma_fmul_distrib(s, 1, c);
    lemma_fmul_comm(s, fadd(1, c));
    lemma_fmul_comm(s, c);
    lemma_fmul_comm(s, 1);
    lemma_fmul_one_left(s);
    lemma_small_mod(s, modulus());
}

/// The geometric sum over `2^m` terms vanishes when some `x^(2^t)`, `t < m`, is `-1`.
pub proof fn lemma_gsum_vanishes(x: nat, m: nat, t: nat)
    requires
        t < m,
        fpow(x, two_pow(t)) == minus_one(),
    ensures
        gsum(x, two_pow(m)) == 0,
    decreases m,
{
    let m1 = (m - 1) as nat;
    lemma_gsum_double(x, two_pow(m1));
    if t == m1 {
        assert(fadd(1, minus_one()) == 0) by {
            vstd::arithmetic::div_mod::lemma_mod_self_0(modulus() as int);
        }
        lemma_fmul_zero(gsum(x, two_pow(m1)));
    } else {
        lemma_gsum_vanishes(x, m1, t);
        lemma_fmul_zero(fadd(1, fpow(x, two_pow(m1))));
    }
}

/// `(-1)^o == -1` for odd `o`.
pub proof fn lemma_minus_one_odd_pow(o: nat)
    requires
        o % 2 == 1,
    ensures
        fpow(minus_one(), o) == minus_one(),
    decreases o,
{
    if o == 1 {
        assert(fpow(minus_one(), 0) == 1);
        lemma_small_mod(minus_one(), modulus());
        assert(fpow(minus_one(), 1) == fmul(minus_one(), 1));
    } else {
        let o2 = (o - 2) as nat;
        lemma_minus_one_odd_pow(o2);
        lemma_fpow_add(minus_one(), 2, o2);
        assert(2 + o2 == o);
        lemma_fpow_two(minus_one());
        lemma_minus_one_squared();
        lemma_fmul_one_left(minus_one());
        lemma_small_mod(minus_one(), modulus());
    }
}

/// Every positive `d` is a power of two times an odd number.
pub proof fn lemma_odd_part(d: nat) -> (so: (nat, nat))
    requires
        d > 0,
    ensures
        d == two_pow(so.0) * so.1,
        so.1 % 2 == 1,
    decreases d,
{
    if d % 2 == 1 {
        assert(two_pow(0) == 1);
        assert(d == two_pow(0) * d);
        (0nat, d)
    } else {
        let (s, o) = lemma_odd_part(d / 2);
        assert(two_pow(s + 1) == 2 * two_pow(s));
        assert(d == 2 * (two_pow(s) * o));
        vstd::arithmetic::mul::lemma_mul_is_associative(2, two_pow(s) as int, o as int);
        let s1 = s + 1;
        assert(d == two_pow(s1) * o);
        (s1, o)
    }
}

/// When `w^(2^(m-1)) == -1`, the sum of the powers of `w^d` over `2^m` terms vanishes
/// for `0 < d < 2^m`.
pub proof fn lemma_gsum_root_vanishes(w: nat, m: nat, d: nat)
    requires
        m >= 1,
        fpow(w, two_pow((m - 1) as nat)) == minus_one(),
        0 < d < two_pow(m),
    ensures
        gsum(fpow(w, d), two_pow(m)) == 0,
{
    let (s, o) = lemma_odd_part(d);
    lemma_two_pow_pos(s);
    if s >= m {
        lemma_two_pow_mono(m, s);
        assert(two_pow(s) * o >= two_pow(s)) by (nonlinear_arith)
            requires
                o >= 1,
        ;
    }
    assert(s < m);
    let t = (m - 1 - s) as nat;
    lemma_two_pow_add(s, t);
    assert(s + t == (m - 1) as nat);
    let h = two_pow((m - 1) as nat);
    // (w^d)^(2^t) == w^(o * 2^s * 2^t) == (w^h)^o == -1
    lemma_fpow_mul(w, d, two_pow(t));
    assert(d * two_pow(t) == h * o) by (nonlinear_arith)
        requires
            d == two_pow(s) * o,
            h == two_pow(s) * two_pow(t),
    ;
    lemma_fpow_mul(w, h, o);
    lemma_minus_one_odd_pow(o);
    lemma_gsum_vanishes(fpow(w, d), m, t);
}


/// `2^m` divides `P - 1` for `m <= 32`.
pub proof fn lemma_pow2_divides(m: nat) -> (q: nat)
    requires
        m <= 32,
    ensures
        (modulus() - 1) as nat == two_pow(m) * q,
        q >= 1,
{
    reveal_with_fuel(two_pow, 33);
    lemma_two_pow_add(m, (32 - m) as nat);
    assert(m + (32 - m) as nat == 32);
    lemma_two_pow_pos((32 - m) as nat);
    let q = two_pow((32 - m) as nat) * 0xffff_ffffnat;
    assert((modulus() - 1) as nat == two_pow(32) * 0xffff_ffffnat);
    vstd::arithmetic::mul::lemma_mul_is_associative(
        two_pow(m) as int,
        two_pow((32 - m) as nat) as int,
        0xffff_ffffint,
    );
    assert(q >= 1) by (nonlinear_arith)
        requires
            two_pow((32 - m) as nat) >= 1,
            q == two_pow((32 - m) as nat) * 0xffff_ffffnat,
    ;
    q
}

/// What follows from `w^(2^(m-1)) == -1` for `1 <= m <= 32`: `w` has order `2^m`,
/// `w^(P-1) == 1`, the candidate inverse of `w` is `w^(2^m - 1)`, and it too has
/// `-1` as its power `2^(m-1)`.
pub proof fn lemma_root_facts(w: nat, m: nat)
    requires
        1 <= m <= 32,
        fpow(w, two_pow((m - 1) as nat)) == minus_one(),
    ensures
        fpow(w, two_pow(m)) == 1,
        fpow(w, (modulus() - 1) as nat) == 1,
        finv(w) == fpow(w, (two_pow(m) - 1) as nat),
        fmul(w, finv(w)) == 1,
        fpow(finv(w), two_pow((m - 1) as nat)) == minus_one(),
{
    let h = two_pow((m - 1) as nat);
    let n = two_pow(m);
    lemma_two_pow_pos((m - 1) as nat);
    assert(n == 2 * h);
    lemma_fpow_add(w, h, h);
    lemma_minus_one_squared();
    let q = lemma_pow2_divides(m);
    lemma_fpow_mul(w, n, q);
    lemma_fpow_one(q);
    // P - 2 == (n - 1) + n * (q - 1)
    let r = (n - 1) as nat;
    assert((modulus() - 2) as nat == r + n * (q - 1) as nat) by (nonlinear_arith)
        requires
            (modulus() - 1) as nat == n * q,
            q >= 1,
            n >= 2,
            r == n - 1,
    ;
    lemma_fpow_add(w, r, n * (q - 1) as nat);
    lemma_fpow_mul(w, n, (q - 1) as nat);
    lemma_fpow_one((q - 1) as nat);
    lemma_fpow_canonical(w, r);
    lemma_small_mod(fpow(w, r), modulus());
    lemma_fmul_comm(fpow(w, r), 1);
    lemma_fmul_one_left(fpow(w, r));
    // w * w^(n-1) == w^n == 1
    assert(fpow(w, n) == fmul(w, fpow(w, r)));
    // (w^(n-1))^h == (w^h)^(n-1) == (-1)^(n-1) == -1
    lemma_fpow_mul(w, r, h);
    lemma_fpow_mul(w, h, r);
    assert(r * h == h * r) by (nonlinear_arith);
    assert(r % 2 == 1);
    lemma_minus_one_odd_pow(r);
}

/// `2^m` is `fpow(2, m)` reduced.
pub proof fn lemma_fpow_two_pow(m: nat)
    ensures
        fpow(2, m) == two_pow(m) % modulus(),
    decreases m,
{
    if m == 0 {
        lemma_small_mod(1, modulus());
    } else {
        lemma_fpow_two_pow((m - 1) as nat);
        vstd::arithmetic::div_mod::lemma_mul_mod_noop(2, two_pow((m - 1) as nat) as int, modulus() as int);
        lemma_small_mod(2, modulus());
    }
}

/// The size of a transform, `2^m`, is invertible: times its candidate inverse it is 1.
pub proof fn lemma_size_inverse(m: nat)
    ensures
        fmul(two_pow(m) % modulus(), finv(two_pow(m) % modulus())) == 1,
{
    let x = two_pow(m) % modulus();
    lemma_fpow_two_pow(m);
    lemma_two_order();
    lemma_fpow_mul(2, m, (modulus() - 1) as nat);
    lemma_fpow_mul(2, (modulus() - 1) as nat, m);
    assert(m * (modulus() - 1) as nat == (modulus() - 1) as nat * m) by (nonlinear_arith);
    lemma_fpow_one(m);
    assert(fpow(x, (modulus() - 1) as nat) == fmul(x, fpow(x, (modulus() - 2) as nat)));
}

/// `1 + 1 + ... + 1` (`n` terms) is `n` reduced.
pub proof fn lemma_gsum_one(n: nat)
    ensures
        gsum(1, n) == n % modulus(),
    decreases n,
{
    if n == 0 {
        lemma_small_mod(0, modulus());
    } else {
        lemma_gsum_one((n - 1) as nat);
        lemma_fpow_one((n - 1) as nat);
        vstd::arithmetic::div_mod::lemma_add_mod_noop((n - 1) as int, 1, modulus() as int);
        lemma_small_mod(1, modulus());
    }
}

/// The sums of the powers of `w^i * w^(-j)` over a transform size: the size when
/// `i == j`, zero otherwise.
pub proof fn lemma_orthogonality(w: nat, m: nat, i: nat, j: nat)
    requires
        1 <= m <= 32,
        fpow(w, two_pow((m - 1) as nat)) == minus_one(),
        i < two_pow(m),
        j < two_pow(m),
    ensures
        gsum(fmul(fpow(w, i), fpow(finv(w), j)), two_pow(m)) == (if i == j {
            two_pow(m) % modulus()
        } else {
            0
        }),
{
    let n = two_pow(m);
    lemma_root_facts(w, m);
    let r = (n - 1) as nat;
    lemma_fpow_mul(w, r, j);
    let e = i + r * j;
    lemma_fpow_add(w, i, r * j);
    assert(fmul(fpow(w, i), fpow(finv(w), j)) == fpow(w, e));
    let d = e % n;
    let t = e / n;
    vstd::arithmetic::div_mod::lemma_fundamental_div_mod(e as int, n as int);
    assert(e == n * t + d);
    lemma_fpow_add(w, n * t, d);
    lemma_fpow_mul(w, n, t);
    lemma_fpow_one(t);
    lemma_fpow_canonical(w, d);
    lemma_fmul_one_left(fpow(w, d));
    lemma_small_mod(fpow(w, d), modulus());
    assert(fpow(w, e) == fpow(w, d));
    // e == n * j + (i - j), so d == (i - j) mod n
    assert(e == n * j + (i - j)) by (nonlinear_arith)
        requires
            e == i + r * j,
            r == n - 1,
    ;
    vstd::arithmetic::div_mod::lemma_mod_multiples_vanish(j as int, i - j, n as int);
    if i == j {
        lemma_small_mod(0, n);
        assert(d == 0);
        assert(fpow(w, 0) == 1);
        lemma_gsum_one(n);
    } else {
        if i > j {
            lemma_small_mod((i - j) as nat, n);
        } else {
            vstd::arithmetic::div_mod::lemma_fundamental_div_mod_converse(i - j, n as int, -1, i - j + n);
        }
        assert(0 < d < n);
        lemma_gsum_root_vanishes(w, m, d);
    }
}


/// Evaluations of a polynomial are canonical.
pub proof fn lemma_eval_canonical(a: Seq<nat>, x: nat)
    ensures
        eval(a, x) < modulus(),
{
    if a.len() == 0 {
    } else {
        lemma_canonical(a[0], fmul(x, eval(a.drop_first(), x)));
    }
}

/// The term of the double sum in the transform of a transform.
pub open spec fn twice_term(a: Seq<nat>, w: nat, y: nat, i: nat, k: nat) -> nat {
    fmul(a[i as int], fmul(fpow(fpow(w, i), k), fpow(y, k)))
}

/// Transforming the transform with the inverse root gives the input times the size,
/// read at index `j`.
pub proof fn lemma_transform_twice(a: Seq<nat>, w: nat, m: nat, j: nat)
    requires
        1 <= m <= 32,
        a.len() == two_pow(m),
        canonical_seq(a),
        fpow(w, two_pow((m - 1) as nat)) == minus_one(),
        j < two_pow(m),
    ensures
        eval(dft(a, w), fpow(finv(w), j)) == fmul(a[j as int], two_pow(m) % modulus()),
{
    let n = two_pow(m);
    let big_a = dft(a, w);
    let y = fpow(finv(w), j);
    lemma_eval_sum(big_a, y);
    let g = |i: nat, k: nat| twice_term(a, w, y, i, k);
    // each outer term is an inner sum over the coefficients
    assert forall|k: nat| k < n implies #[trigger] fmul(big_a[k as int], fpow(y, k)) == fsum(
        |i: nat| g(i, k),
        n,
    ) by {
        let x = fpow(w, k);
        lemma_eval_sum(a, x);
        let fi = |i: nat| fmul(a[i as int], fpow(x, i));
        lemma_fsum_scale(fpow(y, k), fi, n);
        lemma_fsum_canonical(fi, n);
        lemma_fmul_comm(big_a[k as int], fpow(y, k));
        assert forall|i: nat| i < n implies #[trigger] fmul(fpow(y, k), fi(i)) == g(i, k) by {
            lemma_fpow_mul(w, k, i);
            lemma_fpow_mul(w, i, k);
            assert(k * i == i * k) by (nonlinear_arith);
            let c = a[i as int];
            let p = fpow(x, i);
            let yk = fpow(y, k);
            lemma_fmul_assoc(yk, c, p);
            lemma_fmul_comm(yk, c);
            lemma_fmul_assoc(c, yk, p);
            lemma_fmul_comm(yk, p);
        }
        lemma_fsum_ext(|i: nat| fmul(fpow(y, k), fi(i)), |i: nat| g(i, k), n);
    }
    lemma_fsum_ext(
        |k: nat| fmul(big_a[k as int], fpow(y, k)),
        |k: nat| fsum(|i: nat| g(i, k), n),
        n,
    );
    lemma_fsum_swap(g, n, n);
    // each coefficient's inner sum is the coefficient times a geometric sum
    let col = |i: nat| fsum(|k: nat| g(i, k), n);
    assert forall|i: nat| i < n implies #[trigger] col(i) == (if i == j {
        fmul(a[j as int], n % modulus())
    } else {
        0
    }) by {
        let z = fmul(fpow(w, i), y);
        let pk = |k: nat| fpow(z, k);
        assert forall|k: nat| k < n implies #[trigger] g(i, k) == fmul(a[i as int], pk(k)) by {
            lemma_fpow_fmul(fpow(w, i), y, k);
        }
        lemma_fsum_ext(|k: nat| g(i, k), |k: nat| fmul(a[i as int], pk(k)), n);
        lemma_fsum_scale(a[i as int], pk, n);
        lemma_orthogonality(w, m, i, j);
        if i != j {
            lemma_fmul_zero(a[i as int]);
        }
    }
    lemma_canonical(a[j as int], n % modulus());
    lemma_fsum_single(col, n, j);
}

/// The inverse transform undoes the transform: transforming with the inverse root
/// and scaling by the inverse of the size gives back the input, for inputs of length
/// `2^m` (`m <= 32`) and roots whose power `2^(m-1)` is `-1`.
pub proof fn lemma_inverse_transform(a: Seq<nat>, w: nat, m: nat)
    requires
        m <= 32,
        a.len() == two_pow(m),
        canonical_seq(a),
        m >= 1 ==> fpow(w, two_pow((m - 1) as nat)) == minus_one(),
    ensures
        Seq::new(
            a.len(),
            |k: int| fmul(fft_spec(fft_spec(a, w), finv(w))[k], finv(a.len() % modulus())),
        ) == a,
{
    let n = two_pow(m);
    lemma_size_inverse(m);
    let ninv = finv(n % modulus());
    if m == 0 {
        assert(n == 1);
        assert forall|k: int| 0 <= k < a.len() implies fmul(
            fft_spec(fft_spec(a, w), finv(w))[k],
            ninv,
        ) == a[k] by {
            lemma_small_mod(1, modulus());
            lemma_fmul_one_left(ninv);
            lemma_fmul_comm(a[k], ninv);
            lemma_fpow_canonical(1, (modulus() - 2) as nat);
            lemma_small_mod(a[k], modulus());
            lemma_fmul_comm(1, ninv);
            assert(fmul(1, ninv) == 1);
            lemma_fmul_comm(a[k], 1);
            lemma_fmul_one_left(a[k]);
        }
    } else {
        lemma_fft_is_dft(a, w, m);
        let big_a = dft(a, w);
        assert(canonical_seq(big_a)) by {
            assert forall|k: int| 0 <= k < big_a.len() implies #[trigger] big_a[k] < modulus() by {
                lemma_eval_canonical(a, fpow(w, k as nat));
            }
        }
        lemma_root_facts(w, m);
        lemma_fft_is_dft(big_a, finv(w), m);
        assert forall|k: int| 0 <= k < a.len() implies fmul(
            fft_spec(fft_spec(a, w), finv(w))[k],
            ninv,
        ) == a[k] by {
            lemma_transform_twice(a, w, m, k as nat);
            lemma_fmul_assoc(a[k], n % modulus(), ninv);
            lemma_fmul_comm(a[k], 1);
            lemma_fmul_one_left(a[k]);
            lemma_small_mod(a[k], modulus());
        }
    }
    assert(Seq::new(
        a.len(),
        |k: int| fmul(fft_spec(fft_spec(a, w), finv(w))[k], finv(a.len() % modulus())),
    ) =~= a);
}

} // verus!
