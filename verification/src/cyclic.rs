//! The multiplicative group of the Goldilocks field is cyclic, generated by 7: the
//! powers of 7 below `P - 1` are the non-zero elements, each once. Fermat's little
//! theorem follows, so every non-zero element has `x^(P-2)` as its inverse.
use crate::fft::two_pow;
use crate::field::{
    finv, fmul, fpow, lemma_fmul_assoc, lemma_fmul_one_left, lemma_fmul_zero,
    lemma_fpow_add, lemma_fpow_canonical, lemma_fpow_mul, lemma_fpow_reduce, modulus,
};
use crate::roots::{
    lemma_fpow_one, lemma_seven_full_order, lemma_seven_half_order, lemma_seven_not_root_17,
    lemma_seven_not_root_257, lemma_seven_not_root_3, lemma_seven_not_root_5,
    lemma_seven_not_root_65537,
};
use vstd::arithmetic::div_mod::{
    lemma_fundamental_div_mod, lemma_mod_multiples_basic, lemma_mod_self_0, lemma_small_mod,
};
use vstd::prelude::*;
use vstd::relations::injective_on;
use vstd::set_lib::{lemma_int_range, lemma_map_size, lemma_subset_equality, set_int_range};

verus! {

/// The greatest common divisor, by Euclid's algorithm.
pub open spec fn gcd(a: nat, b: nat) -> nat
    decreases b,
{
    if b == 0 {
        a
    } else {
        gcd(b, a % b)
    }
}

/// A multiple of `d` is divisible by `d`.
proof fn lemma_multiple_mod(d: nat, c: int, x: int)
    requires
        d > 0,
        x == d * c,
    ensures
        x % (d as int) == 0,
{
    lemma_mod_multiples_basic(c, d as int);
    assert(c * d == d * c) by (nonlinear_arith);
}

/// A divisor of a positive number is at most that number.
proof fn lemma_divisor_le(g: nat, x: nat)
    requires
        g > 0,
        x > 0,
        x % g == 0,
    ensures
        g <= x,
{
    lemma_fundamental_div_mod(x as int, g as int);
    assert(x / g >= 1) by (nonlinear_arith)
        requires
            x == g * (x / g),
            x > 0,
            g > 0,
    ;
    assert(g * (x / g) >= g) by (nonlinear_arith)
        requires
            x / g >= 1,
            g > 0,
    ;
}

/// The greatest common divisor divides both numbers.
pub proof fn lemma_gcd_divides(a: nat, b: nat)
    requires
        a > 0 || b > 0,
    ensures
        gcd(a, b) > 0,
        a % gcd(a, b) == 0,
        b % gcd(a, b) == 0,
    decreases b,
{
    if b == 0 {
        lemma_mod_self_0(a as int);
        lemma_small_mod(0, a);
    } else {
        let r = a % b;
        lemma_gcd_divides(b, r);
        let g = gcd(b, r);
        lemma_fundamental_div_mod(a as int, b as int);
        lemma_fundamental_div_mod(b as int, g as int);
        lemma_fundamental_div_mod(r as int, g as int);
        let s = b / g;
        let t = r / g;
        assert(a == g * (s * (a / b) + t)) by (nonlinear_arith)
            requires
                a == b * (a / b) + r,
                b == g * s,
                r == g * t,
        ;
        lemma_multiple_mod(g, (s * (a / b) + t) as int, a as int);
    }
}

/// Bezout's identity: the greatest common divisor is an integer combination of the
/// two numbers.
pub proof fn lemma_bezout(a: nat, b: nat) -> (uv: (int, int))
    ensures
        uv.0 * a + uv.1 * b == gcd(a, b),
    decreases b,
{
    if b == 0 {
        (1, 0)
    } else {
        let r = a % b;
        let (u, v) = lemma_bezout(b, r);
        lemma_fundamental_div_mod(a as int, b as int);
        let q = (a / b) as int;
        assert(v * a + (u - v * q) * b == u * b + v * r) by (nonlinear_arith)
            requires
                a == b * q + r,
        ;
        (v, u - v * q)
    }
}

/// Whether `q` is prime.
pub open spec fn is_prime(q: nat) -> bool {
    q > 1 && forall|g: nat| 1 < g < q ==> #[trigger] (q % g) != 0
}

/// Euclid's lemma: a number that divides `q * m` and is not a multiple of the prime
/// `q` divides `m`.
pub proof fn lemma_euclid(q: nat, k: nat, m: nat)
    requires
        is_prime(q),
        k > 0,
        (q * m) % k == 0,
        k % q != 0,
    ensures
        m % k == 0,
{
    lemma_gcd_divides(k, q);
    let g = gcd(k, q);
    lemma_divisor_le(g, q);
    if g != 1 {
        if g < q {
            assert(q % g != 0);
        }
        assert(g == q);
    }
    let (u, v) = lemma_bezout(k, q);
    lemma_fundamental_div_mod((q * m) as int, k as int);
    let t = (q * m) / k;
    assert(m == k * (u * m + v * t)) by (nonlinear_arith)
        requires
            u * k + v * q == 1,
            q * m == k * t,
    ;
    lemma_multiple_mod(k, u * m + v * t, m as int);
}

/// The primes dividing `P - 1` have no divisors but 1 and themselves, by exhaustive
/// search.
pub proof fn lemma_small_primes()
    ensures
        is_prime(2),
        is_prime(3),
        is_prime(5),
        is_prime(17),
        is_prime(257),
        is_prime(65537),
{
    assert(forall|g: u32| 1 < g && g < 3 ==> #[trigger] (3u32 % g) != 0) by (bit_vector);
    assert(forall|g: u32| 1 < g && g < 5 ==> #[trigger] (5u32 % g) != 0) by (bit_vector);
    assert(forall|g: u32| 1 < g && g < 17 ==> #[trigger] (17u32 % g) != 0) by (bit_vector);
    assert(forall|g: u32| 1 < g && g < 257 ==> #[trigger] (257u32 % g) != 0) by (bit_vector);
    assert(forall|g: u32| 1 < g && g < 65537 ==> #[trigger] (65537u32 % g) != 0) by (bit_vector);
    assert forall|g: nat| 1 < g < 3 implies #[trigger] (3nat % g) != 0 by {
        assert((3u32 % (g as u32)) != 0);
    }
    assert forall|g: nat| 1 < g < 5 implies #[trigger] (5nat % g) != 0 by {
        assert((5u32 % (g as u32)) != 0);
    }
    assert forall|g: nat| 1 < g < 17 implies #[trigger] (17nat % g) != 0 by {
        assert((17u32 % (g as u32)) != 0);
    }
    assert forall|g: nat| 1 < g < 257 implies #[trigger] (257nat % g) != 0 by {
        assert((257u32 % (g as u32)) != 0);
    }
    assert forall|g: nat| 1 < g < 65537 implies #[trigger] (65537nat % g) != 0 by {
        assert((65537u32 % (g as u32)) != 0);
    }
}

/// A divisor of `2^e` that is odd is 1.
proof fn lemma_odd_divisor_of_two_pow(k: nat, e: nat)
    requires
        k > 0,
        k % 2 != 0,
        two_pow(e) % k == 0,
    ensures
        k == 1,
    decreases e,
{
    if e == 0 {
        lemma_divisor_le(k, 1);
    } else {
        lemma_small_primes();
        lemma_euclid(2, k, two_pow((e - 1) as nat));
        lemma_odd_divisor_of_two_pow(k, (e - 1) as nat);
    }
}

/// The only divisor of `P - 1 = 2^32 * 3 * 5 * 17 * 257 * 65537` that none of these
/// primes divides is 1.
pub proof fn lemma_coprime_divisor(k: nat)
    requires
        k > 0,
        ((modulus() - 1) as nat) % k == 0,
        k % 2 != 0,
        k % 3 != 0,
        k % 5 != 0,
        k % 17 != 0,
        k % 257 != 0,
        k % 65537 != 0,
    ensures
        k == 1,
{
    lemma_small_primes();
    reveal_with_fuel(two_pow, 33);
    let m5 = two_pow(32);
    assert(m5 == 4294967296);
    let m4 = 3 * m5;
    let m3 = 5 * m4;
    let m2 = 17 * m3;
    let m1 = 257 * m2;
    assert((modulus() - 1) as nat == 65537 * m1);
    lemma_euclid(65537, k, m1);
    lemma_euclid(257, k, m2);
    lemma_euclid(17, k, m3);
    lemma_euclid(5, k, m4);
    lemma_euclid(3, k, m5);
    lemma_odd_divisor_of_two_pow(k, 32);
}

/// If `x^a` and `x^b` are 1, so is `x^gcd(a, b)`.
pub proof fn lemma_pow_one_gcd(x: nat, a: nat, b: nat)
    requires
        fpow(x, a) == 1,
        fpow(x, b) == 1,
    ensures
        fpow(x, gcd(a, b)) == 1,
    decreases b,
{
    if b > 0 {
        let q = a / b;
        let r = a % b;
        lemma_fundamental_div_mod(a as int, b as int);
        assert(a == b * q + r);
        lemma_fpow_add(x, b * q, r);
        lemma_fpow_mul(x, b, q);
        lemma_fpow_one(q);
        lemma_fmul_one_left(fpow(x, r));
        lemma_fpow_canonical(x, r);
        lemma_small_mod(fpow(x, r), modulus());
        lemma_pow_one_gcd(x, b, r);
    }
}

/// Where `7^g == 1` and `P - 1 == g * k`, no prime `q` of `P - 1` divides `k`: else
/// `7^((P-1)/q)` would be 1.
proof fn lemma_cofactor_not_multiple(g: nat, k: nat, q: nat)
    requires
        fpow(7, g) == 1,
        (modulus() - 1) as nat == g * k,
        q == 2 || q == 3 || q == 5 || q == 17 || q == 257 || q == 65537,
    ensures
        k % q != 0,
{
    let n = (modulus() - 1) as nat;
    if k % q == 0 {
        lemma_fundamental_div_mod(k as int, q as int);
        let t = k / q;
        assert(n == q * (g * t)) by (nonlinear_arith)
            requires
                n == g * k,
                k == q * t,
        ;
        vstd::arithmetic::div_mod::lemma_div_multiples_vanish((g * t) as int, q as int);
        assert(n / q == g * t);
        lemma_fpow_mul(7, g, t);
        lemma_fpow_one(t);
        if q == 2 {
            lemma_seven_half_order();
        } else if q == 3 {
            lemma_seven_not_root_3();
        } else if q == 5 {
            lemma_seven_not_root_5();
        } else if q == 17 {
            lemma_seven_not_root_17();
        } else if q == 257 {
            lemma_seven_not_root_257();
        } else {
            lemma_seven_not_root_65537();
        }
    }
}

/// The order of 7 is `P - 1`: no smaller positive power of 7 is 1.
pub proof fn lemma_seven_order(d: nat)
    requires
        0 < d,
        fpow(7, d) == 1,
    ensures
        d >= modulus() - 1,
{
    let n = (modulus() - 1) as nat;
    lemma_seven_full_order();
    lemma_pow_one_gcd(7, d, n);
    lemma_gcd_divides(d, n);
    let g = gcd(d, n);
    lemma_divisor_le(g, d);
    lemma_fundamental_div_mod(n as int, g as int);
    let k = n / g;
    assert(n == g * k);
    assert(k > 0) by (nonlinear_arith)
        requires
            n == g * k,
            n > 0,
    ;
    lemma_cofactor_not_multiple(g, k, 2);
    lemma_cofactor_not_multiple(g, k, 3);
    lemma_cofactor_not_multiple(g, k, 5);
    lemma_cofactor_not_multiple(g, k, 17);
    lemma_cofactor_not_multiple(g, k, 257);
    lemma_cofactor_not_multiple(g, k, 65537);
    assert(k * g == n) by (nonlinear_arith)
        requires
            n == g * k,
    ;
    lemma_multiple_mod(k, g as int, n as int);
    assert(k % 2 != 0 && k % 3 != 0 && k % 5 != 0 && k % 17 != 0 && k % 257 != 0 && k % 65537 != 0);
    lemma_coprime_divisor(k);
}


/// `7^k` times `7^(P-1-k)` is 1: every power of 7 below `P - 1` has an inverse.
proof fn lemma_seven_power_unit(k: nat)
    requires
        k < modulus() - 1,
    ensures
        fmul(fpow(7, (modulus() - 1 - k) as nat), fpow(7, k)) == 1,
        fpow(7, k) != 0,
{
    lemma_seven_full_order();
    lemma_fpow_add(7, (modulus() - 1 - k) as nat, k);
    assert((modulus() - 1 - k) as nat + k == (modulus() - 1) as nat);
    if fpow(7, k) == 0 {
        lemma_fmul_zero(fpow(7, (modulus() - 1 - k) as nat));
    }
}

/// The powers of 7 below `P - 1` are distinct.
pub proof fn lemma_seven_powers_distinct(i: nat, j: nat)
    requires
        i < j < modulus() - 1,
    ensures
        fpow(7, i) != fpow(7, j),
{
    if fpow(7, i) == fpow(7, j) {
        let a = fpow(7, i);
        let b = fpow(7, (modulus() - 1 - i) as nat);
        let c = fpow(7, (j - i) as nat);
        lemma_fpow_add(7, i, (j - i) as nat);
        assert(i + (j - i) as nat == j);
        lemma_seven_power_unit(i);
        // 1 == b * a == b * (a * c) == (b * a) * c == c
        lemma_fmul_assoc(b, a, c);
        lemma_fmul_one_left(c);
        lemma_fpow_canonical(7, (j - i) as nat);
        lemma_small_mod(c, modulus());
        lemma_seven_order((j - i) as nat);
    }
}

/// 7 generates the non-zero elements: each of them is a power of 7 below `P - 1`.
pub proof fn lemma_seven_generates(x: nat)
    requires
        0 < x < modulus(),
    ensures
        exists|k: nat| k < modulus() - 1 && #[trigger] fpow(7, k) == x,
{
    let n = (modulus() - 1) as int;
    let dom = set_int_range(0, n);
    let f = |k: int| fpow(7, k as nat) as int;
    let img = dom.map(f);
    assert(injective_on(f, dom)) by {
        assert forall|k1: int, k2: int|
            dom.contains(k1) && dom.contains(k2) && #[trigger] f(k1) == #[trigger] f(k2) implies k1 == k2 by {
            if k1 < k2 {
                lemma_seven_powers_distinct(k1 as nat, k2 as nat);
            } else if k2 < k1 {
                lemma_seven_powers_distinct(k2 as nat, k1 as nat);
            }
        }
    }
    lemma_int_range(0, n);
    lemma_map_size(dom, img, f);
    let nonzero = set_int_range(1, n + 1);
    lemma_int_range(1, n + 1);
    assert(img.subset_of(nonzero)) by {
        assert forall|y: int| img.contains(y) implies nonzero.contains(y) by {
            let k = choose|k: int| dom.contains(k) && y == f(k);
            lemma_seven_power_unit(k as nat);
            lemma_fpow_canonical(7, k as nat);
        }
    }
    lemma_subset_equality(img, nonzero);
    assert(nonzero.contains(x as int));
    let k = choose|k: int| dom.contains(k) && x as int == f(k);
    assert(fpow(7, k as nat) == x);
}

/// Fermat's little theorem: `x^(P-1) == 1` for every `x` that is not a multiple of
/// `P`.
pub proof fn lemma_fermat(x: nat)
    requires
        x % modulus() != 0,
    ensures
        fpow(x, (modulus() - 1) as nat) == 1,
{
    let n = (modulus() - 1) as nat;
    let r = x % modulus();
    lemma_seven_generates(r);
    let k = choose|k: nat| k < modulus() - 1 && #[trigger] fpow(7, k) == r;
    lemma_fpow_reduce(x, n);
    lemma_fpow_mul(7, k, n);
    lemma_fpow_mul(7, n, k);
    assert(k * n == n * k) by (nonlinear_arith);
    lemma_seven_full_order();
    lemma_fpow_one(k);
}

/// Every element that is not a multiple of `P` has `x^(P-2)` as its inverse.
pub proof fn lemma_inverse(x: nat)
    requires
        x % modulus() != 0,
    ensures
        fmul(x, finv(x)) == 1,
{
    lemma_fermat(x);
    assert(fpow(x, (modulus() - 1) as nat) == fmul(x, fpow(x, (modulus() - 2) as nat)));
}

} // verus!
