//! Polynomial multiplication over the Goldilocks field: the schoolbook product and
//! the product through FFTs.
use crate::fft::{fft_for_mul, fft_spec, is_pow2, pad_zeros, two_pow};
use crate::field::{fadd, finv, fmul, fpow, lemma_fadd_zero, modulus, Belt, P};
use crate::noun::JetErr;
use crate::par::{par_map, par_tabulate, par_zip_map, vals};
use vstd::arithmetic::div_mod::*;
use vstd::prelude::*;

verus! {

/// Term `i` of coefficient `k` of the product of `p` and `q`.
pub open spec fn conv_term(p: Seq<nat>, q: Seq<nat>, k: int, i: int) -> nat {
    if 0 <= k - i < q.len() {
        fmul(p[i], q[k - i])
    } else {
        0
    }
}

/// Coefficient `k` of the product, summed over the first `rows` coefficients of `p`.
pub open spec fn conv_partial(p: Seq<nat>, q: Seq<nat>, k: int, rows: nat) -> nat
    decreases rows,
{
    if rows == 0 {
        0
    } else {
        fadd(conv_partial(p, q, k, (rows - 1) as nat), conv_term(p, q, k, rows - 1))
    }
}

/// The coefficients of the product of two non-empty polynomials.
pub open spec fn poly_mul_spec(p: Seq<nat>, q: Seq<nat>) -> Seq<nat> {
    Seq::new((p.len() + q.len() - 1) as nat, |k: int| conv_partial(p, q, k, p.len()))
}

/// `a` extended with zeros to length `n`.
pub open spec fn pad(a: Seq<nat>, n: nat) -> Seq<nat> {
    a + Seq::new((n - a.len()) as nat, |i: int| 0nat)
}

/// The entry-wise product of two sequences.
pub open spec fn pointwise(a: Seq<nat>, b: Seq<nat>) -> Seq<nat> {
    Seq::new(a.len(), |k: int| fmul(a[k], b[k]))
}

/// The product through transforms of size `n` with root `w`: transform both padded
/// factors, multiply entry-wise, transform back with the inverse root, scale by the
/// inverse of `n` and keep the first `|p| + |q| - 1` entries.
pub open spec fn fft_mul_spec(p: Seq<nat>, q: Seq<nat>, n: nat, w: nat) -> Seq<nat> {
    let c = pointwise(fft_spec(pad(p, n), w), fft_spec(pad(q, n), w));
    let r = fft_spec(c, finv(w));
    Seq::new((p.len() + q.len() - 1) as nat, |k: int| fmul(r[k], finv(n % modulus())))
}

/// The smallest power of two from `p` on (doubling `p`) that is at least `x`.
pub open spec fn npow(x: nat, p: nat) -> nat
    decreases (if p < x { x - p } else { 0 }),
{
    if p == 0 || p >= x {
        p
    } else {
        npow(x, 2 * p)
    }
}

/// The smallest power of two that is at least `x`.
pub open spec fn next_pow2(x: nat) -> nat {
    npow(x, 1)
}

/// The root of unity of order `n` (for `n` a power of two up to `2^32`):
/// `7^((P - 1) / n)`, 7 generating the multiplicative group.
pub open spec fn root_of_unity(n: nat) -> nat {
    fpow(7, ((modulus() - 1) as nat / n) as nat)
}

/// The largest transform size for which the field has a root of unity.
pub const MAX_FFT_SIZE: u64 = 0x1_0000_0000u64;

/// The smallest power of two that is at least `x`.
pub fn next_power_of_two(x: usize) -> (r: usize)
    requires
        2 * x <= usize::MAX,
    ensures
        r as nat == next_pow2(x as nat),
        is_pow2(r as nat),
        r >= x,
        r <= 2 * x || r == 1,
{
    let mut p: usize = 1;
    let ghost mut m: nat = 0;
    while p < x
        invariant
            p >= 1,
            p == two_pow(m),
            p <= 2 * x || p == 1,
            2 * x <= usize::MAX,
            npow(x as nat, p as nat) == npow(x as nat, 1),
        decreases (if p < x { x - p } else { 0 }),
    {
        p = p * 2;
        proof {
            m = m + 1;
        }
    }
    p
}

/// The root of unity of order `n`, or an error where `n` exceeds `MAX_FFT_SIZE`.
pub fn find_root_of_unity(n: usize) -> (r: Result<Belt, JetErr>)
    requires
        n > 0,
    ensures
        n > MAX_FFT_SIZE <==> r is Err,
        r matches Ok(w) ==> w.val() == root_of_unity(n as nat) && w.canonical(),
{
    if n as u64 > MAX_FFT_SIZE {
        return Err(JetErr::Deterministic);
    }
    let g = Belt::from_u64(7);
    let group_order: u64 = P - 1;
    let exponent = group_order / (n as u64);
    proof {
        lemma_small_mod(7, modulus());
    }
    Ok(g.pow(exponent))
}

/// The schoolbook product of two non-empty polynomials.
pub fn multiply_naive(p: &Vec<Belt>, q: &Vec<Belt>) -> (r: Vec<Belt>)
    requires
        p.len() >= 1,
        q.len() >= 1,
        p.len() + q.len() <= usize::MAX,
    ensures
        vals(r@) == poly_mul_spec(vals(p@), vals(q@)),
        forall|k: int| 0 <= k < r.len() ==> (#[trigger] r[k]).canonical(),
{
    let ghost ps = vals(p@);
    let ghost qs = vals(q@);
    let result_len = p.len() + q.len() - 1;
    let mut result = crate::fft::zeros(result_len);
    let mut i: usize = 0;
    while i < p.len()
        invariant
            ps == vals(p@),
            qs == vals(q@),
            result_len == p.len() + q.len() - 1,
            result.len() == result_len,
            i <= p.len(),
            forall|k: int| 0 <= k < result_len ==> (#[trigger] result[k]).val() == conv_partial(ps, qs, k, i as nat) && result[k].canonical(),
        decreases p.len() - i,
    {
        let mut j: usize = 0;
        while j < q.len()
            invariant
                ps == vals(p@),
                qs == vals(q@),
                result_len == p.len() + q.len() - 1,
                result.len() == result_len,
                i < p.len(),
                j <= q.len(),
                forall|k: int| 0 <= k < result_len ==> (#[trigger] result[k]).val() == (if i <= k < i + j {
                    conv_partial(ps, qs, k, (i + 1) as nat)
                } else {
                    conv_partial(ps, qs, k, i as nat)
                }) && result[k].canonical(),
            decreases q.len() - j,
        {
            let prod = p[i].mul(q[j]);
            let updated = result[i + j].add(prod);
            result.set(i + j, updated);
            proof {
                assert(conv_term(ps, qs, (i + j) as int, i as int) == fmul(ps[i as int], qs[j as int]));
            }
            j = j + 1;
        }
        proof {
            assert forall|k: int| 0 <= k < result_len implies (#[trigger] result[k]).val() == conv_partial(ps, qs, k, (i + 1) as nat) by {
                if !(i <= k < i + q.len()) {
                    assert(conv_term(ps, qs, k, i as int) == 0);
                    crate::batch::lemma_mod_bound_val(result[k]);
                    lemma_fadd_zero(conv_partial(ps, qs, k, i as nat));
                    lemma_small_mod(conv_partial(ps, qs, k, i as nat), modulus());
                }
            }
        }
        i = i + 1;
    }
    proof {
        assert(vals(result@) =~= poly_mul_spec(ps, qs));
    }
    result
}

/// The root the multiplication of `multiply_fft` uses for transforms of size `n`: the
/// root of unity where one exists, one otherwise.
pub open spec fn mul_root(n: nat) -> nat {
    if n <= MAX_FFT_SIZE {
        root_of_unity(n)
    } else {
        1
    }
}

/// The length from which products are computed through transforms.
pub const FFT_MUL_THRESHOLD: usize = 64;

/// What `multiply_polynomials` computes: nothing for an empty factor, the schoolbook
/// product below `FFT_MUL_THRESHOLD` coefficients, the product through transforms of
/// the next power of two from there on.
pub open spec fn multiply_spec(p: Seq<nat>, q: Seq<nat>) -> Seq<nat> {
    if p.len() == 0 || q.len() == 0 {
        Seq::empty()
    } else if p.len() + q.len() - 1 >= FFT_MUL_THRESHOLD {
        let n = next_pow2((p.len() + q.len() - 1) as nat);
        fft_mul_spec(p, q, n, mul_root(n))
    } else {
        poly_mul_spec(p, q)
    }
}

/// A copy of `v` extended with zeros to length `n`.
pub fn pad_copy(v: &Vec<Belt>, n: usize) -> (r: Vec<Belt>)
    requires
        v.len() <= n,
    ensures
        r.len() == n,
        vals(r@) == pad(vals(v@), n as nat),
{
    let mut c: Vec<Belt> = Vec::new();
    let mut i: usize = 0;
    while i < v.len()
        invariant
            i <= v.len(),
            c.len() == i,
            forall|j: int| 0 <= j < i ==> #[trigger] c[j] == v[j],
        decreases v.len() - i,
    {
        c.push(v[i]);
        i = i + 1;
    }
    proof {
        assert(vals(c@) =~= vals(v@));
    }
    pad_zeros(c, n)
}

/// The product of the transforms of both factors, entry by entry, in order.
fn pointwise_mul_seq(a: &Vec<Belt>, b: &Vec<Belt>) -> (r: Vec<Belt>)
    requires
        a.len() == b.len(),
    ensures
        r.len() == a.len(),
        vals(r@) == pointwise(vals(a@), vals(b@)),
{
    let mut r: Vec<Belt> = Vec::new();
    let mut i: usize = 0;
    while i < a.len()
        invariant
            a.len() == b.len(),
            i <= a.len(),
            r.len() == i,
            forall|j: int| 0 <= j < i ==> (#[trigger] r[j]).val() == fmul(a[j].val(), b[j].val()),
        decreases a.len() - i,
    {
        r.push(a[i].mul(b[i]));
        i = i + 1;
    }
    proof {
        assert(vals(r@) =~= pointwise(vals(a@), vals(b@)));
    }
    r
}

/// The entry-wise product, in parallel.
fn pointwise_mul_par(a: &Vec<Belt>, b: &Vec<Belt>) -> (r: Vec<Belt>)
    requires
        a.len() == b.len(),
    ensures
        r.len() == a.len(),
        vals(r@) == pointwise(vals(a@), vals(b@)),
{
    let r = par_zip_map(
        a,
        b,
        (|x: &Belt, y: &Belt| -> (s: Belt)
            ensures
                s.val() == fmul(x.val(), y.val()),
        {
            x.mul(*y)
        }),
    );
    proof {
        assert(vals(r@) =~= pointwise(vals(a@), vals(b@)));
    }
    r
}

/// The product through transforms of size `n` (a power of two at least the product's
/// length) with root `omega`; with `parallel`, the entry-wise steps run in parallel.
fn fft_convolve(p: &Vec<Belt>, q: &Vec<Belt>, n: usize, omega: Belt, parallel: bool) -> (r: Vec<Belt>)
    requires
        p.len() >= 1,
        q.len() >= 1,
        p.len() + q.len() - 1 <= n,
        is_pow2(n as nat),
        2 * n <= usize::MAX,
    ensures
        vals(r@) == fft_mul_spec(vals(p@), vals(q@), n as nat, omega.val()),
        forall|k: int| 0 <= k < r.len() ==> (#[trigger] r[k]).canonical(),
{
    let result_len = p.len() + q.len() - 1;
    let p_padded = pad_copy(p, n);
    let q_padded = pad_copy(q, n);
    let p_fft = fft_for_mul(&p_padded, omega);
    let q_fft = fft_for_mul(&q_padded, omega);
    let product = if parallel {
        pointwise_mul_par(&p_fft, &q_fft)
    } else {
        pointwise_mul_seq(&p_fft, &q_fft)
    };
    let omega_inv = omega.inv();
    let result_padded = fft_for_mul(&product, omega_inv);
    let n_inv = Belt::from_u64(n as u64).inv();
    let ghost rr = fft_spec(vals(product@), finv(omega.val()));
    let result = if parallel {
        par_tabulate(
            result_len,
            (|i: usize| -> (b: Belt)
                requires
                    i < result_len,
                    result_len <= result_padded.len(),
                ensures
                    b.val() == fmul(vals(result_padded@)[i as int], n_inv.val()),
                    b.canonical(),
            {
                result_padded[i].mul(n_inv)
            }),
        )
    } else {
        let mut result: Vec<Belt> = Vec::new();
        let mut i: usize = 0;
        while i < result_len
            invariant
                result_len <= result_padded.len(),
                i <= result_len,
                result.len() == i,
                forall|j: int| 0 <= j < i ==> (#[trigger] result[j]).val() == fmul(vals(result_padded@)[j], n_inv.val()) && result[j].canonical(),
            decreases result_len - i,
        {
            result.push(result_padded[i].mul(n_inv));
            i = i + 1;
        }
        result
    };
    proof {
        assert(vals(result@) =~= fft_mul_spec(vals(p@), vals(q@), n as nat, omega.val()));
    }
    result
}

/// The product through transforms of the next power of two from the product's
/// length, with the root of unity of that order (one where none exists).
pub fn multiply_fft(p: &Vec<Belt>, q: &Vec<Belt>) -> (r: Vec<Belt>)
    requires
        p.len() >= 1,
        q.len() >= 1,
        4 * (p.len() + q.len()) <= usize::MAX,
    ensures
        vals(r@) == fft_mul_spec(
            vals(p@),
            vals(q@),
            next_pow2((p.len() + q.len() - 1) as nat),
            mul_root(next_pow2((p.len() + q.len() - 1) as nat)),
        ),
        forall|k: int| 0 <= k < r.len() ==> (#[trigger] r[k]).canonical(),
{
    let result_len = p.len() + q.len() - 1;
    let fft_size = next_power_of_two(result_len);
    let omega = match find_root_of_unity(fft_size) {
        Ok(w) => w,
        Err(_) => Belt::from_u64(1),
    };
    proof {
        lemma_small_mod(1, modulus());
    }
    fft_convolve(p, q, fft_size, omega, false)
}

/// The product of two polynomials; empty when a factor is empty.
pub fn multiply_polynomials(p: &Vec<Belt>, q: &Vec<Belt>) -> (r: Vec<Belt>)
    requires
        4 * (p.len() + q.len()) <= usize::MAX,
    ensures
        vals(r@) == multiply_spec(vals(p@), vals(q@)),
        forall|k: int| 0 <= k < r.len() ==> (#[trigger] r[k]).canonical(),
{
    if p.len() == 0 || q.len() == 0 {
        return Vec::new();
    }
    let result_len = p.len() + q.len() - 1;
    if result_len >= FFT_MUL_THRESHOLD {
        multiply_fft(p, q)
    } else {
        multiply_naive(p, q)
    }
}

/// The products of a batch of pairs of polynomials, in parallel.
pub fn batch_multiply(pairs: &Vec<(Vec<Belt>, Vec<Belt>)>) -> (r: Vec<Vec<Belt>>)
    requires
        forall|i: int| 0 <= i < pairs.len() ==> 4 * ((#[trigger] pairs[i]).0.len() + pairs[i].1.len()) <= usize::MAX,
    ensures
        r.len() == pairs.len(),
        forall|i: int| 0 <= i < pairs.len() ==> vals((#[trigger] r[i])@) == multiply_spec(vals(pairs[i].0@), vals(pairs[i].1@))
            && forall|k: int| 0 <= k < r[i].len() ==> (#[trigger] r[i][k]).canonical(),
{
    par_map(
        pairs,
        (|pq: &(Vec<Belt>, Vec<Belt>)| -> (s: Vec<Belt>)
            requires
                4 * (pq.0.len() + pq.1.len()) <= usize::MAX,
            ensures
                vals(s@) == multiply_spec(vals(pq.0@), vals(pq.1@)),
                forall|k: int| 0 <= k < s.len() ==> (#[trigger] s[k]).canonical(),
        {
            multiply_polynomials(&pq.0, &pq.1)
        }),
    )
}

/// What the product jet computes: nothing for an empty factor, the schoolbook product
/// below `FFT_MUL_THRESHOLD` coefficients, else the product through transforms of the
/// next power of two with its root of unity.
pub open spec fn bpmul_spec(p: Seq<nat>, q: Seq<nat>) -> Seq<nat> {
    if p.len() == 0 || q.len() == 0 {
        Seq::empty()
    } else if p.len() + q.len() - 1 < FFT_MUL_THRESHOLD {
        poly_mul_spec(p, q)
    } else {
        let n = next_pow2((p.len() + q.len() - 1) as nat);
        fft_mul_spec(p, q, n, root_of_unity(n))
    }
}

/// The product computed by the product jet, failing where the transform would need a
/// root of unity of an order the field lacks.
pub fn bpmul(p: &Vec<Belt>, q: &Vec<Belt>) -> (r: Result<Vec<Belt>, JetErr>)
    requires
        4 * (p.len() + q.len()) <= usize::MAX,
    ensures
        r is Err <==> (p.len() >= 1 && q.len() >= 1 && p.len() + q.len() - 1 >= FFT_MUL_THRESHOLD
            && next_pow2((p.len() + q.len() - 1) as nat) > MAX_FFT_SIZE),
        r matches Ok(v) ==> vals(v@) == bpmul_spec(vals(p@), vals(q@)) && forall|k: int| 0 <= k < v.len() ==> (#[trigger] v[k]).canonical(),
{
    if p.len() == 0 || q.len() == 0 {
        return Ok(Vec::new());
    }
    let result_len = p.len() + q.len() - 1;
    if result_len < FFT_MUL_THRESHOLD {
        return Ok(multiply_naive(p, q));
    }
    let fft_size = next_power_of_two(result_len);
    let omega = match find_root_of_unity(fft_size) {
        Ok(w) => w,
        Err(e) => {
            return Err(e);
        },
    };
    Ok(fft_convolve(p, q, fft_size, omega, true))
}

} // verus!
