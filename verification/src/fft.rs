//! Fast Fourier transforms over the Goldilocks field: the recursive radix-2
//! transform, the iterative in-place transform with bit-reversed input order, and
//! their inverses.
use crate::field::{
    fadd, finv, fmul, fpow, fsub, lemma_fpow_add, lemma_fmul_comm, lemma_fmul_one_left, lemma_reduce_args, modulus, Belt,
};
use crate::par::{par_map, par_tabulate, vals};
use vstd::arithmetic::div_mod::*;
use vstd::prelude::*;

verus! {

/// The entries of `a` at even indices.
pub open spec fn evens(a: Seq<nat>) -> Seq<nat> {
    Seq::new(a.len() / 2, |i: int| a[2 * i])
}

/// The entries of `a` at odd indices.
pub open spec fn odds(a: Seq<nat>) -> Seq<nat> {
    Seq::new(a.len() / 2, |i: int| a[2 * i + 1])
}

/// The radix-2 decimation-in-time transform of `a` with root `w`: the transforms of
/// the even and the odd entries with root `w^2`, joined by butterflies. Entries past
/// twice the half length (present only for odd lengths) are zero.
pub open spec fn fft_spec(a: Seq<nat>, w: nat) -> Seq<nat>
    decreases a.len(),
{
    if a.len() <= 1 {
        a
    } else {
        let h = a.len() / 2;
        let e = fft_spec(evens(a), fmul(w, w));
        let o = fft_spec(odds(a), fmul(w, w));
        Seq::new(
            a.len(),
            |k: int|
                if k < h {
                    fadd(e[k], fmul(fpow(w, k as nat), o[k]))
                } else if k < 2 * h {
                    fsub(e[k - h], fmul(fpow(w, (k - h) as nat), o[k - h]))
                } else {
                    0
                },
        )
    }
}

/// The transform keeps the length.
pub proof fn lemma_fft_spec_len(a: Seq<nat>, w: nat)
    ensures
        fft_spec(a, w).len() == a.len(),
{
}

/// A vector of `n` zeros.
pub fn zeros(n: usize) -> (r: Vec<Belt>)
    ensures
        r.len() == n,
        forall|i: int| 0 <= i < n ==> (#[trigger] r[i]).val() == 0 && r[i].canonical(),
{
    let mut r: Vec<Belt> = Vec::new();
    let mut k: usize = 0;
    while k < n
        invariant
            k <= n,
            r.len() == k,
            forall|i: int| 0 <= i < k ==> (#[trigger] r[i]).val() == 0 && r[i].canonical(),
        decreases n - k,
    {
        r.push(Belt::zero());
        k = k + 1;
    }
    r
}

/// The recursive radix-2 transform of a non-empty input.
pub fn fft_recursive(input: &Vec<Belt>, omega: Belt) -> (r: Vec<Belt>)
    requires
        input.len() >= 1,
    ensures
        r.len() == input.len(),
        vals(r@) == fft_spec(vals(input@), omega.val()),
        input.len() == 1 ==> r[0] == input[0],
        input.len() >= 2 ==> forall|k: int| 0 <= k < r.len() ==> (#[trigger] r[k]).canonical(),
    decreases input.len(),
{
    let n = input.len();
    let ghost a = vals(input@);
    if n == 1 {
        let mut o: Vec<Belt> = Vec::new();
        o.push(input[0]);
        proof {
            assert(vals(o@) =~= a);
        }
        return o;
    }
    let half = n / 2;
    let omega_sq = omega.mul(omega);
    let mut even: Vec<Belt> = Vec::new();
    let mut odd: Vec<Belt> = Vec::new();
    let mut i: usize = 0;
    while i < half
        invariant
            n == input.len(),
            half == n / 2,
            i <= half,
            even.len() == i,
            odd.len() == i,
            forall|j: int| 0 <= j < i ==> #[trigger] even[j] == input[2 * j],
            forall|j: int| 0 <= j < i ==> #[trigger] odd[j] == input[2 * j + 1],
        decreases half - i,
    {
        even.push(input[2 * i]);
        odd.push(input[2 * i + 1]);
        i = i + 1;
    }
    proof {
        assert(vals(even@) =~= evens(a));
        assert(vals(odd@) =~= odds(a));
    }
    let even_out = fft_recursive(&even, omega_sq);
    let odd_out = fft_recursive(&odd, omega_sq);
    let ghost e = fft_spec(evens(a), fmul(omega.val(), omega.val()));
    let ghost o = fft_spec(odds(a), fmul(omega.val(), omega.val()));
    let mut output = zeros(n);
    let mut wp = Belt::one();
    let mut i: usize = 0;
    while i < half
        invariant
            n == input.len(),
            half == n / 2,
            i <= half,
            output.len() == n,
            even_out.len() == half,
            odd_out.len() == half,
            vals(even_out@) == e,
            vals(odd_out@) == o,
            wp.val() == fpow(omega.val(), i as nat),
            forall|k: int| 0 <= k < i ==> (#[trigger] output[k]).val() == fadd(e[k], fmul(fpow(omega.val(), k as nat), o[k])),
            forall|k: int| half <= k < half + i ==> (#[trigger] output[k]).val() == fsub(e[k - half], fmul(fpow(omega.val(), (k - half) as nat), o[k - half])),
            forall|k: int| half + i <= k < n || i <= k < half ==> (#[trigger] output[k]).val() == 0,
            forall|k: int| 0 <= k < n ==> (#[trigger] output[k]).canonical(),
        decreases half - i,
    {
        let t = wp.mul(odd_out[i]);
        output.set(i, even_out[i].add(t));
        output.set(i + half, even_out[i].sub(t));
        let ghost old_wp = wp.val();
        wp = wp.mul(omega);
        proof {
            lemma_fmul_comm(old_wp, omega.val());
        }
        i = i + 1;
    }
    proof {
        assert(vals(output@) =~= fft_spec(a, omega.val()));
    }
    output
}

/// `2^k`.
pub open spec fn two_pow(k: nat) -> nat
    decreases k,
{
    if k == 0 {
        1
    } else {
        2 * two_pow((k - 1) as nat)
    }
}

/// The low `k` bits of `x`, in reverse order.
pub open spec fn rev(x: nat, k: nat) -> nat
    decreases k,
{
    if k == 0 {
        0
    } else {
        (x % 2) * two_pow((k - 1) as nat) + rev(x / 2, (k - 1) as nat)
    }
}

/// Powers of two are positive.
pub proof fn lemma_two_pow_pos(k: nat)
    ensures
        two_pow(k) >= 1,
    decreases k,
{
    if k > 0 {
        lemma_two_pow_pos((k - 1) as nat);
    }
}

/// `2^(a+b) == 2^a * 2^b`.
pub proof fn lemma_two_pow_add(a: nat, b: nat)
    ensures
        two_pow(a + b) == two_pow(a) * two_pow(b),
    decreases a,
{
    if a > 0 {
        lemma_two_pow_add((a - 1) as nat, b);
        assert(((a + b) - 1) as nat == ((a - 1) as nat + b));
        assert(two_pow(a + b) == 2 * two_pow(((a + b) - 1) as nat));
        vstd::arithmetic::mul::lemma_mul_is_associative(2, two_pow((a - 1) as nat) as int, two_pow(b) as int);
    } else {
        vstd::arithmetic::mul::lemma_mul_basics(two_pow(b) as int);
        assert(a + b == b);
    }
}

/// Powers of two grow with the exponent.
pub proof fn lemma_two_pow_mono(a: nat, b: nat)
    requires
        a <= b,
    ensures
        two_pow(a) <= two_pow(b),
    decreases b,
{
    if a < b {
        lemma_two_pow_mono(a, (b - 1) as nat);
        lemma_two_pow_pos((b - 1) as nat);
    }
}

/// A reversal of `k` bits is below `2^k`.
pub proof fn lemma_rev_bound(x: nat, k: nat)
    ensures
        rev(x, k) < two_pow(k),
    decreases k,
{
    if k > 0 {
        lemma_rev_bound(x / 2, (k - 1) as nat);
        let t = two_pow((k - 1) as nat);
        assert((x % 2) * t <= t) by (nonlinear_arith)
            requires
                x % 2 <= 1,
        ;
    }
}

/// Reversing one more bit shifts the reversal left and appends bit `k` of `x`.
pub proof fn lemma_rev_step(x: nat, k: nat)
    ensures
        rev(x, k + 1) == 2 * rev(x, k) + (x / two_pow(k)) % 2,
    decreases k,
{
    if k == 0 {
        assert(x / 1 == x);
        assert(two_pow(0) == 1);
        assert(rev(x, 1) == (x % 2) * two_pow(0) + rev(x / 2, 0));
        assert((x % 2) * 1 == x % 2);
    } else {
        let k1 = (k - 1) as nat;
        lemma_rev_step(x / 2, k1);
        lemma_two_pow_pos(k1);
        assert(x / 2 / two_pow(k1) == x / two_pow(k)) by {
            lemma_div_denominator(x as int, 2, two_pow(k1) as int);
        }
        assert(rev(x, k + 1) == (x % 2) * two_pow(k) + rev(x / 2, k));
        assert((x % 2) * two_pow(k) == 2 * ((x % 2) * two_pow(k1))) by {
            vstd::arithmetic::mul::lemma_mul_is_associative((x % 2) as int, 2, two_pow(k1) as int);
            vstd::arithmetic::mul::lemma_mul_is_commutative((x % 2) as int, 2);
            vstd::arithmetic::mul::lemma_mul_is_associative(2, (x % 2) as int, two_pow(k1) as int);
        }
    }
}

/// Reversal reads only the low `k` bits.
pub proof fn lemma_rev_high(c: nat, z: nat, k: nat)
    ensures
        rev(c * two_pow(k) + z, k) == rev(z, k),
    decreases k,
{
    if k > 0 {
        let k1 = (k - 1) as nat;
        let y = c * two_pow(k) + z;
        assert(c * two_pow(k) == 2 * (c * two_pow(k1))) by {
            vstd::arithmetic::mul::lemma_mul_is_associative(c as int, 2, two_pow(k1) as int);
            vstd::arithmetic::mul::lemma_mul_is_commutative(c as int, 2);
            vstd::arithmetic::mul::lemma_mul_is_associative(2, c as int, two_pow(k1) as int);
        }
        assert(y % 2 == z % 2 && y / 2 == c * two_pow(k1) + z / 2) by {
            lemma_fundamental_div_mod(z as int, 2);
        }
        lemma_rev_high(c, z / 2, k1);
    }
}

/// Reversing the low `k` bits twice gives back a number below `2^k`.
pub proof fn lemma_rev_involution(x: nat, k: nat)
    requires
        x < two_pow(k),
    ensures
        rev(rev(x, k), k) == x,
    decreases k,
{
    if k > 0 {
        let k1 = (k - 1) as nat;
        let q = x / 2;
        let r = x % 2;
        assert(q < two_pow(k1));
        lemma_rev_involution(q, k1);
        let y = rev(x, k);
        lemma_rev_bound(q, k1);
        assert(y == r * two_pow(k1) + rev(q, k1));
        lemma_rev_step(y, k1);
        assert(y / two_pow(k1) == r) by {
            lemma_two_pow_pos(k1);
            lemma_fundamental_div_mod_converse_div(y as int, two_pow(k1) as int, r as int, rev(q, k1) as int);
            vstd::arithmetic::mul::lemma_mul_is_commutative(r as int, two_pow(k1) as int);
        }
        lemma_rev_high(r, rev(q, k1), k1);
    }
}

/// The bit reversal of block index `2b` or `2b + 1` on one more bit.
pub proof fn lemma_rev_children(b: nat, k: nat)
    ensures
        rev(2 * b, k + 1) == rev(b, k),
        rev(2 * b + 1, k + 1) == two_pow(k) + rev(b, k),
{
    assert((2 * b) % 2 == 0 && (2 * b) / 2 == b);
    assert((2 * b + 1) % 2 == 1 && (2 * b + 1) / 2 == b);
}

/// The low `bits` bits of `n`, in reverse order.
pub fn reverse_bits(n: usize, bits: usize) -> (r: usize)
    requires
        bits < 64,
        two_pow(bits as nat) <= usize::MAX as nat + 1,
    ensures
        r as nat == rev(n as nat, bits as nat),
{
    let mut result: u64 = 0;
    let mut m: u64 = n as u64;
    let mut i: usize = 0;
    proof {
        lemma_two_pow_pos(0);
    }
    while i < bits
        invariant
            i <= bits,
            bits < 64,
            result as nat == rev(n as nat, i as nat),
            m as nat == n as nat / two_pow(i as nat),
        decreases bits - i,
    {
        proof {
            lemma_rev_step(n as nat, i as nat);
            lemma_rev_bound(n as nat, i as nat);
            lemma_two_pow_mono(i as nat, 63);
            lemma_two_pow_63();
            lemma_two_pow_pos(i as nat);
        }
        let bit = m & 1;
        assert(bit == m % 2) by (bit_vector)
            requires
                bit == m & 1,
        ;
        assert(result < 0x8000_0000_0000_0000u64);
        let shifted = result << 1;
        assert(shifted == 2 * result) by (bit_vector)
            requires
                result < 0x8000_0000_0000_0000u64,
                shifted == result << 1,
        ;
        assert(shifted | bit == shifted + bit) by (bit_vector)
            requires
                shifted == 2 * result,
                bit < 2,
                result < 0x8000_0000_0000_0000u64,
        ;
        result = shifted | bit;
        let ghost old_m = m;
        m = m >> 1;
        assert(m == old_m / 2) by (bit_vector)
            requires
                m == old_m >> 1,
        ;
        proof {
            lemma_div_denominator(n as int, two_pow(i as nat) as int, 2);
            vstd::arithmetic::mul::lemma_mul_is_commutative(two_pow(i as nat) as int, 2);
        }
        i = i + 1;
    }
    proof {
        lemma_rev_bound(n as nat, bits as nat);
    }
    result as usize
}

/// `2^63`.
pub proof fn lemma_two_pow_63()
    ensures
        two_pow(63) == 0x8000_0000_0000_0000,
{
    reveal_with_fuel(two_pow, 64);
}

/// Whether `n` is a power of two.
pub open spec fn is_pow2(n: nat) -> bool {
    exists|m: nat| two_pow(m) == n
}

/// Consecutive blocks: a block start below a multiple of the block size ends at or
/// before that multiple.
pub proof fn lemma_block_fits(k: nat, n: nat, s: nat)
    requires
        s > 0,
        k % s == 0,
        n % s == 0,
        k < n,
    ensures
        k + s <= n,
{
    lemma_fundamental_div_mod(k as int, s as int);
    lemma_fundamental_div_mod(n as int, s as int);
    let qk = k / s;
    let qn = n / s;
    assert(qk < qn) by {
        if qk >= qn {
            vstd::arithmetic::mul::lemma_mul_inequality(qn as int, qk as int, s as int);
            vstd::arithmetic::mul::lemma_mul_is_commutative(qn as int, s as int);
            vstd::arithmetic::mul::lemma_mul_is_commutative(qk as int, s as int);
        }
    }
    vstd::arithmetic::mul::lemma_mul_inequality((qk + 1) as int, qn as int, s as int);
    vstd::arithmetic::mul::lemma_mul_is_distributive_add_other_way(s as int, qk as int, 1);
    vstd::arithmetic::mul::lemma_mul_is_commutative(qn as int, s as int);
    vstd::arithmetic::mul::lemma_mul_is_commutative(qk as int, s as int);
    vstd::arithmetic::mul::lemma_mul_is_commutative((qk + 1) as int, s as int);
}

/// The value a butterfly of block size `size` writes at offset `j` of the lower half
/// of the block starting at `k`.
pub open spec fn bf_lo(old: Seq<nat>, k: int, j: int, h: int, w: nat) -> nat {
    fadd(old[k + j], fmul(fpow(w, j as nat), old[k + j + h]))
}

/// The value a butterfly writes at offset `j` of the upper half of the block.
pub open spec fn bf_hi(old: Seq<nat>, k: int, j: int, h: int, w: nat) -> nat {
    fsub(old[k + j], fmul(fpow(w, j as nat), old[k + j + h]))
}

/// Whether `k` is the start of a block of `s` entries.
pub open spec fn block_start(k: int, s: int) -> bool {
    k % s == 0
}

/// Where `k` starts a block of `size` entries and `j < size`, entry `k + j` lies at
/// offset `j` of the block starting at `k`.
proof fn lemma_block_offset(k: int, j: int, size: int)
    requires
        size > 0,
        k >= 0,
        k % size == 0,
        0 <= j < size,
    ensures
        (k + j) % size == j,
        (k + j) - (k + j) % size == k,
{
    vstd::arithmetic::div_mod::lemma_fundamental_div_mod(k, size);
    lemma_mod_multiples_vanish(k / size, j, size);
    lemma_small_mod(j as nat, size as nat);
}

/// Whether `r` is what one stage with blocks of `size` entries and twiddle factors
/// the powers of `w` makes of `o`.
pub open spec fn stage_done(r: Seq<Belt>, o: Seq<nat>, size: nat, w: nat) -> bool {
    forall|k: int, j: int|
        #![trigger bf_lo(o, k, j, (size / 2) as int, w)]
        0 <= k < o.len() && block_start(k, size as int) && 0 <= j < size / 2 ==> {
            &&& r[k + j].val() == bf_lo(o, k, j, (size / 2) as int, w)
            &&& r[k + j + size / 2].val() == bf_hi(o, k, j, (size / 2) as int, w)
            &&& r[k + j].canonical()
            &&& r[k + j + size / 2].canonical()
        }
}

/// One stage of the iterative transform computed in parallel, entry by entry, out of
/// place: every block of `size` entries is combined from its two halves, with
/// twiddle factors the powers of `w`.
#[verifier::spinoff_prover]
pub fn butterfly_stage_par(out: &Vec<Belt>, size: usize, w: Belt) -> (r: Vec<Belt>)
    requires
        size >= 2,
        size % 2 == 0,
        out.len() % size == 0,
    ensures
        r.len() == out.len(),
        stage_done(r@, vals(out@), size as nat, w.val()),
{
    let n = out.len();
    let h = size / 2;
    let f = (|i: usize| -> (b: Belt)
            requires
                i < n,
            ensures
                (i % size) < h ==> b.val() == bf_lo(vals(out@), (i - i % size) as int, (i % size) as int, h as int, w.val()),
                (i % size) >= h ==> b.val() == bf_hi(vals(out@), (i - i % size) as int, (i % size - h) as int, h as int, w.val()),
                b.canonical(),
        {
            let j = i % size;
            proof {
                lemma_fundamental_div_mod(i as int, size as int);
                assert(size * (i / size) >= 0) by (nonlinear_arith)
                    requires
                        size >= 2,
                ;
            }
            let k = i - j;
            proof {
                assert(k + size <= n) by {
                    assert(k == size * (i / size));
                    lemma_mod_multiples_basic((i / size) as int, size as int);
                    vstd::arithmetic::mul::lemma_mul_is_commutative(size as int, (i / size) as int);
                    assert(k % size == 0);
                    lemma_block_fits(k as nat, n as nat, size as nat);
                }
                assert(vals(out@)[i as int] == out[i as int].val());
            }
            if j < h {
                let t = w.pow(j as u64).mul(out[k + j + h]);
                proof {
                    assert(vals(out@)[(k + j + h) as int] == out[(k + j + h) as int].val());
                }
                out[k + j].add(t)
            } else {
                let jj = j - h;
                let t = w.pow(jj as u64).mul(out[k + jj + h]);
                proof {
                    assert(vals(out@)[(k + jj) as int] == out[(k + jj) as int].val());
                    assert(vals(out@)[(k + jj + h) as int] == out[(k + jj + h) as int].val());
                }
                out[k + jj].sub(t)
            }
        });
    let r = par_tabulate(n, f);
    proof {
        let o = vals(out@);
        assert forall|i: int| 0 <= i < n implies {
            &&& (i % (size as int)) < h ==> #[trigger] r[i].val() == bf_lo(o, i - i % (size as int), i % (size as int), h as int, w.val())
            &&& (i % (size as int)) >= h ==> r[i].val() == bf_hi(o, i - i % (size as int), i % (size as int) - h, h as int, w.val())
            &&& r[i].canonical()
        } by {
            assert(call_ensures(f, (i as usize,), r[i]));
        }
        assert forall|k: int, j: int|
            #![trigger bf_lo(o, k, j, (size / 2) as int, w.val())]
            0 <= k < o.len() && block_start(k, size as int) && 0 <= j < size / 2 implies {
                &&& r@[k + j].val() == bf_lo(o, k, j, (size / 2) as int, w.val())
                &&& r@[k + j + size / 2].val() == bf_hi(o, k, j, (size / 2) as int, w.val())
                &&& r@[k + j].canonical()
                &&& r@[k + j + size / 2].canonical()
            } by {
            lemma_block_fits(k as nat, n as nat, size as nat);
            lemma_block_offset(k, j, size as int);
            lemma_block_offset(k, j + h, size as int);
            let _ = r[k + j];
            let _ = r[k + j + h];
        }
        assert(stage_done(r@, o, size as nat, w.val()));
    }
    r
}

/// One stage of the iterative transform: every block of `size` entries is combined
/// in place from its two halves, with twiddle factors the powers of `w`.
#[verifier::spinoff_prover]
#[verifier::rlimit(40)]
pub fn butterfly_stage(out: &mut Vec<Belt>, size: usize, w: Belt)
    requires
        size >= 2,
        size % 2 == 0,
        old(out).len() % size == 0,
    ensures
        final(out).len() == old(out).len(),
        forall|k: int, j: int|
            #![trigger bf_lo(vals(old(out)@), k, j, (size / 2) as int, w.val())]
            0 <= k < old(out).len() && block_start(k, size as int) && 0 <= j < size / 2 ==> {
                &&& final(out)[k + j].val() == bf_lo(vals(old(out)@), k, j, (size / 2) as int, w.val())
                &&& final(out)[k + j + size / 2].val() == bf_hi(vals(old(out)@), k, j, (size / 2) as int, w.val())
                &&& final(out)[k + j].canonical()
                &&& final(out)[k + j + size / 2].canonical()
            },
{
    let ghost o = vals(out@);
    let n = out.len();
    let h = size / 2;
    let mut k: usize = 0;
    while k < n
        invariant
            n == out.len(),
            o.len() == n,
            h == size / 2,
            size >= 2,
            size % 2 == 0,
            n % size == 0,
            k <= n,
            k % size == 0,
            forall|kk: int, j: int|
                #![trigger bf_lo(o, kk, j, h as int, w.val())]
                0 <= kk < k && block_start(kk, size as int) && 0 <= j < h ==> {
                    &&& out[kk + j].val() == bf_lo(o, kk, j, h as int, w.val())
                    &&& out[kk + j + h].val() == bf_hi(o, kk, j, h as int, w.val())
                    &&& out[kk + j].canonical()
                    &&& out[kk + j + h].canonical()
                },
            forall|i: int| k <= i < n ==> #[trigger] out[i].val() == o[i],
        decreases n - k,
    {
        proof {
            lemma_block_fits(k as nat, n as nat, size as nat);
            assert forall|kk: int| 0 <= kk < k && #[trigger] block_start(kk, size as int) implies kk + size <= k by {
                lemma_block_fits(kk as nat, k as nat, size as nat);
            }
        }
        let mut wp = Belt::one();
        let mut j: usize = 0;
        while j < h
            invariant
                n == out.len(),
                o.len() == n,
                h == size / 2,
                size >= 2,
                size % 2 == 0,
                k + size <= n,
                k % size == 0,
                j <= h,
                wp.val() == fpow(w.val(), j as nat),
                forall|kk: int| 0 <= kk < k && #[trigger] block_start(kk, size as int) ==> kk + size <= k,
                forall|kk: int, jj: int|
                    #![trigger bf_lo(o, kk, jj, h as int, w.val())]
                    0 <= kk < k && block_start(kk, size as int) && 0 <= jj < h ==> {
                        &&& out[kk + jj].val() == bf_lo(o, kk, jj, h as int, w.val())
                        &&& out[kk + jj + h].val() == bf_hi(o, kk, jj, h as int, w.val())
                        &&& out[kk + jj].canonical()
                        &&& out[kk + jj + h].canonical()
                    },
                forall|jj: int| 0 <= jj < j ==> {
                    &&& #[trigger] out[k + jj].val() == bf_lo(o, k as int, jj, h as int, w.val())
                    &&& out[k + jj + h].val() == bf_hi(o, k as int, jj, h as int, w.val())
                    &&& out[k + jj].canonical()
                    &&& out[k + jj + h].canonical()
                },
                forall|i: int| k + j <= i < k + h ==> #[trigger] out[i].val() == o[i],
                forall|i: int| k + h + j <= i < n ==> #[trigger] out[i].val() == o[i],
            decreases h - j,
        {
            let t = wp.mul(out[k + j + h]);
            let u = out[k + j];
            let ghost prev = out@;
            out.set(k + j, u.add(t));
            out.set(k + j + h, u.sub(t));
            let ghost old_wp = wp.val();
            wp = wp.mul(w);
            proof {
                lemma_fmul_comm(old_wp, w.val());
                assert forall|kk: int, jj: int|
                    #![trigger bf_lo(o, kk, jj, h as int, w.val())]
                    0 <= kk < k && block_start(kk, size as int) && 0 <= jj < h implies {
                        &&& out[kk + jj] == prev[kk + jj]
                        &&& out[kk + jj + h] == prev[kk + jj + h]
                    } by {
                    assert(kk + size <= k);
                }
                assert forall|jj: int| 0 <= jj < j implies {
                    &&& #[trigger] out@[k + jj] == prev[k + jj]
                    &&& out@[k + jj + h] == prev[k + jj + h]
                } by {
                }
            }
            j = j + 1;
        }
        proof {
            assert forall|kk: int, jj: int|
                0 <= kk < k + size && block_start(kk, size as int) && 0 <= jj < h implies {
                    &&& out[kk + jj].val() == #[trigger] bf_lo(o, kk, jj, h as int, w.val())
                    &&& out[kk + jj + h].val() == bf_hi(o, kk, jj, h as int, w.val())
                    &&& out[kk + jj].canonical()
                    &&& out[kk + jj + h].canonical()
                } by {
                if kk > k {
                    lemma_block_fits(k as nat, kk as nat, size as nat);
                }
            }
            assert((k + size) % (size as int) == 0) by {
                lemma_mod_add_multiples_vanish(k as int, size as int);
            }
        }
        k = k + size;
    }
}

/// The entries of `a` that the block `b` of size `2^t` holds after the bit-reversal
/// permutation of `2^m` entries: indices `rev(b) + j * 2^(m-t)`.
pub open spec fn stage_block(a: Seq<nat>, m: nat, t: nat, b: nat) -> Seq<nat> {
    Seq::new(two_pow(t), |j: int| a[rev(b, (m - t) as nat) + j * two_pow((m - t) as nat)])
}

/// After stage `t` of the iterative transform of `a` (of length `2^m`) with root `w`,
/// block `b` of size `2^t` holds the transform of `stage_block(a, m, t, b)` with root
/// `w^(2^(m-t))`.
pub open spec fn stage_ok(out: Seq<nat>, a: Seq<nat>, m: nat, t: nat, w: nat) -> bool {
    forall|b: int, j: int|
        0 <= b < two_pow((m - t) as nat) && 0 <= j < two_pow(t) ==> out[b * two_pow(t) + j]
            == #[trigger] fft_spec(stage_block(a, m, t, b as nat), fpow(w, two_pow((m - t) as nat)))[j]
}

/// A stage of butterflies takes the state after stage `t` to the state after stage
/// `t + 1`.
pub proof fn lemma_stage_step(o: Seq<nat>, nw: Seq<nat>, a: Seq<nat>, m: nat, t: nat, w: nat)
    requires
        t < m,
        o.len() == two_pow(m),
        nw.len() == two_pow(m),
        a.len() == two_pow(m),
        stage_ok(o, a, m, t, w),
        forall|k: int, j: int|
            #![trigger bf_lo(o, k, j, two_pow(t) as int, fpow(w, two_pow((m - t - 1) as nat)))]
            0 <= k < two_pow(m) && block_start(k, two_pow(t + 1) as int) && 0 <= j < two_pow(t) ==> {
                &&& nw[k + j] == bf_lo(o, k, j, two_pow(t) as int, fpow(w, two_pow((m - t - 1) as nat)))
                &&& nw[k + j + two_pow(t)] == bf_hi(o, k, j, two_pow(t) as int, fpow(w, two_pow((m - t - 1) as nat)))
            },
    ensures
        stage_ok(nw, a, m, t + 1, w),
{
    let d = (m - t - 1) as nat;
    let dd = two_pow(d);
    let h = two_pow(t);
    let size = two_pow(t + 1);
    let ww = fpow(w, dd);
    assert(size == 2 * h);
    assert((m - t) as nat == d + 1);
    assert((m - (t + 1)) as nat == d);
    assert(two_pow(d + 1) == 2 * dd);
    lemma_two_pow_pos(t);
    lemma_two_pow_pos(d);
    lemma_two_pow_add(t + 1, d);
    assert(t + 1 + d == m);
    lemma_fpow_add(w, dd, dd);
    assert forall|b: int, j: int|
        0 <= b < two_pow((m - (t + 1)) as nat) && 0 <= j < two_pow(t + 1) implies nw[b * two_pow(t + 1) + j]
            == #[trigger] fft_spec(stage_block(a, m, t + 1, b as nat), fpow(w, two_pow((m - (t + 1)) as nat)))[j] by {
        let s = stage_block(a, m, t + 1, b as nat);
        let e_in = stage_block(a, m, t, (2 * b) as nat);
        let o_in = stage_block(a, m, t, (2 * b + 1) as nat);
        lemma_rev_children(b as nat, d);
        assert(evens(s) =~= e_in) by {
            assert forall|jj: int| 0 <= jj < h implies evens(s)[jj] == e_in[jj] by {
                assert(jj * (2 * dd) == (2 * jj) * dd) by (nonlinear_arith);
            }
        }
        assert(odds(s) =~= o_in) by {
            assert forall|jj: int| 0 <= jj < h implies odds(s)[jj] == o_in[jj] by {
                assert(jj * (2 * dd) + dd == (2 * jj + 1) * dd) by (nonlinear_arith);
            }
        }
        let w2 = fpow(w, two_pow(d + 1));
        assert(fmul(ww, ww) == w2);
        let e = fft_spec(e_in, w2);
        let oo = fft_spec(o_in, w2);
        let k = b * size;
        assert(k == (2 * b) * h && k + h == (2 * b + 1) * h) by (nonlinear_arith)
            requires
                k == b * size,
                size == 2 * h,
        ;
        assert(0 <= k && k + size <= two_pow(m)) by (nonlinear_arith)
            requires
                k == b * size,
                0 <= b < dd,
                two_pow(m) == size * dd,
                size >= 0,
        ;
        assert(block_start(k, size as int)) by {
            lemma_mod_multiples_basic(b, size as int);
        }
        assert(2 * b < two_pow((m - t) as nat) && 2 * b + 1 < two_pow((m - t) as nat));
        if j < h {
            assert(nw[k + j] == bf_lo(o, k, j, h as int, ww));
            assert(o[(2 * b) * h + j] == fft_spec(e_in, w2)[j]);
            assert(o[(2 * b + 1) * h + j] == fft_spec(o_in, w2)[j]);
            assert(fft_spec(s, ww)[j] == fadd(e[j], fmul(fpow(ww, j as nat), oo[j])));
        } else {
            let jj = j - h;
            assert(nw[k + jj] == bf_lo(o, k, jj, h as int, ww));
            assert(nw[k + jj + h] == bf_hi(o, k, jj, h as int, ww));
            assert(o[(2 * b) * h + jj] == fft_spec(e_in, w2)[jj]);
            assert(o[(2 * b + 1) * h + jj] == fft_spec(o_in, w2)[jj]);
            assert(fft_spec(s, ww)[j] == fsub(e[jj], fmul(fpow(ww, jj as nat), oo[jj])));
        }
    }
}

/// The state right after the bit-reversal permutation is the state after stage 0.
pub proof fn lemma_stage_base(o: Seq<nat>, a: Seq<nat>, m: nat, w: nat)
    requires
        o.len() == two_pow(m),
        a.len() == two_pow(m),
        forall|b: int| 0 <= b < two_pow(m) ==> #[trigger] o[b] == a[rev(b as nat, m) as int],
    ensures
        stage_ok(o, a, m, 0, w),
{
    assert forall|b: int, j: int| 0 <= b < two_pow((m - 0) as nat) && 0 <= j < two_pow(0) implies o[b * two_pow(0) + j]
        == #[trigger] fft_spec(stage_block(a, m, 0, b as nat), fpow(w, two_pow((m - 0) as nat)))[j] by {
        assert(j == 0);
        assert(b * 1 + 0 == b);
        let s = stage_block(a, m, 0, b as nat);
        assert(s.len() == 1);
        assert(s[0] == a[rev(b as nat, m) as int + 0 * two_pow(m)]);
    }
}

/// The state after the last stage is the transform.
pub proof fn lemma_stage_final(o: Seq<nat>, a: Seq<nat>, m: nat, w: nat)
    requires
        o.len() == two_pow(m),
        a.len() == two_pow(m),
        w < modulus(),
        stage_ok(o, a, m, m, w),
    ensures
        o == fft_spec(a, w),
{
    let s = stage_block(a, m, m, 0);
    assert((m - m) as nat == 0);
    assert(s =~= a) by {
        assert forall|j: int| 0 <= j < a.len() implies s[j] == a[j] by {
            assert(rev(0, 0) == 0);
            assert(j * two_pow(0) == j);
        }
    }
    assert(fpow(w, 1) == w) by {
        assert(fpow(w, 0) == 1);
        lemma_fmul_one_left(w);
        vstd::arithmetic::div_mod::lemma_small_mod(w, modulus());
    }
    assert forall|j: int| 0 <= j < o.len() implies o[j] == fft_spec(a, w)[j] by {
        assert(0 * two_pow(m) + j == j);
        let _ = fft_spec(stage_block(a, m, m, 0), fpow(w, two_pow(0)))[j];
    }
    assert(o =~= fft_spec(a, w));
}

/// A power of two has as many trailing zero bits as its exponent.
pub proof fn lemma_pow2_tz(n: nat, m: nat, r: nat)
    requires
        n == two_pow(m),
        n % two_pow(r) == 0,
        (n / two_pow(r)) % 2 == 1,
    ensures
        r == m,
{
    lemma_two_pow_pos(r);
    lemma_two_pow_pos(m);
    let q = n / two_pow(r);
    lemma_fundamental_div_mod(n as int, two_pow(r) as int);
    if r < m {
        lemma_two_pow_add(r, (m - r) as nat);
        assert(r + (m - r) as nat == m);
        vstd::arithmetic::mul::lemma_mul_equality_converse(two_pow(r) as int, q as int, two_pow((m - r) as nat) as int);
        assert(two_pow((m - r) as nat) == 2 * two_pow((m - r - 1) as nat));
    } else if r > m {
        lemma_two_pow_add(m, (r - m) as nat);
        assert(m + (r - m) as nat == r);
        lemma_two_pow_pos((r - m) as nat);
        assert(two_pow((r - m) as nat) == 2 * two_pow((r - m - 1) as nat));
        lemma_two_pow_pos((r - m - 1) as nat);
        assert(two_pow(r) >= 2 * two_pow(m)) by (nonlinear_arith)
            requires
                two_pow(r) == two_pow(m) * two_pow((r - m) as nat),
                two_pow((r - m) as nat) >= 2,
                two_pow(m) >= 1,
        ;
        assert(q >= 1);
        assert(n >= two_pow(r)) by (nonlinear_arith)
            requires
                n == two_pow(r) * q,
                q >= 1,
        ;
    }
}

/// The number of trailing zero bits of a positive number.
pub fn trailing_zeros(n: usize) -> (r: usize)
    requires
        n > 0,
    ensures
        r < 64,
        (n as nat) % two_pow(r as nat) == 0,
        ((n as nat) / two_pow(r as nat)) % 2 == 1,
{
    let mut x = n;
    let mut c: usize = 0;
    proof {
        lemma_two_pow_pos(0);
        assert(two_pow(0) == 1);
        vstd::arithmetic::mul::lemma_mul_basics(n as int);
    }
    while x % 2 == 0
        invariant
            x > 0,
            c < 64,
            n as nat == two_pow(c as nat) * x,
            two_pow(c as nat) <= n,
        decreases x,
    {
        proof {
            lemma_two_pow_pos(c as nat);
            assert(two_pow((c + 1) as nat) == 2 * two_pow(c as nat));
            assert(two_pow(c as nat) * x == two_pow((c + 1) as nat) * (x / 2)) by (nonlinear_arith)
                requires
                    x % 2 == 0,
                    two_pow((c + 1) as nat) == 2 * two_pow(c as nat),
            ;
            assert(two_pow((c + 1) as nat) <= n) by (nonlinear_arith)
                requires
                    n as nat == two_pow((c + 1) as nat) * (x / 2),
                    x / 2 >= 1,
            ;
            if c + 1 >= 64 {
                lemma_two_pow_mono(64, (c + 1) as nat);
                lemma_two_pow_64();
            }
        }
        x = x / 2;
        c = c + 1;
    }
    proof {
        lemma_two_pow_pos(c as nat);
        vstd::arithmetic::mul::lemma_mul_is_commutative(two_pow(c as nat) as int, x as int);
        lemma_mod_multiples_basic(x as int, two_pow(c as nat) as int);
        vstd::arithmetic::div_mod::lemma_div_multiples_vanish(x as int, two_pow(c as nat) as int);
    }
    c
}

/// `2^64`.
pub proof fn lemma_two_pow_64()
    ensures
        two_pow(64) == 0x1_0000_0000_0000_0000,
{
    reveal_with_fuel(two_pow, 65);
}

/// The stages of the iterative transform, on a state after the bit-reversal
/// permutation of `input`, whose length is `2^log_n`; with `parallel`, each stage
/// runs on rayon.
fn fft_stages(out: &mut Vec<Belt>, input: &Vec<Belt>, omega: Belt, log_n: usize, parallel: bool)
    requires
        old(out).len() == input.len(),
        input.len() == two_pow(log_n as nat),
        2 * input.len() <= usize::MAX,
        omega.canonical(),
        stage_ok(vals(old(out)@), vals(input@), log_n as nat, 0, omega.val()),
    ensures
        final(out).len() == input.len(),
        vals(final(out)@) == fft_spec(vals(input@), omega.val()),
        input.len() >= 2 ==> forall|k: int| 0 <= k < input.len() ==> (#[trigger] final(out)[k]).canonical(),
{
    let n = out.len();
    let ghost a = vals(input@);
    let ghost m = log_n as nat;
    let mut size: usize = 2;
    let ghost mut t: nat = 0;
    proof {
        assert(two_pow(1) == 2 * two_pow(0));
    }
    while size <= n
        invariant
            n == out.len(),
            n == input.len(),
            a == vals(input@),
            n == two_pow(m),
            2 * n <= usize::MAX,
            omega.canonical(),
            t <= m,
            size == two_pow(t + 1),
            stage_ok(vals(out@), a, m, t, omega.val()),
            t >= 1 ==> forall|k: int| 0 <= k < n ==> (#[trigger] out[k]).canonical(),
        decreases m - t,
    {
        proof {
            lemma_two_pow_pos(t + 1);
            if t == m {
                lemma_two_pow_pos(m);
            }
            assert(t < m);
            let d = (m - t - 1) as nat;
            lemma_two_pow_add(t + 1, d);
            assert(t + 1 + d == m);
            lemma_two_pow_pos(d);
            vstd::arithmetic::div_mod::lemma_div_multiples_vanish(two_pow(d) as int, size as int);
            vstd::arithmetic::mul::lemma_mul_is_commutative(two_pow(d) as int, size as int);
            lemma_mod_multiples_basic(two_pow(d) as int, size as int);
            lemma_two_pow_pos(t);
            assert(size == 2 * two_pow(t));
        }
        let omega_step = omega.pow((n / size) as u64);
        let ghost before = vals(out@);
        if parallel {
            let next = butterfly_stage_par(out, size, omega_step);
            *out = next;
        } else {
            butterfly_stage(out, size, omega_step);
            proof {
                assert(stage_done(out@, before, size as nat, omega_step.val()));
            }
        }
        proof {
            assert(stage_done(out@, before, size as nat, omega_step.val()));
            let d = (m - t - 1) as nat;
            assert((n / size) as nat == two_pow(d));
            assert((size / 2) as int == two_pow(t) as int);
            assert(omega_step.val() == fpow(omega.val(), two_pow(d)));
            let nw = vals(out@);
            let h = two_pow(t);
            let ww = fpow(omega.val(), two_pow(d));
            assert forall|k: int, j: int|
                0 <= k < two_pow(m) && block_start(k, two_pow(t + 1) as int) && 0 <= j < two_pow(t) implies {
                    &&& nw[k + j] == #[trigger] bf_lo(before, k, j, h as int, ww)
                    &&& nw[k + j + h] == bf_hi(before, k, j, h as int, ww)
                } by {
                let _ = bf_lo(before, k, j, (size / 2) as int, omega_step.val());
                lemma_block_fits(k as nat, n as nat, size as nat);
            }
            lemma_stage_step(before, nw, a, m, t, omega.val());
            assert forall|idx: int| 0 <= idx < n implies (#[trigger] out[idx]).canonical() by {
                let sz = size as int;
                let kb = (idx / sz) * sz;
                let jb = idx % sz;
                lemma_fundamental_div_mod(idx, sz);
                vstd::arithmetic::mul::lemma_mul_is_commutative(idx / sz, sz);
                lemma_mod_multiples_basic(idx / sz, sz);
                assert(block_start(kb, sz));
                assert(0 <= kb <= idx);
                if jb < h {
                    let _ = bf_lo(before, kb, jb, (size / 2) as int, omega_step.val());
                } else {
                    let _ = bf_lo(before, kb, jb - h, (size / 2) as int, omega_step.val());
                }
            }
        }
        size = size * 2;
        proof {
            t = t + 1;
        }
    }
    proof {
        if t < m {
            lemma_two_pow_mono(t + 1, m);
        }
        lemma_stage_final(vals(out@), a, m, omega.val());
        if n >= 2 && t == 0 {
            assert(two_pow(0) == 1);
        }
    }
}

/// The iterative transform with the bit-reversal permutation done in parallel,
/// for inputs whose length is a power of two.
pub fn fft_parallel(input: &Vec<Belt>, omega: Belt) -> (r: Vec<Belt>)
    requires
        is_pow2(input.len() as nat),
        2 * input.len() <= usize::MAX,
    ensures
        r.len() == input.len(),
        vals(r@) == fft_spec(vals(input@), omega.val()),
        input.len() >= 2 ==> forall|k: int| 0 <= k < r.len() ==> (#[trigger] r[k]).canonical(),
{
    let n = input.len();
    let ghost m = choose|m: nat| two_pow(m) == n;
    proof {
        lemma_two_pow_pos(m);
    }
    let log_n = trailing_zeros(n);
    proof {
        lemma_pow2_tz(n as nat, m, log_n as nat);
    }
    let mut working = par_tabulate(
        n,
        (|i: usize| -> (v: Belt)
            requires
                i < n,
            ensures
                v == input[rev(i as nat, log_n as nat) as int],
        {
            proof {
                lemma_rev_bound(i as nat, log_n as nat);
            }
            input[reverse_bits(i, log_n)]
        }),
    );
    let w = Belt(omega.to_u64());
    proof {
        vstd::arithmetic::div_mod::lemma_small_mod(w.0 as nat, modulus());
        assert forall|b: int| 0 <= b < two_pow(log_n as nat) implies #[trigger] vals(working@)[b] == vals(input@)[rev(b as nat, log_n as nat) as int] by {
            lemma_rev_bound(b as nat, log_n as nat);
        }
        lemma_stage_base(vals(working@), vals(input@), log_n as nat, w.val());
    }
    fft_stages(&mut working, input, w, log_n, true);
    proof {
        lemma_fft_spec_reduce_root(vals(input@), omega.val());
    }
    working
}

/// The transform sees only the value of its root mod `P`.
pub proof fn lemma_fft_spec_reduce_root(a: Seq<nat>, w: nat)
    ensures
        fft_spec(a, w % modulus()) == fft_spec(a, w),
    decreases a.len(),
{
    if a.len() > 1 {
        lemma_reduce_args(w, w);
        lemma_reduce_args(w % modulus(), w);
        vstd::arithmetic::div_mod::lemma_mod_twice(w as int, modulus() as int);
        assert(fmul(w % modulus(), w % modulus()) == fmul(w, w));
        assert forall|k: nat| #[trigger] fpow(w % modulus(), k) == fpow(w, k) by {
            crate::field::lemma_fpow_reduce(w, k);
        }
        let h = a.len() / 2;
        assert(fft_spec(a, w % modulus()) =~= fft_spec(a, w));
    }
}

/// The iterative transform used by polynomial multiplication: the input is scattered
/// to bit-reversed positions, then combined in place.
pub fn fft_for_mul(input: &Vec<Belt>, omega: Belt) -> (r: Vec<Belt>)
    requires
        is_pow2(input.len() as nat),
        2 * input.len() <= usize::MAX,
    ensures
        r.len() == input.len(),
        vals(r@) == fft_spec(vals(input@), omega.val()),
        input.len() >= 2 ==> forall|k: int| 0 <= k < r.len() ==> (#[trigger] r[k]).canonical(),
{
    let n = input.len();
    let ghost m = choose|m: nat| two_pow(m) == n;
    proof {
        lemma_two_pow_pos(m);
    }
    let log_n = trailing_zeros(n);
    proof {
        lemma_pow2_tz(n as nat, m, log_n as nat);
    }
    let mut output = zeros(n);
    let mut i: usize = 0;
    while i < n
        invariant
            n == input.len(),
            n == two_pow(log_n as nat),
            log_n < 64,
            output.len() == n,
            i <= n,
            forall|j: int| 0 <= j < i ==> #[trigger] output[rev(j as nat, log_n as nat) as int] == input[j],
        decreases n - i,
    {
        proof {
            lemma_rev_bound(i as nat, log_n as nat);
            assert forall|j: int| 0 <= j < i implies #[trigger] rev(j as nat, log_n as nat) != rev(i as nat, log_n as nat) by {
                lemma_rev_involution(j as nat, log_n as nat);
                lemma_rev_involution(i as nat, log_n as nat);
            }
        }
        let ghost prev = output@;
        let pos = reverse_bits(i, log_n);
        output.set(pos, input[i]);
        proof {
            assert forall|j: int| 0 <= j < i + 1 implies #[trigger] output[rev(j as nat, log_n as nat) as int] == input[j] by {
                lemma_rev_bound(j as nat, log_n as nat);
                if j < i {
                    assert(rev(j as nat, log_n as nat) != rev(i as nat, log_n as nat));
                    assert(prev[rev(j as nat, log_n as nat) as int] == input[j]);
                } else {
                    assert(j == i);
                    assert(pos as int == rev(i as nat, log_n as nat) as int);
                }
            }
        }
        i = i + 1;
    }
    proof {
        assert forall|b: int| 0 <= b < n implies #[trigger] output[b] == input[rev(b as nat, log_n as nat) as int] by {
            lemma_rev_involution(b as nat, log_n as nat);
            lemma_rev_bound(b as nat, log_n as nat);
            let j = rev(b as nat, log_n as nat) as int;
            assert(output[rev(j as nat, log_n as nat) as int] == input[j]);
        }
    }
    let w = Belt(omega.to_u64());
    proof {
        vstd::arithmetic::div_mod::lemma_small_mod(w.0 as nat, modulus());
        assert forall|b: int| 0 <= b < two_pow(log_n as nat) implies #[trigger] vals(output@)[b] == vals(input@)[rev(b as nat, log_n as nat) as int] by {
            lemma_rev_bound(b as nat, log_n as nat);
            assert(output[b] == input[rev(b as nat, log_n as nat) as int]);
        }
        lemma_stage_base(vals(output@), vals(input@), log_n as nat, w.val());
    }
    fft_stages(&mut output, input, w, log_n, false);
    proof {
        lemma_fft_spec_reduce_root(vals(input@), omega.val());
    }
    output
}

/// The length from which the transform runs the iterative, parallel algorithm.
pub const PARALLEL_FFT_THRESHOLD: usize = 1024;

/// The transform of a non-empty input: the recursive algorithm below
/// `PARALLEL_FFT_THRESHOLD` entries, the iterative one from there on, where the
/// length must be a power of two.
pub fn fft_internal(input: &Vec<Belt>, omega: Belt) -> (r: Vec<Belt>)
    requires
        input.len() >= 1,
        input.len() >= PARALLEL_FFT_THRESHOLD ==> is_pow2(input.len() as nat),
        2 * input.len() <= usize::MAX,
    ensures
        r.len() == input.len(),
        vals(r@) == fft_spec(vals(input@), omega.val()),
        input.len() == 1 ==> r[0] == input[0],
        input.len() >= 2 ==> forall|k: int| 0 <= k < r.len() ==> (#[trigger] r[k]).canonical(),
{
    let n = input.len();
    if n == 1 {
        let mut o: Vec<Belt> = Vec::new();
        o.push(input[0]);
        proof {
            assert(vals(o@) =~= vals(input@));
        }
        return o;
    }
    if n >= PARALLEL_FFT_THRESHOLD {
        fft_parallel(input, omega)
    } else {
        fft_recursive(input, omega)
    }
}

/// The inverse transform: the transform with the inverse root, scaled by the
/// inverse of the length.
pub fn ifft_internal(input: &Vec<Belt>, omega: Belt) -> (r: Vec<Belt>)
    requires
        input.len() >= 1,
        input.len() >= PARALLEL_FFT_THRESHOLD ==> is_pow2(input.len() as nat),
        2 * input.len() <= usize::MAX,
    ensures
        r.len() == input.len(),
        forall|k: int| 0 <= k < input.len() ==> (#[trigger] r[k]).val() == fmul(
            fft_spec(vals(input@), finv(omega.val()))[k],
            finv(input.len() as nat % modulus()),
        ) && r[k].canonical(),
{
    let n = input.len();
    let n_inv = Belt::from_u64(n as u64).inv();
    let omega_inv = omega.inv();
    let out = fft_internal(input, omega_inv);
    proof {
        lemma_fft_spec_len(vals(input@), finv(omega.val()));
    }
    par_map(
        &out,
        (|v: &Belt| -> (s: Belt)
            ensures
                s.val() == fmul(v.val(), n_inv.val()),
                s.canonical(),
        {
            v.mul(n_inv)
        }),
    )
}

/// The vector extended with zeros to length `n`.
pub fn pad_zeros(v: Vec<Belt>, n: usize) -> (r: Vec<Belt>)
    requires
        v.len() <= n,
    ensures
        r.len() == n,
        vals(r@) == vals(v@) + Seq::new((n - v.len()) as nat, |i: int| 0nat),
        forall|k: int| 0 <= k < v.len() ==> #[trigger] r[k] == v[k],
        forall|k: int| v.len() <= k < n ==> (#[trigger] r[k]).0 == 0,
{
    let mut r = v;
    let ghost orig = vals(r@);
    while r.len() < n
        invariant
            r.len() <= n,
            orig.len() <= r.len(),
            vals(r@) == orig + Seq::new((r.len() - orig.len()) as nat, |i: int| 0nat),
            forall|k: int| 0 <= k < v.len() ==> #[trigger] r[k] == v[k],
            forall|k: int| v.len() <= k < r.len() ==> (#[trigger] r[k]).0 == 0,
            orig == vals(v@),
        decreases n - r.len(),
    {
        let ghost prev = r@;
        let z = Belt::zero();
        r.push(z);
        proof {
            let target = orig + Seq::new((r.len() - orig.len()) as nat, |i: int| 0nat);
            assert forall|i: int| 0 <= i < r.len() implies vals(r@)[i] == target[i] by {
                if i < prev.len() {
                    assert(r@[i] == prev[i]);
                    assert(vals(prev)[i] == (orig + Seq::new((prev.len() - orig.len()) as nat, |i: int| 0nat))[i]);
                } else {
                    assert(r@[i] == z);
                }
            }
            assert(vals(r@) =~= target);
        }
    }
    r
}

/// Whether every polynomial of a batch can be transformed into a buffer of `n`
/// entries: it is non-empty and no longer than `n`, and from the parallel threshold
/// on it has exactly `n` entries, `n` being a power of two.
pub open spec fn batch_fft_ok(polys: Seq<Vec<Belt>>, n: nat) -> bool {
    &&& 2 * n <= usize::MAX
    &&& forall|i: int| 0 <= i < polys.len() ==> {
        &&& 1 <= (#[trigger] polys[i]).len() <= n
        &&& polys[i].len() >= PARALLEL_FFT_THRESHOLD ==> polys[i].len() == n && is_pow2(n)
    }
}

/// The transforms of a batch of polynomials, computed in parallel, each into a
/// buffer of the first polynomial's length.
pub fn batch_fft(polys: &Vec<Vec<Belt>>, omega: Belt) -> (r: Vec<Vec<Belt>>)
    requires
        polys.len() >= 1,
        batch_fft_ok(polys@, polys[0].len() as nat),
    ensures
        r.len() == polys.len(),
        forall|i: int| 0 <= i < polys.len() ==> {
            &&& vals((#[trigger] r[i])@) == fft_spec(vals(polys[i]@), omega.val())
                + Seq::new((polys[0].len() - polys[i].len()) as nat, |j: int| 0nat)
            &&& r[i].len() == polys[0].len()
            &&& polys[i].len() == 1 ==> r[i][0] == polys[i][0]
            &&& polys[i].len() >= 2 ==> forall|k: int| 0 <= k < polys[i].len() ==> (#[trigger] r[i][k]).canonical()
            &&& forall|k: int| polys[i].len() <= k < polys[0].len() ==> (#[trigger] r[i][k]).0 == 0
        },
{
    let n = polys[0].len();
    par_map(
        polys,
        (|p: &Vec<Belt>| -> (out: Vec<Belt>)
            requires
                1 <= p.len() <= n,
                2 * n <= usize::MAX,
                p.len() >= PARALLEL_FFT_THRESHOLD ==> p.len() == n && is_pow2(n as nat),
            ensures
                vals(out@) == fft_spec(vals(p@), omega.val()) + Seq::new((n - p.len()) as nat, |j: int| 0nat),
                out.len() == n,
                p.len() == 1 ==> out[0] == p[0],
                p.len() >= 2 ==> forall|k: int| 0 <= k < p.len() ==> (#[trigger] out[k]).canonical(),
                forall|k: int| p.len() <= k < n ==> (#[trigger] out[k]).0 == 0,
        {
            let t = fft_internal(p, omega);
            pad_zeros(t, n)
        }),
    )
}

/// Whether `n` is a power of two (`n != 0 && n & (n - 1) == 0`).
pub fn is_power_of_two(n: usize) -> (r: bool)
    ensures
        r == is_pow2(n as nat),
{
    if n == 0 {
        proof {
            if is_pow2(0) {
                let m = choose|m: nat| two_pow(m) == 0;
                lemma_two_pow_pos(m);
            }
        }
        return false;
    }
    let tz = trailing_zeros(n);
    let ghost q = n as nat / two_pow(tz as nat);
    proof {
        lemma_two_pow_pos(tz as nat);
        lemma_fundamental_div_mod(n as int, two_pow(tz as nat) as int);
    }
    let mut x = n;
    let mut i: usize = 0;
    while i < tz
        invariant
            i <= tz,
            tz < 64,
            x as nat == n as nat / two_pow(i as nat),
        decreases tz - i,
    {
        proof {
            lemma_two_pow_pos(i as nat);
            lemma_div_denominator(n as int, two_pow(i as nat) as int, 2);
            vstd::arithmetic::mul::lemma_mul_is_commutative(two_pow(i as nat) as int, 2);
        }
        x = x / 2;
        i = i + 1;
    }
    proof {
        if is_pow2(n as nat) {
            let m = choose|m: nat| two_pow(m) == n;
            lemma_pow2_tz(n as nat, m, tz as nat);
            vstd::arithmetic::div_mod::lemma_div_by_self(n as int);
        }
        if x == 1 {
            assert(n as nat == two_pow(tz as nat) * 1);
        }
    }
    x == 1
}

} // verus!
