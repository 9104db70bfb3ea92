//! The Goldilocks prime field, of order `P = 2^64 - 2^32 + 1`.
use vstd::arithmetic::div_mod::*;
use vstd::arithmetic::mul::*;
use vstd::prelude::*;

verus! {

/// The field's prime modulus, `2^64 - 2^32 + 1`.
pub const P: u64 = 18446744069414584321u64;

/// The modulus as a mathematical integer.
pub open spec fn modulus() -> nat {
    P as nat
}

/// Field addition on canonical representatives.
pub open spec fn fadd(x: nat, y: nat) -> nat {
    (x + y) % modulus()
}

/// Field multiplication on canonical representatives.
pub open spec fn fmul(x: nat, y: nat) -> nat {
    (x * y) % modulus()
}

/// Field subtraction: the representative of `x - y`.
pub open spec fn fsub(x: nat, y: nat) -> nat {
    ((x % modulus() + modulus() - y % modulus()) as nat) % modulus()
}

/// Field negation.
pub open spec fn fneg(x: nat) -> nat {
    fsub(0, x)
}

/// `x` raised to the power `e` in the field.
pub open spec fn fpow(x: nat, e: nat) -> nat
    decreases e,
{
    if e == 0 {
        1
    } else {
        fmul(x, fpow(x, (e - 1) as nat))
    }
}

/// The candidate inverse that `Belt::inv` computes: `x^(P-2)`.
pub open spec fn finv(x: nat) -> nat {
    fpow(x, (modulus() - 2) as nat)
}

/// A field element, stored as a 64-bit word; its value is the word reduced mod `P`.
#[derive(Clone, Copy, Debug)]
pub struct Belt(pub u64);

impl Belt {
    /// The field value this word stands for.
    pub open spec fn val(self) -> nat {
        (self.0 as nat) % modulus()
    }

    /// Whether the word is the canonical representative of its value.
    pub open spec fn canonical(self) -> bool {
        self.0 < P
    }

    /// The additive identity.
    pub fn zero() -> (r: Belt)
        ensures
            r.0 == 0,
            r.val() == 0,
            r.canonical(),
    {
        proof {
            lemma_small_mod(0, modulus());
        }
        Belt(0)
    }

    /// The multiplicative identity.
    pub fn one() -> (r: Belt)
        ensures
            r.0 == 1,
            r.val() == 1,
            r.canonical(),
    {
        proof {
            lemma_small_mod(1, modulus());
        }
        Belt(1)
    }

    /// Wraps a word; its value is the word mod `P`.
    pub fn from_u64(u: u64) -> (r: Belt)
        ensures
            r.0 == u,
            r.val() == u as nat % modulus(),
    {
        Belt(u)
    }

    /// The canonical word of this element's value.
    pub fn to_u64(self) -> (r: u64)
        ensures
            r as nat == self.val(),
            r < P,
    {
        self.0 % P
    }

    /// Field addition.
    pub fn add(self, other: Belt) -> (r: Belt)
        ensures
            r.val() == fadd(self.val(), other.val()),
            r.canonical(),
            r.0 as nat == r.val(),
    {
        let a = self.0 % P;
        let b = other.0 % P;
        let s: u128 = (a as u128) + (b as u128);
        let r = (s % (P as u128)) as u64;
        proof {
            lemma_mod_twice(r as int, P as int);
        }
        Belt(r)
    }

    /// Field subtraction.
    pub fn sub(self, other: Belt) -> (r: Belt)
        ensures
            r.val() == fsub(self.val(), other.val()),
            r.canonical(),
            r.0 as nat == r.val(),
    {
        let a = self.0 % P;
        let b = other.0 % P;
        let s: u128 = (a as u128) + (P as u128) - (b as u128);
        let r = (s % (P as u128)) as u64;
        proof {
            lemma_small_mod(a as nat, modulus());
            lemma_small_mod(b as nat, modulus());
            lemma_mod_twice(r as int, P as int);
        }
        Belt(r)
    }

    /// Field multiplication.
    pub fn mul(self, other: Belt) -> (r: Belt)
        ensures
            r.val() == fmul(self.val(), other.val()),
            r.canonical(),
            r.0 as nat == r.val(),
    {
        let a = self.0 % P;
        let b = other.0 % P;
        proof {
            lemma_mul_upper_bound(a as int, P as int, b as int, P as int);
        }
        let m: u128 = (a as u128) * (b as u128);
        let r = (m % (P as u128)) as u64;
        proof {
            lemma_mod_twice(r as int, P as int);
        }
        Belt(r)
    }

    /// `self` raised to the power `exp`, by square and multiply.
    pub fn pow(self, exp: u64) -> (r: Belt)
        ensures
            r.val() == fpow(self.val(), exp as nat),
            r.canonical(),
            r.0 as nat == r.val(),
    {
        let mut result = Belt::one();
        let mut base = Belt(self.0 % P);
        let mut e = exp;
        proof {
            lemma_mod_twice(self.0 as int, P as int);
            lemma_fmul_one_left(fpow(self.val(), exp as nat));
            lemma_fpow_canonical(self.val(), exp as nat);
            lemma_small_mod(fpow(self.val(), exp as nat), modulus());
        }
        while e > 0
            invariant
                result.canonical(),
                base.canonical(),
                fmul(result.val(), fpow(base.val(), e as nat)) == fpow(self.val(), exp as nat),
            decreases e,
        {
            proof {
                lemma_fpow_halve(base.val(), e as nat);
            }
            if e % 2 == 1 {
                let ghost old_result = result.val();
                result = result.mul(base);
                proof {
                    lemma_fmul_assoc(old_result, base.val(), fpow(fmul(base.val(), base.val()), (e / 2) as nat));
                }
            }
            base = base.mul(base);
            e = e / 2;
        }
        proof {
            lemma_small_mod(result.0 as nat, modulus());
            lemma_fmul_one_left(result.val());
            lemma_small_mod(result.val(), modulus());
        }
        result
    }

    /// `self^(P-2)`: the multiplicative inverse of a non-zero element, and zero for
    /// zero.
    pub fn inv(self) -> (r: Belt)
        ensures
            r.val() == finv(self.val()),
            r.canonical(),
            r.0 as nat == r.val(),
            self.val() != 0 ==> fmul(self.val(), r.val()) == 1,
            self.val() == 0 ==> r.val() == 0,
    {
        proof {
            if self.val() != 0 {
                lemma_small_mod(self.val(), modulus());
                crate::cyclic::lemma_inverse(self.val());
            } else {
                lemma_fpow_zero_base((modulus() - 2) as nat);
            }
        }
        self.pow(P - 2)
    }
}

// ---------------------------------------------------------------------------
// Ring laws of the field operations
// ---------------------------------------------------------------------------

/// A positive power of zero is zero.
pub proof fn lemma_fpow_zero_base(e: nat)
    requires
        e > 0,
    ensures
        fpow(0, e) == 0,
{
    lemma_fmul_zero(fpow(0, (e - 1) as nat));
}

/// Every field operation yields a canonical representative.
pub proof fn lemma_canonical(x: nat, y: nat)
    ensures
        fadd(x, y) < modulus(),
        fmul(x, y) < modulus(),
        fsub(x, y) < modulus(),
        fpow(x, y) < modulus(),
{
    lemma_fpow_canonical(x, y);
}

/// A power is a canonical representative.
pub proof fn lemma_fpow_canonical(x: nat, e: nat)
    ensures
        fpow(x, e) < modulus(),
    decreases e,
{
    if e > 0 {
        lemma_fpow_canonical(x, (e - 1) as nat);
    }
}

/// Reducing an argument first does not change a sum.
pub proof fn lemma_add_cong(a: nat, b: nat)
    ensures
        ((a % modulus()) + b) % modulus() == (a + b) % modulus(),
        (b + (a % modulus())) % modulus() == (a + b) % modulus(),
{
    lemma_add_mod_noop(a as int, b as int, modulus() as int);
    lemma_add_mod_noop((a % modulus()) as int, b as int, modulus() as int);
    lemma_mod_twice(a as int, modulus() as int);
}

/// Reducing an argument first does not change a product.
pub proof fn lemma_mul_cong(a: nat, b: nat)
    ensures
        ((a % modulus()) * b) % modulus() == (a * b) % modulus(),
        (b * (a % modulus())) % modulus() == (a * b) % modulus(),
{
    lemma_mul_mod_noop_left(a as int, b as int, modulus() as int);
    lemma_mul_mod_noop_right(b as int, a as int, modulus() as int);
    lemma_mul_is_commutative(a as int, b as int);
}

/// Addition commutes.
pub proof fn lemma_fadd_comm(x: nat, y: nat)
    ensures
        fadd(x, y) == fadd(y, x),
{
}

/// Multiplication commutes.
pub proof fn lemma_fmul_comm(x: nat, y: nat)
    ensures
        fmul(x, y) == fmul(y, x),
{
    lemma_mul_is_commutative(x as int, y as int);
}

/// Addition associates.
pub proof fn lemma_fadd_assoc(x: nat, y: nat, z: nat)
    ensures
        fadd(fadd(x, y), z) == fadd(x, fadd(y, z)),
{
    lemma_add_cong(x + y, z);
    lemma_add_cong(y + z, x);
}

/// Multiplication associates.
pub proof fn lemma_fmul_assoc(x: nat, y: nat, z: nat)
    ensures
        fmul(fmul(x, y), z) == fmul(x, fmul(y, z)),
{
    lemma_mul_cong(x * y, z);
    lemma_mul_cong(y * z, x);
    lemma_mul_is_associative(x as int, y as int, z as int);
}

/// Multiplication distributes over addition, on either side.
pub proof fn lemma_fmul_distrib(x: nat, y: nat, z: nat)
    ensures
        fmul(x, fadd(y, z)) == fadd(fmul(x, y), fmul(x, z)),
        fmul(fadd(y, z), x) == fadd(fmul(y, x), fmul(z, x)),
{
    let m = modulus() as int;
    lemma_mul_cong(y + z, x);
    lemma_mul_is_commutative((y + z) as int, x as int);
    lemma_mul_is_distributive_add(x as int, y as int, z as int);
    lemma_add_mod_noop((x * y) as int, (x * z) as int, m);
    assert(fmul(x, fadd(y, z)) == ((x * y + x * z) as nat) % modulus());
    lemma_fmul_comm(x, fadd(y, z));
    lemma_fmul_comm(y, x);
    lemma_fmul_comm(z, x);
}

/// One is the multiplicative identity (up to reduction).
pub proof fn lemma_fmul_one_left(x: nat)
    ensures
        fmul(1, x) == x % modulus(),
        fmul(x, 1) == x % modulus(),
{
}

/// Zero annihilates.
pub proof fn lemma_fmul_zero(x: nat)
    ensures
        fmul(0, x) == 0,
        fmul(x, 0) == 0,
{
    lemma_mul_basics(x as int);
    lemma_small_mod(0, modulus());
}

/// Zero is the additive identity (up to reduction).
pub proof fn lemma_fadd_zero(x: nat)
    ensures
        fadd(0, x) == x % modulus(),
        fadd(x, 0) == x % modulus(),
{
}

/// Operations see only the value of their arguments mod `P`.
pub proof fn lemma_reduce_args(x: nat, y: nat)
    ensures
        fadd(x % modulus(), y) == fadd(x, y),
        fadd(x, y % modulus()) == fadd(x, y),
        fmul(x % modulus(), y) == fmul(x, y),
        fmul(x, y % modulus()) == fmul(x, y),
        fsub(x % modulus(), y) == fsub(x, y),
        fsub(x, y % modulus()) == fsub(x, y),
{
    lemma_add_cong(x, y);
    lemma_add_cong(y, x);
    lemma_mul_cong(x, y);
    lemma_mul_cong(y, x);
    lemma_mod_twice(x as int, modulus() as int);
    lemma_mod_twice(y as int, modulus() as int);
}

/// Subtraction is the integer difference reduced mod `P`.
pub proof fn lemma_fsub_int(x: nat, y: nat)
    ensures
        fsub(x, y) as int == (x as int - y as int) % (modulus() as int),
{
    let m = modulus() as int;
    let a = (x % modulus()) as int;
    let b = (y % modulus()) as int;
    lemma_sub_mod_noop(x as int, y as int, m);
    lemma_mod_multiples_vanish(1, a - b, m);
}

/// Subtraction undoes addition.
pub proof fn lemma_fsub_fadd(x: nat, y: nat)
    ensures
        fadd(fsub(x, y), y) == x % modulus(),
        fsub(fadd(x, y), y) == x % modulus(),
{
    let m = modulus() as int;
    lemma_fsub_int(x, y);
    lemma_fsub_int(fadd(x, y), y);
    // ((x - y) % m + y) % m == x % m
    lemma_add_mod_noop(x as int - y as int, y as int, m);
    lemma_add_mod_noop(((x as int - y as int) % m), y as int, m);
    lemma_mod_twice(x as int - y as int, m);
    // ((x + y) % m - y) % m == x % m
    lemma_sub_mod_noop((x + y) as int, y as int, m);
    lemma_sub_mod_noop(((x + y) % modulus()) as int, y as int, m);
    lemma_mod_twice((x + y) as int, m);
}

/// Product of powers with the same base.
pub proof fn lemma_fpow_add(x: nat, a: nat, b: nat)
    ensures
        fpow(x, a + b) == fmul(fpow(x, a), fpow(x, b)),
    decreases a,
{
    lemma_fpow_canonical(x, b);
    if a == 0 {
        lemma_fmul_one_left(fpow(x, b));
        lemma_small_mod(fpow(x, b), modulus());
    } else {
        lemma_fpow_add(x, (a - 1) as nat, b);
        assert(a + b - 1 == (a - 1) + b);
        lemma_fmul_assoc(x, fpow(x, (a - 1) as nat), fpow(x, b));
    }
}

/// Power of a power.
pub proof fn lemma_fpow_mul(x: nat, a: nat, b: nat)
    ensures
        fpow(fpow(x, a), b) == fpow(x, a * b),
    decreases b,
{
    if b == 0 {
        assert(a * b == 0) by (nonlinear_arith)
            requires
                b == 0,
        ;
    } else {
        lemma_fpow_mul(x, a, (b - 1) as nat);
        assert(a * b == a + a * (b - 1)) by (nonlinear_arith)
            requires
                b > 0,
        ;
        lemma_fpow_add(x, a, a * (b - 1) as nat);
    }
}

/// Power of a product.
pub proof fn lemma_fpow_fmul(x: nat, y: nat, e: nat)
    ensures
        fpow(fmul(x, y), e) == fmul(fpow(x, e), fpow(y, e)),
    decreases e,
{
    if e > 0 {
        let e1 = (e - 1) as nat;
        lemma_fpow_fmul(x, y, e1);
        let a = fpow(x, e1);
        let b = fpow(y, e1);
        let xy = fmul(x, y);
        assert(fpow(xy, e) == fmul(xy, fmul(a, b)));
        assert(fpow(x, e) == fmul(x, a));
        assert(fpow(y, e) == fmul(y, b));
        // (xy)(ab) == (xa)(yb)
        lemma_fmul_assoc(xy, a, b);
        lemma_fmul_assoc(x, y, a);
        lemma_fmul_comm(y, a);
        lemma_fmul_assoc(x, a, y);
        lemma_fmul_assoc(fmul(x, a), y, b);
        assert(fmul(xy, a) == fmul(fmul(x, a), y));
        assert(fmul(xy, fmul(a, b)) == fmul(fmul(xy, a), b));
        assert(fmul(fmul(fmul(x, a), y), b) == fmul(fmul(x, a), fmul(y, b)));
        assert(fpow(xy, e) == fmul(fpow(x, e), fpow(y, e)));
    } else {
        lemma_small_mod(1, modulus());
        assert(fpow(x, 0) == 1);
        assert(fpow(y, 0) == 1);
        assert(fpow(fmul(x, y), 0) == 1);
        assert(fmul(1, 1) == 1);
    }
}

/// Reducing the base first does not change a power.
pub proof fn lemma_fpow_reduce(x: nat, e: nat)
    ensures
        fpow(x % modulus(), e) == fpow(x, e),
    decreases e,
{
    if e > 0 {
        lemma_fpow_reduce(x, (e - 1) as nat);
        lemma_reduce_args(x, fpow(x, (e - 1) as nat));
    }
}

/// The step of square and multiply.
pub proof fn lemma_fpow_halve(b: nat, e: nat)
    ensures
        e % 2 == 0 ==> fpow(b, e) == fpow(fmul(b, b), e / 2),
        e % 2 == 1 ==> fpow(b, e) == fmul(b, fpow(fmul(b, b), e / 2)),
{
    lemma_fpow_mul(b, 2, e / 2);
    assert(fpow(b, 2) == fmul(b, b)) by {
        assert(fpow(b, 0) == 1);
        assert(fpow(b, 1) == fmul(b, 1));
        lemma_fmul_one_left(b);
        assert(fpow(b, 2) == fmul(b, fpow(b, 1)));
        lemma_reduce_args(b, b);
    }
    if e % 2 == 1 {
        assert(e == 1 + 2 * (e / 2));
        lemma_fpow_add(b, 1, 2 * (e / 2));
        lemma_fmul_one_left(b);
        lemma_reduce_args(b, fpow(b, 2 * (e / 2)));
    } else {
        assert(e == 2 * (e / 2));
    }
}

} // verus!
