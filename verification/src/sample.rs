//! The arithmetic that filters ask of the values they work on.

use vstd::prelude::*;
use vstd::wrapping::i64_specs::signed_crop;

verus! {

/// A value with an addition, a multiplication and a zero of its own.
///
/// The filters never look inside a sample: they only combine samples through
/// these three operations, and their contracts are stated over the three
/// specification functions.
pub trait Sample: Copy {
    /// The additive identity.
    spec fn spec_zero() -> Self;

    /// The sum of two samples.
    spec fn spec_plus(self, rhs: Self) -> Self;

    /// The product of two samples.
    spec fn spec_times(self, rhs: Self) -> Self;

    fn zero() -> (z: Self)
        ensures
            z == Self::spec_zero(),
    ;

    fn plus(self, rhs: Self) -> (s: Self)
        ensures
            s == self.spec_plus(rhs),
    ;

    fn times(self, rhs: Self) -> (p: Self)
        ensures
            p == self.spec_times(rhs),
    ;
}

/// Samples whose arithmetic is exact enough that the order of a summation
/// does not matter: addition is associative with zero as identity,
/// multiplication commutes and annihilates on zero.
pub trait ExactSample: Sample {
    proof fn plus_associates(a: Self, b: Self, c: Self)
        ensures
            a.spec_plus(b).spec_plus(c) == a.spec_plus(b.spec_plus(c)),
    ;

    proof fn zero_is_neutral(a: Self)
        ensures
            Self::spec_zero().spec_plus(a) == a,
            a.spec_plus(Self::spec_zero()) == a,
    ;

    proof fn times_commutes(a: Self, b: Self)
        ensures
            a.spec_times(b) == b.spec_times(a),
    ;

    proof fn times_zero(a: Self)
        ensures
            a.spec_times(Self::spec_zero()) == Self::spec_zero(),
    ;
}

/// The 64-bit two's-complement value that an integer reduces to.
pub open spec fn wrap64(x: int) -> i64 {
    signed_crop(x)
}

/// `wrap64` leaves a value that already fits untouched.
pub proof fn lemma_wrap64_fits(x: int)
    requires
        i64::MIN <= x <= i64::MAX,
    ensures
        wrap64(x) == x,
{
    if x >= 0 {
        assert(x % 0x1_0000_0000_0000_0000 == x);
    } else {
        assert(x % 0x1_0000_0000_0000_0000 == x + 0x1_0000_0000_0000_0000);
    }
}

/// Reducing is insensitive to whole multiples of 2^64.
pub proof fn lemma_wrap64_shift(x: int, k: int)
    ensures
        wrap64(x + k * 0x1_0000_0000_0000_0000) == wrap64(x),
{
    vstd::arithmetic::div_mod::lemma_mod_multiples_vanish(k, x, 0x1_0000_0000_0000_0000);
}

/// A reduced value differs from the value it stands for by a whole multiple
/// of 2^64.
pub proof fn lemma_wrap64_residue(x: int) -> (k: int)
    ensures
        wrap64(x) == x + k * 0x1_0000_0000_0000_0000,
{
    let m: int = 0x1_0000_0000_0000_0000;
    vstd::arithmetic::div_mod::lemma_fundamental_div_mod(x, m);
    let q: int = x / m;
    assert(x == m * q + x % m);
    if x % m > i64::MAX {
        -q - 1
    } else {
        -q
    }
}

/// Reducing the operands first does not change a reduced sum.
pub proof fn lemma_wrap64_plus(a: int, b: int)
    ensures
        wrap64(wrap64(a) + wrap64(b)) == wrap64(a + b),
{
    let ka: int = lemma_wrap64_residue(a);
    let kb: int = lemma_wrap64_residue(b);
    assert(wrap64(a) + wrap64(b) == (a + b) + (ka + kb) * 0x1_0000_0000_0000_0000);
    lemma_wrap64_shift(a + b, ka + kb);
}

/// 64-bit integers with two's-complement wrap-around: no operation fails
/// and none checks its range.
impl Sample for i64 {
    open spec fn spec_zero() -> i64 {
        0i64
    }

    open spec fn spec_plus(self, rhs: i64) -> i64 {
        wrap64(self + rhs)
    }

    open spec fn spec_times(self, rhs: i64) -> i64 {
        wrap64(self * rhs)
    }

    fn zero() -> (z: i64) {
        0i64
    }

    fn plus(self, rhs: i64) -> (s: i64) {
        proof {
            let t: int = self + rhs;
            if t > i64::MAX {
                lemma_wrap64_shift(t, -1);
                lemma_wrap64_fits(t - 0x1_0000_0000_0000_0000);
            } else if t < i64::MIN {
                lemma_wrap64_shift(t, 1);
                lemma_wrap64_fits(t + 0x1_0000_0000_0000_0000);
            } else {
                lemma_wrap64_fits(t);
            }
        }
        self.wrapping_add(rhs)
    }

    fn times(self, rhs: i64) -> (p: i64) {
        self.wrapping_mul(rhs)
    }
}

impl ExactSample for i64 {
    proof fn plus_associates(a: i64, b: i64, c: i64) {
        lemma_wrap64_fits(c as int);
        lemma_wrap64_plus(a + b, c as int);
        lemma_wrap64_fits(a as int);
        lemma_wrap64_plus(a as int, b + c);
    }

    proof fn zero_is_neutral(a: i64) {
        lemma_wrap64_fits(a as int);
    }

    proof fn times_commutes(a: i64, b: i64) {
        assert(a * b == b * a) by (nonlinear_arith);
    }

    proof fn times_zero(a: i64) {
        assert(a * 0 == 0) by (nonlinear_arith);
        lemma_wrap64_fits(0);
    }
}

} // verus!
