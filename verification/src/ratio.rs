//! Exact rational ray parameters.
//!
//! A ray parameter `t` is kept as a fraction `num / den` with a positive
//! denominator, never as a rounded value.  Comparisons cross-multiply in
//! 128-bit arithmetic, so every interval decision the tree traversal makes
//! is exact.

use vstd::prelude::*;

verus! {

/// Largest magnitude allowed for a numerator or denominator (2^60).  All
/// fractions produced by the geometry stay far below this, and the bound
/// keeps every cross-multiplied comparison inside `i128`.
pub const RAT_MAX: i64 = 0x1000_0000_0000_0000;

/// A fraction `num / den`.  Well-formed values keep `den` positive.
#[derive(Clone, Copy, Debug)]
pub struct Rat {
    pub num: i64,
    pub den: i64,
}

/// Well-formedness: positive, bounded denominator and bounded numerator.
pub open spec fn rat_wf(r: Rat) -> bool {
    1 <= r.den <= RAT_MAX && -RAT_MAX <= r.num <= RAT_MAX
}

/// `an/ad <= bn/bd`, stated by cross-multiplication; meaningful when both
/// denominators are positive.
pub open spec fn frac_le(an: int, ad: int, bn: int, bd: int) -> bool {
    an * bd <= bn * ad
}

/// `an/ad < bn/bd` by cross-multiplication.
pub open spec fn frac_lt(an: int, ad: int, bn: int, bd: int) -> bool {
    an * bd < bn * ad
}

/// `an/ad == bn/bd` by cross-multiplication.
pub open spec fn frac_eq(an: int, ad: int, bn: int, bd: int) -> bool {
    an * bd == bn * ad
}

pub open spec fn rat_le(a: Rat, b: Rat) -> bool {
    frac_le(a.num as int, a.den as int, b.num as int, b.den as int)
}

pub open spec fn rat_lt(a: Rat, b: Rat) -> bool {
    frac_lt(a.num as int, a.den as int, b.num as int, b.den as int)
}

pub open spec fn rat_eq(a: Rat, b: Rat) -> bool {
    frac_eq(a.num as int, a.den as int, b.num as int, b.den as int)
}

/// Bound on a product from bounds on its factors.
pub proof fn lemma_abs_mul(a: int, b: int, aa: int, bb: int)
    by (nonlinear_arith)
    requires
        -aa <= a <= aa,
        -bb <= b <= bb,
        0 <= aa,
        0 <= bb,
    ensures
        -(aa * bb) <= a * b <= aa * bb,
{
}

/// Transitivity of `<=` on fractions with positive denominators.
pub proof fn lemma_frac_le_trans(an: int, ad: int, bn: int, bd: int, cn: int, cd: int)
    by (nonlinear_arith)
    requires
        ad > 0,
        bd > 0,
        cd > 0,
        frac_le(an, ad, bn, bd),
        frac_le(bn, bd, cn, cd),
    ensures
        frac_le(an, ad, cn, cd),
{
}

/// A strict comparison followed by `<=` stays strict.
pub proof fn lemma_frac_lt_le_trans(an: int, ad: int, bn: int, bd: int, cn: int, cd: int)
    by (nonlinear_arith)
    requires
        ad > 0,
        bd > 0,
        cd > 0,
        frac_lt(an, ad, bn, bd),
        frac_le(bn, bd, cn, cd),
    ensures
        frac_lt(an, ad, cn, cd),
{
}

/// A `<=` comparison followed by a strict one stays strict.
pub proof fn lemma_frac_le_lt_trans(an: int, ad: int, bn: int, bd: int, cn: int, cd: int)
    by (nonlinear_arith)
    requires
        ad > 0,
        bd > 0,
        cd > 0,
        frac_le(an, ad, bn, bd),
        frac_lt(bn, bd, cn, cd),
    ensures
        frac_lt(an, ad, cn, cd),
{
}

impl Rat {
    /// Normalises the sign so the denominator is positive.
    pub fn new(num: i64, den: i64) -> (r: Rat)
        requires
            den != 0,
            -RAT_MAX <= num <= RAT_MAX,
            -RAT_MAX <= den <= RAT_MAX,
        ensures
            rat_wf(r),
            den > 0 ==> r.num == num && r.den == den,
            den < 0 ==> r.num == -num && r.den == -den,
    {
        if den > 0 {
            Rat { num, den }
        } else {
            Rat { num: -num, den: -den }
        }
    }

    /// Exact `self <= other`.
    pub fn le(&self, other: &Rat) -> (b: bool)
        requires
            rat_wf(*self),
            rat_wf(*other),
        ensures
            b == rat_le(*self, *other),
    {
        proof {
            lemma_abs_mul(self.num as int, other.den as int, RAT_MAX as int, RAT_MAX as int);
            lemma_abs_mul(other.num as int, self.den as int, RAT_MAX as int, RAT_MAX as int);
        }
        (self.num as i128) * (other.den as i128) <= (other.num as i128) * (self.den as i128)
    }

    /// Exact `self < other`.
    pub fn lt(&self, other: &Rat) -> (b: bool)
        requires
            rat_wf(*self),
            rat_wf(*other),
        ensures
            b == rat_lt(*self, *other),
    {
        proof {
            lemma_abs_mul(self.num as int, other.den as int, RAT_MAX as int, RAT_MAX as int);
            lemma_abs_mul(other.num as int, self.den as int, RAT_MAX as int, RAT_MAX as int);
        }
        (self.num as i128) * (other.den as i128) < (other.num as i128) * (self.den as i128)
    }

    /// Exact value equality (`2/2` equals `1/1`).
    pub fn eq_value(&self, other: &Rat) -> (b: bool)
        requires
            rat_wf(*self),
            rat_wf(*other),
        ensures
            b == rat_eq(*self, *other),
    {
        proof {
            lemma_abs_mul(self.num as int, other.den as int, RAT_MAX as int, RAT_MAX as int);
            lemma_abs_mul(other.num as int, self.den as int, RAT_MAX as int, RAT_MAX as int);
        }
        (self.num as i128) * (other.den as i128) == (other.num as i128) * (self.den as i128)
    }
}

} // verus!
