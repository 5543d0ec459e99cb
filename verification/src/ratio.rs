//! Exact nonnegative and signed rationals over machine integers.
//!
//! Frequencies, time steps, durations and waveform samples are carried as
//! exact fractions so that the arithmetic the tables are built from can be
//! stated and verified precisely.
use vstd::prelude::*;

verus! {

/// The product of two `u64` values fits in a `u128`, and is positive when
/// both factors are.
pub proof fn lemma_u64_prod_fits(a: u64, b: u64)
    ensures
        a * b <= u128::MAX,
        a > 0 && b > 0 ==> a * b > 0,
        b > 0 ==> a * b >= a,
{
    assert(a * b <= u128::MAX && (a > 0 && b > 0 ==> a * b > 0) && (b > 0 ==> a * b >= a))
        by (nonlinear_arith)
        requires
            a <= u64::MAX,
            b <= u64::MAX,
    ;
}

/// A nonnegative rational `num / den`; well-formed when `den > 0`.
#[derive(Debug, Clone, Copy, PartialEq, Eq, Structural)]
pub struct Ratio {
    pub num: u64,
    pub den: u64,
}

/// A signed rational `num / den`; well-formed when `den > 0`.
#[derive(Debug, Clone, Copy, PartialEq, Eq, Structural)]
pub struct SRatio {
    pub num: i64,
    pub den: u64,
}

impl Ratio {
    /// A positive denominator makes the fraction meaningful.
    pub open spec fn wf(self) -> bool {
        self.den > 0
    }

    /// The fraction is well-formed and strictly positive.
    pub open spec fn positive(self) -> bool {
        self.wf() && self.num > 0
    }

    pub fn new(num: u64, den: u64) -> (r: Ratio)
        requires
            den > 0,
        ensures
            r == (Ratio { num, den }),
            r.wf(),
    {
        Ratio { num, den }
    }

    /// The fraction `1 / self`, used to turn a frequency into a period.
    pub fn invert(self) -> (r: Ratio)
        requires
            self.positive(),
        ensures
            r == (Ratio { num: self.den, den: self.num }),
            r.positive(),
    {
        Ratio { num: self.den, den: self.num }
    }

    /// `floor(self * other)`, computed without intermediate overflow.
    pub fn mul_floor(self, other: Ratio) -> (r: u64)
        requires
            self.wf(),
            other.wf(),
            self.num * other.num / (self.den * other.den) <= u64::MAX,
        ensures
            r == self.num * other.num / (self.den * other.den),
    {
        proof {
            lemma_u64_prod_fits(self.num, other.num);
            lemma_u64_prod_fits(self.den, other.den);
        }
        let n: u128 = (self.num as u128) * (other.num as u128);
        let d: u128 = (self.den as u128) * (other.den as u128);
        (n / d) as u64
    }

    /// `floor(self / other)`, computed without intermediate overflow.
    pub fn div_floor(self, other: Ratio) -> (r: u64)
        requires
            self.wf(),
            other.positive(),
            self.num * other.den / (self.den * other.num) <= u64::MAX,
        ensures
            r == self.num * other.den / (self.den * other.num),
    {
        proof {
            lemma_u64_prod_fits(self.num, other.den);
            lemma_u64_prod_fits(self.den, other.num);
        }
        let n: u128 = (self.num as u128) * (other.den as u128);
        let d: u128 = (self.den as u128) * (other.num as u128);
        (n / d) as u64
    }
}

impl SRatio {
    /// A positive denominator makes the fraction meaningful.
    pub open spec fn wf(self) -> bool {
        self.den > 0
    }

    pub fn new(num: i64, den: u64) -> (r: SRatio)
        requires
            den > 0,
        ensures
            r == (SRatio { num, den }),
            r.wf(),
    {
        SRatio { num, den }
    }

    /// The rational zero.
    pub fn zero() -> (r: SRatio)
        ensures
            r == (SRatio { num: 0i64, den: 1u64 }),
            r.wf(),
    {
        SRatio { num: 0, den: 1 }
    }
}

} // verus!
