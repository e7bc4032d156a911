//! Exact fractions: a reduced magnitude pair with a separate sign flag.

use crate::gcd::{euclid, gcd_of, lemma_euclid_divides, lemma_reduced_bounded, lemma_reduced_coprime};
use core::cmp::Ordering;
use vstd::prelude::*;
use vstd::std_specs::ops::{AddSpec, DivSpec, MulSpec, SubSpec};

verus! {

/// Absolute value of a machine integer as a natural number.
pub open spec fn magnitude(x: int) -> nat {
    if x < 0 {
        (-x) as nat
    } else {
        x as nat
    }
}

/// A fraction `num / den` whose sign is carried by `neg`.
///
/// Every constructor divides `num` and `den` by their common divisor.
/// A denominator of zero is kept as a marker for an undefined ratio:
/// `num` is then 1 (or 0 when the numerator was zero too). A zero may
/// carry either sign flag, and `==` compares the flag as well.
#[derive(PartialEq, Eq, Debug, Copy, Clone, Structural)]
pub struct Frac {
    pub num: u32,
    pub den: u32,
    pub neg: bool,
}

impl Frac {
    /// The numerator with the sign applied.
    pub open spec fn signed_num(self) -> int {
        if self.neg {
            -(self.num as int)
        } else {
            self.num as int
        }
    }

    /// The fraction made from two magnitudes and a sign, reduced.
    pub open spec fn reduced(num: nat, den: nat, neg: bool) -> Frac {
        Frac {
            num: (num / gcd_of(num, den)) as u32,
            den: (den / gcd_of(num, den)) as u32,
            neg: neg,
        }
    }

    /// The fraction `num / den` of two signed integers, reduced.
    pub open spec fn of(num: int, den: int) -> Frac {
        Frac::reduced(magnitude(num), magnitude(den), (num < 0) != (den < 0))
    }

    /// The integer `n` as a fraction with denominator 1.
    pub open spec fn from_int(n: int) -> Frac {
        Frac { num: magnitude(n) as u32, den: 1, neg: n < 0 }
    }

    /// Numerator and denominator share no divisor but 1.
    pub open spec fn is_reduced(self) -> bool {
        gcd_of(self.num as nat, self.den as nat) == 1
    }

    /// The sum's numerator over the product of the denominators.
    pub open spec fn sum_num(self, rhs: Frac) -> int {
        self.signed_num() * rhs.den + rhs.signed_num() * self.den
    }

    /// The difference's numerator over the product of the denominators.
    pub open spec fn diff_num(self, rhs: Frac) -> int {
        self.signed_num() * rhs.den - rhs.signed_num() * self.den
    }

    /// Builds `num / den`, reduced; the sign is negative when exactly one
    /// argument is negative.
    pub fn new(num: i32, den: i32) -> (r: Frac)
        ensures
            r == Frac::of(num as int, den as int),
            r.is_reduced(),
    {
        let a: u32 = if num < 0 {
            (-(num as i64)) as u32
        } else {
            num as u32
        };
        let b: u32 = if den < 0 {
            (-(den as i64)) as u32
        } else {
            den as u32
        };
        Frac::from_u(a, b, (num < 0) ^ (den < 0))
    }

    /// Builds `num / den` with the given sign, reduced.
    pub fn from_u(num: u32, den: u32, neg: bool) -> (r: Frac)
        ensures
            r == Frac::reduced(num as nat, den as nat, neg),
            r.is_reduced(),
    {
        let g = Frac::gcd(num, den);
        proof {
            lemma_reduced_coprime(num as nat, den as nat);
            lemma_reduced_bounded(num as nat, den as nat);
        }
        Frac { num: num / g, den: den / g, neg }
    }

    /// The integer `num` as a fraction with denominator 1.
    pub fn from_i(num: i32) -> (r: Frac)
        ensures
            r == Frac::from_int(num as int),
            r.signed_num() == num,
    {
        let a: u32 = if num < 0 {
            (-(num as i64)) as u32
        } else {
            num as u32
        };
        Frac { num: a, den: 1, neg: num < 0 }
    }

    /// Whether the sign flag is set.
    pub fn is_neg(&self) -> (r: bool)
        ensures
            r == self.neg,
    {
        self.neg
    }

    /// The divisor used for reduction: 1 for two zeros, the other
    /// argument when one is zero, the greatest common divisor otherwise.
    pub fn gcd(num: u32, den: u32) -> (r: u32)
        ensures
            r as nat == gcd_of(num as nat, den as nat),
            r > 0,
    {
        if num == 0 && den == 0 {
            return 1;
        }
        let mut a: u32 = num;
        let mut b: u32 = den;
        while b != 0
            invariant
                euclid(a as nat, b as nat) == euclid(num as nat, den as nat),
                a > 0 || b > 0,
            decreases b,
        {
            let t: u32 = a % b;
            a = b;
            b = t;
        }
        proof {
            lemma_euclid_divides(num as nat, den as nat);
        }
        a
    }
}

/// The signed numerator as a wide machine integer.
fn signed_wide(f: Frac) -> (r: i128)
    ensures
        r == f.signed_num(),
        -0x1_0000_0000 < r < 0x1_0000_0000,
{
    if f.neg {
        -(f.num as i128)
    } else {
        f.num as i128
    }
}

/// The signed numerator of `a` times the denominator of `b`.
fn cross(a: Frac, b: Frac) -> (r: i128)
    ensures
        r == a.signed_num() * b.den,
        -0x1_0000_0000_0000_0000 < r < 0x1_0000_0000_0000_0000,
{
    let s = signed_wide(a);
    let d = b.den as i128;
    assert(-0x1_0000_0000_0000_0000 < s * d < 0x1_0000_0000_0000_0000) by (nonlinear_arith)
        requires
            -0x1_0000_0000 < s < 0x1_0000_0000,
            0 <= d < 0x1_0000_0000,
    ;
    s * d
}

/// The product of the two denominators.
fn den_product(a: Frac, b: Frac) -> (r: i128)
    ensures
        r == a.den * b.den,
{
    assert(a.den * b.den < 0x1_0000_0000_0000_0000) by (nonlinear_arith)
        requires
            a.den < 0x1_0000_0000,
            b.den < 0x1_0000_0000,
    ;
    (a.den as i128) * (b.den as i128)
}

/// The product of two magnitudes, without overflow.
fn wide_product(a: u32, b: u32) -> (r: u64)
    ensures
        r == a * b,
{
    assert(a * b <= u64::MAX) by (nonlinear_arith)
        requires
            a <= u32::MAX,
            b <= u32::MAX,
    ;
    (a as u64) * (b as u64)
}

/// Whether a value fits the signed 32-bit arguments of `Frac::new`.
pub open spec fn fits_i32(x: int) -> bool {
    i32::MIN <= x <= i32::MAX
}

impl core::ops::Add for Frac {
    type Output = Frac;

    /// Cross-multiplies and reduces: `a/b + c/d = (a*d + c*b) / (b*d)`.
    fn add(self, rhs: Frac) -> (r: Frac) {
        let n: i128 = cross(self, rhs) + cross(rhs, self);
        let d: i128 = den_product(self, rhs);
        Frac::new(n as i32, d as i32)
    }
}

impl vstd::std_specs::ops::AddSpecImpl for Frac {
    open spec fn obeys_add_spec() -> bool {
        true
    }

    /// The cross-multiplied numerator and denominator fit 32 signed bits.
    open spec fn add_req(self, rhs: Frac) -> bool {
        fits_i32(self.sum_num(rhs)) && fits_i32(self.den * rhs.den)
    }

    open spec fn add_spec(self, rhs: Frac) -> Frac {
        Frac::of(self.sum_num(rhs), self.den * rhs.den)
    }
}

impl core::ops::Sub for Frac {
    type Output = Frac;

    /// Cross-multiplies and reduces: `a/b - c/d = (a*d - c*b) / (b*d)`.
    fn sub(self, rhs: Frac) -> (r: Frac) {
        let n: i128 = cross(self, rhs) - cross(rhs, self);
        let d: i128 = den_product(self, rhs);
        Frac::new(n as i32, d as i32)
    }
}

impl vstd::std_specs::ops::SubSpecImpl for Frac {
    open spec fn obeys_sub_spec() -> bool {
        true
    }

    /// The cross-multiplied numerator and denominator fit 32 signed bits.
    open spec fn sub_req(self, rhs: Frac) -> bool {
        fits_i32(self.diff_num(rhs)) && fits_i32(self.den * rhs.den)
    }

    open spec fn sub_spec(self, rhs: Frac) -> Frac {
        Frac::of(self.diff_num(rhs), self.den * rhs.den)
    }
}

impl core::ops::Mul for Frac {
    type Output = Frac;

    /// Multiplies the magnitudes, combines the signs, and reduces.
    fn mul(self, rhs: Frac) -> (r: Frac) {
        Frac::from_u(self.num * rhs.num, self.den * rhs.den, self.neg ^ rhs.neg)
    }
}

impl vstd::std_specs::ops::MulSpecImpl for Frac {
    open spec fn obeys_mul_spec() -> bool {
        true
    }

    /// Both products of magnitudes fit 32 unsigned bits.
    open spec fn mul_req(self, rhs: Frac) -> bool {
        self.num * rhs.num <= u32::MAX && self.den * rhs.den <= u32::MAX
    }

    open spec fn mul_spec(self, rhs: Frac) -> Frac {
        Frac::reduced(
            (self.num * rhs.num) as nat,
            (self.den * rhs.den) as nat,
            self.neg != rhs.neg,
        )
    }
}

impl core::ops::Div for Frac {
    type Output = Frac;

    /// Multiplies by the flipped divisor, combines the signs, and reduces.
    /// A zero divisor gives a zero denominator.
    fn div(self, rhs: Frac) -> (r: Frac) {
        Frac::from_u(self.num * rhs.den, self.den * rhs.num, self.neg ^ rhs.neg)
    }
}

impl vstd::std_specs::ops::DivSpecImpl for Frac {
    open spec fn obeys_div_spec() -> bool {
        true
    }

    /// Both cross products of magnitudes fit 32 unsigned bits.
    open spec fn div_req(self, rhs: Frac) -> bool {
        self.num * rhs.den <= u32::MAX && self.den * rhs.num <= u32::MAX
    }

    open spec fn div_spec(self, rhs: Frac) -> Frac {
        Frac::reduced(
            (self.num * rhs.den) as nat,
            (self.den * rhs.num) as nat,
            self.neg != rhs.neg,
        )
    }
}

impl core::ops::Neg for Frac {
    type Output = Frac;

    /// Flips the sign flag; the magnitude is reduced again.
    fn neg(self) -> (r: Frac) {
        Frac::from_u(self.num, self.den, !self.neg)
    }
}

impl vstd::std_specs::ops::NegSpecImpl for Frac {
    open spec fn obeys_neg_spec() -> bool {
        true
    }

    open spec fn neg_req(self) -> bool {
        true
    }

    open spec fn neg_spec(self) -> Frac {
        Frac::reduced(self.num as nat, self.den as nat, !self.neg)
    }
}

/// How two fractions compare: by the sign of the cross-multiplied
/// difference, and equal only when that is zero and both denominators
/// are non-zero.
pub open spec fn compare(a: Frac, b: Frac) -> Ordering {
    if a.diff_num(b) == 0 && a.den != 0 && b.den != 0 {
        Ordering::Equal
    } else if a.diff_num(b) < 0 {
        Ordering::Less
    } else {
        Ordering::Greater
    }
}

impl PartialOrd for Frac {
    fn partial_cmp(&self, other: &Frac) -> (r: Option<Ordering>) {
        let x: i128 = cross(*self, *other) - cross(*other, *self);
        if x == 0 && self.den != 0 && other.den != 0 {
            Some(Ordering::Equal)
        } else if x < 0 {
            Some(Ordering::Less)
        } else {
            Some(Ordering::Greater)
        }
    }
}

impl vstd::std_specs::cmp::PartialOrdSpecImpl for Frac {
    open spec fn obeys_partial_cmp_spec() -> bool {
        true
    }

    open spec fn partial_cmp_spec(&self, other: &Frac) -> Option<Ordering> {
        Some(compare(*self, *other))
    }
}

impl Frac {
    /// Whether `self + rhs` can be computed in 32 bits.
    pub fn add_fits(self, rhs: Frac) -> (r: bool)
        ensures
            r == self.add_req(rhs),
    {
        let n: i128 = cross(self, rhs) + cross(rhs, self);
        let d: i128 = den_product(self, rhs);
        i32::MIN as i128 <= n && n <= i32::MAX as i128 && d <= i32::MAX as i128
    }

    /// Whether `self - rhs` can be computed in 32 bits.
    pub fn sub_fits(self, rhs: Frac) -> (r: bool)
        ensures
            r == self.sub_req(rhs),
    {
        let n: i128 = cross(self, rhs) - cross(rhs, self);
        let d: i128 = den_product(self, rhs);
        i32::MIN as i128 <= n && n <= i32::MAX as i128 && d <= i32::MAX as i128
    }

    /// Whether `self * rhs` can be computed in 32 bits.
    pub fn mul_fits(self, rhs: Frac) -> (r: bool)
        ensures
            r == self.mul_req(rhs),
    {
        wide_product(self.num, rhs.num) <= u32::MAX as u64 && wide_product(self.den, rhs.den)
            <= u32::MAX as u64
    }

    /// Whether `self / rhs` can be computed in 32 bits.
    pub fn div_fits(self, rhs: Frac) -> (r: bool)
        ensures
            r == self.div_req(rhs),
    {
        wide_product(self.num, rhs.den) <= u32::MAX as u64 && wide_product(self.den, rhs.num)
            <= u32::MAX as u64
    }
}

} // verus!
