//! Greatest common divisors: the mathematical definition used by the
//! fraction type, and the facts about it that its contracts rest on.

use vstd::arithmetic::div_mod::*;
use vstd::prelude::*;

verus! {

/// Euclid's greatest common divisor on natural numbers; `euclid(0, 0) == 0`.
pub open spec fn euclid(a: nat, b: nat) -> nat
    decreases b,
{
    if b == 0 {
        a
    } else {
        euclid(b, a % b)
    }
}

/// The divisor used when reducing a fraction: Euclid's, except that
/// two zeros give 1, so that dividing by it is always defined.
pub open spec fn gcd_of(a: nat, b: nat) -> nat {
    if a == 0 && b == 0 {
        1
    } else {
        euclid(a, b)
    }
}

/// Euclid's divisor divides both arguments, and is positive unless both are zero.
pub proof fn lemma_euclid_divides(a: nat, b: nat)
    ensures
        (a > 0 || b > 0) ==> euclid(a, b) > 0,
        euclid(a, b) > 0 ==> a % euclid(a, b) == 0 && b % euclid(a, b) == 0,
    decreases b,
{
    if b > 0 {
        let r = (a % b) as nat;
        lemma_euclid_divides(b, r);
        let g = euclid(b, r);
        assert(g > 0);
        lemma_fundamental_div_mod(a as int, b as int);
        lemma_fundamental_div_mod(b as int, g as int);
        lemma_fundamental_div_mod(r as int, g as int);
        let q = a as int / b as int;
        let kb = b as int / g as int;
        let kr = r as int / g as int;
        assert(a as int == (q * kb + kr) * g) by (nonlinear_arith)
            requires
                a as int == b as int * q + r as int,
                b as int == g * kb,
                r as int == g * kr,
        ;
        lemma_mod_multiples_basic(q * kb + kr, g as int);
    }
}

/// Scaling both arguments by a positive factor scales the divisor by it.
pub proof fn lemma_euclid_scale(a: nat, b: nat, k: nat)
    requires
        k > 0,
    ensures
        euclid(k * a, k * b) == k * euclid(a, b),
    decreases b,
{
    if b == 0 {
        assert(k * b == 0) by (nonlinear_arith)
            requires
                b == 0,
        ;
    } else {
        let r = a % b;
        lemma_fundamental_div_mod(a as int, b as int);
        let q = a as int / b as int;
        assert(k * b > 0 && 0 <= k * r < k * b && (k * a) as int == q * (k * b) + k * r)
            by (nonlinear_arith)
            requires
                k > 0,
                b > 0,
                0 <= r < b,
                a as int == b * q + r,
        ;
        lemma_fundamental_div_mod_converse((k * a) as int, (k * b) as int, q, (k * r) as int);
        lemma_euclid_scale(b, r as nat, k);
    }
}

/// Dividing both arguments by their divisor leaves nothing more to divide out.
pub proof fn lemma_reduced_coprime(a: nat, b: nat)
    ensures
        gcd_of(a / gcd_of(a, b), b / gcd_of(a, b)) == 1,
        a == (a / gcd_of(a, b)) * gcd_of(a, b),
        b == (b / gcd_of(a, b)) * gcd_of(a, b),
{
    if a == 0 && b == 0 {
    } else {
        lemma_euclid_divides(a, b);
        let g = euclid(a, b);
        lemma_fundamental_div_mod(a as int, g as int);
        lemma_fundamental_div_mod(b as int, g as int);
        let x = a / g;
        let y = b / g;
        assert(a == g * x && b == g * y);
        lemma_euclid_scale(x, y, g);
        assert(x > 0 || y > 0) by (nonlinear_arith)
            requires
                a == g * x,
                b == g * y,
                a > 0 || b > 0,
        ;
        assert(g * euclid(x, y) == g * 1);
        assert(euclid(x, y) == 1) by (nonlinear_arith)
            requires
                g * euclid(x, y) == g * 1,
                g > 0,
        ;
    }
}

/// Dividing by the reduction divisor makes neither argument larger.
pub proof fn lemma_reduced_bounded(a: nat, b: nat)
    ensures
        gcd_of(a, b) > 0,
        a / gcd_of(a, b) <= a,
        b / gcd_of(a, b) <= b,
{
    if a > 0 || b > 0 {
        lemma_euclid_divides(a, b);
    }
    lemma_div_is_ordered_by_denominator(a as int, 1, gcd_of(a, b) as int);
    lemma_div_is_ordered_by_denominator(b as int, 1, gcd_of(a, b) as int);
}

/// A number's divisor with itself is the number.
pub proof fn lemma_gcd_self(m: nat)
    requires
        m > 0,
    ensures
        gcd_of(m, m) == m,
{
    assert(m % m == 0) by {
        lemma_mod_self_0(m as int);
    }
    assert(euclid(m, (m % m) as nat) == euclid(m, 0));
}

/// Scaling both arguments by a positive factor leaves the reduced pair unchanged.
pub proof fn lemma_reduce_scale(a: nat, b: nat, k: nat)
    requires
        k > 0,
    ensures
        (k * a) / gcd_of(k * a, k * b) == a / gcd_of(a, b),
        (k * b) / gcd_of(k * a, k * b) == b / gcd_of(a, b),
{
    if a == 0 && b == 0 {
        assert(k * a == 0 && k * b == 0) by (nonlinear_arith)
            requires
                a == 0,
                b == 0,
        ;
    } else {
        lemma_euclid_divides(a, b);
        let g = euclid(a, b);
        assert(k * a > 0 || k * b > 0) by (nonlinear_arith)
            requires
                k > 0,
                a > 0 || b > 0,
        ;
        lemma_euclid_scale(a, b, k);
        assert(k * g > 0) by (nonlinear_arith)
            requires
                k > 0,
                g > 0,
        ;
        lemma_div_multiples_vanish_quotient(k as int, a as int, g as int);
        lemma_div_multiples_vanish_quotient(k as int, b as int, g as int);
    }
}

/// Every common divisor of the arguments divides Euclid's divisor.
pub proof fn lemma_common_divisor(a: nat, b: nat, d: nat)
    requires
        d > 0,
        a % d == 0,
        b % d == 0,
    ensures
        euclid(a, b) % d == 0,
    decreases b,
{
    if b > 0 {
        let r = a % b;
        lemma_fundamental_div_mod(a as int, b as int);
        lemma_fundamental_div_mod(a as int, d as int);
        lemma_fundamental_div_mod(b as int, d as int);
        let q = a as int / b as int;
        let ka = a as int / d as int;
        let kb = b as int / d as int;
        assert(r as int == (ka - q * kb) * d) by (nonlinear_arith)
            requires
                a as int == b * q + r,
                a as int == d * ka,
                b as int == d * kb,
        ;
        lemma_mod_multiples_basic(ka - q * kb, d as int);
        lemma_common_divisor(b, r as nat, d);
    }
}

/// A divisor of a product that shares nothing with one factor divides the other.
pub proof fn lemma_coprime_divides(n: nat, m: nat, c: nat)
    requires
        m > 0,
        gcd_of(n, m) == 1,
        (n * c) % m == 0,
    ensures
        c % m == 0,
{
    if c > 0 {
        lemma_euclid_scale(n, m, c);
        assert(c * n == n * c && c * euclid(n, m) == c) by (nonlinear_arith)
            requires
                euclid(n, m) == 1,
        ;
        lemma_mod_multiples_basic(c as int, m as int);
        assert((c * m) % m == 0);
        lemma_common_divisor(c * n, c * m, m);
    }
}

/// Two positive numbers that divide each other are equal.
pub proof fn lemma_mutual_divisors(a: nat, b: nat)
    requires
        a > 0,
        b > 0,
        a % b == 0,
        b % a == 0,
    ensures
        a == b,
{
    lemma_fundamental_div_mod(a as int, b as int);
    lemma_fundamental_div_mod(b as int, a as int);
    let p = a as int / b as int;
    let q = b as int / a as int;
    assert(a == b) by (nonlinear_arith)
        requires
            a as int == b * p,
            b as int == a * q,
            a > 0,
            b > 0,
    ;
}

} // verus!
