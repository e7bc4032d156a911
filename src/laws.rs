//! Algebraic laws of the fraction operations, stated over their specifications.

use crate::fraction::{compare, magnitude, Frac};
use crate::gcd::{
    euclid, gcd_of, lemma_coprime_divides, lemma_euclid_divides, lemma_gcd_self, lemma_mutual_divisors,
    lemma_reduce_scale, lemma_reduced_bounded, lemma_reduced_coprime,
};
use core::cmp::Ordering;
use vstd::prelude::*;
use vstd::std_specs::ops::{AddSpec, DivSpec, MulSpec, NegSpec, SubSpec};

verus! {

/// The sign of a non-zero integer, as 1 or -1.
spec fn sign(x: int) -> int {
    if x < 0 {
        -1
    } else {
        1
    }
}

/// Constructing from `k*a` over `k*b` gives the same fraction as from
/// `a` over `b`, for every non-zero `k`; when `k` is negative, `a` and
/// `b` must be non-zero, since a zero carries no sign to flip.
pub proof fn lemma_scale_invariant(a: int, b: int, k: int)
    requires
        k != 0,
        k > 0 || (a != 0 && b != 0),
    ensures
        Frac::of(k * a, k * b) == Frac::of(a, b),
{
    let m = magnitude(k);
    assert(magnitude(k * a) == m * magnitude(a) && magnitude(k * b) == m * magnitude(b))
        by (nonlinear_arith)
        requires
            m == magnitude(k),
    ;
    assert(((k * a < 0) != (k * b < 0)) == ((a < 0) != (b < 0))) by (nonlinear_arith)
        requires
            k != 0,
            k > 0 || (a != 0 && b != 0),
    ;
    lemma_reduce_scale(magnitude(a), magnitude(b), m);
}

/// Negating the numerator, negating the fraction, and negating the
/// denominator agree, and negating both parts changes nothing; both
/// parts must be non-zero, since a zero carries no sign.
pub proof fn lemma_sign_laws(a: int, b: int)
    requires
        a != 0,
        b != 0,
        magnitude(a) <= u32::MAX,
        magnitude(b) <= u32::MAX,
    ensures
        Frac::of(-a, b) == Frac::of(a, b).neg_spec(),
        Frac::of(-a, b) == Frac::of(a, -b),
        Frac::of(-a, -b) == Frac::of(a, b),
{
    let x = Frac::of(a, b);
    lemma_reduced_coprime(magnitude(a), magnitude(b));
    lemma_reduced_bounded(magnitude(a), magnitude(b));
    assert(x.num == magnitude(a) / gcd_of(magnitude(a), magnitude(b)));
    assert(x.den == magnitude(b) / gcd_of(magnitude(a), magnitude(b)));
}

/// A constructed fraction times its scale gives back the arguments:
/// `signed_num * g * sign(den) == num` and `den_part * g * sign(den) == den`.
proof fn lemma_of_parts(a: int, b: int)
    requires
        b != 0,
        magnitude(a) <= u32::MAX,
        magnitude(b) <= u32::MAX,
    ensures
        Frac::of(a, b).signed_num() * gcd_of(magnitude(a), magnitude(b)) * sign(b) == a,
        Frac::of(a, b).den * gcd_of(magnitude(a), magnitude(b)) * sign(b) == b,
        gcd_of(magnitude(a), magnitude(b)) > 0,
{
    let g = gcd_of(magnitude(a), magnitude(b));
    lemma_reduced_coprime(magnitude(a), magnitude(b));
    lemma_reduced_bounded(magnitude(a), magnitude(b));
    lemma_euclid_divides(magnitude(a), magnitude(b));
    let x = Frac::of(a, b);
    assert(x.num * g == magnitude(a));
    assert(x.den * g == magnitude(b));
    assert(x.signed_num() * g * sign(b) == a) by (nonlinear_arith)
        requires
            x.num * g == magnitude(a),
            x.signed_num() == if x.neg { -(x.num as int) } else { x.num as int },
            x.neg == ((a < 0) != (b < 0)),
            sign(b) == if b < 0 { -1int } else { 1 },
            magnitude(a) == if a < 0 { -a } else { a },
    ;
    assert(x.den * g * sign(b) == b) by (nonlinear_arith)
        requires
            x.den * g == magnitude(b),
            sign(b) == if b < 0 { -1int } else { 1 },
            magnitude(b) == if b < 0 { -b } else { b },
    ;
}

/// Adding `c/d` equals subtracting `-c/d`; addition commutes; and the sum
/// of the reduced operands equals the fraction `(a*d + c*b) / (b*d)`
/// built directly, unless the denominators differ in sign and that
/// numerator is zero (a zero carries no sign to flip).
pub proof fn lemma_add_laws(a: int, b: int, c: int, d: int)
    requires
        b != 0,
        d != 0,
        magnitude(a) <= u32::MAX,
        magnitude(b) <= u32::MAX,
        magnitude(c) <= u32::MAX,
        magnitude(d) <= u32::MAX,
    ensures
        Frac::of(a, b).add_spec(Frac::of(c, d)) == Frac::of(a, b).sub_spec(Frac::of(-c, d)),
        Frac::of(a, b).add_req(Frac::of(c, d)) == Frac::of(a, b).sub_req(Frac::of(-c, d)),
        Frac::of(a, b).add_spec(Frac::of(c, d)) == Frac::of(c, d).add_spec(Frac::of(a, b)),
        (b > 0) == (d > 0) || a * d + c * b != 0 ==> Frac::of(a, b).add_spec(Frac::of(c, d))
            == Frac::of(a * d + c * b, b * d),
{
    let x = Frac::of(a, b);
    let y = Frac::of(c, d);
    let z = Frac::of(-c, d);
    assert(magnitude(-c) == magnitude(c));
    lemma_reduced_bounded(magnitude(c), magnitude(d));
    if c == 0 {
        lemma_euclid_divides(magnitude(c), magnitude(d));
        vstd::arithmetic::div_mod::lemma_div_of0(gcd_of(magnitude(c), magnitude(d)) as int);
        assert(y.num == 0 && z.num == 0);
    }
    assert(z.signed_num() == -y.signed_num());
    assert(z.den == y.den);
    assert(x.sum_num(y) == x.diff_num(z)) by (nonlinear_arith)
        requires
            z.signed_num() == -y.signed_num(),
            z.den == y.den,
            x.sum_num(y) == x.signed_num() * y.den + y.signed_num() * x.den,
            x.diff_num(z) == x.signed_num() * z.den - z.signed_num() * x.den,
    ;
    assert(x.sum_num(y) == y.sum_num(x)) by (nonlinear_arith);
    assert(x.den * y.den == y.den * x.den) by (nonlinear_arith);
    if (b > 0) == (d > 0) || a * d + c * b != 0 {
        lemma_of_parts(a, b);
        lemma_of_parts(c, d);
        let g1 = gcd_of(magnitude(a), magnitude(b));
        let g2 = gcd_of(magnitude(c), magnitude(d));
        let k = g1 * g2 * sign(b) * sign(d);
        let sx = x.signed_num();
        let sy = y.signed_num();
        let dx = x.den as int;
        let dy = y.den as int;
        let sb = sign(b);
        let sd = sign(d);
        assert(k * (sx * dy) == a * d) by (nonlinear_arith)
            requires
                sx * g1 * sb == a,
                dy * g2 * sd == d,
                k == g1 * g2 * sb * sd,
        ;
        assert(k * (sy * dx) == c * b) by (nonlinear_arith)
            requires
                sy * g2 * sd == c,
                dx * g1 * sb == b,
                k == g1 * g2 * sb * sd,
        ;
        assert(k * (dx * dy) == b * d) by (nonlinear_arith)
            requires
                dx * g1 * sb == b,
                dy * g2 * sd == d,
                k == g1 * g2 * sb * sd,
        ;
        assert(k * (sx * dy + sy * dx) == k * (sx * dy) + k * (sy * dx)) by (nonlinear_arith);
        assert(x.sum_num(y) == sx * dy + sy * dx);
        assert(k != 0) by (nonlinear_arith)
            requires
                k == g1 * g2 * sb * sd,
                g1 > 0,
                g2 > 0,
                sb == 1 || sb == -1,
                sd == 1 || sd == -1,
        ;
        assert(k > 0 || (x.sum_num(y) != 0 && x.den * y.den != 0)) by (nonlinear_arith)
            requires
                k * x.sum_num(y) == a * d + c * b,
                k * (x.den * y.den) == b * d,
                (b > 0) == (d > 0) || a * d + c * b != 0,
                b != 0,
                d != 0,
                k == g1 * g2 * sign(b) * sign(d),
                g1 > 0,
                g2 > 0,
                sign(b) == if b < 0 { -1int } else { 1 },
                sign(d) == if d < 0 { -1int } else { 1 },
        ;
        lemma_scale_invariant(x.sum_num(y), x.den * y.den, k);
    }
}

/// A fraction with non-zero parts times one over it is exactly `1/1`, positive.
pub proof fn lemma_mul_inverse(x: Frac)
    requires
        x.num > 0,
        x.den > 0,
        x.num * x.den <= u32::MAX,
    ensures
        Frac::of(1, 1).div_req(x),
        x.mul_req(Frac::of(1, 1).div_spec(x)),
        x.mul_spec(Frac::of(1, 1).div_spec(x)) == (Frac { num: 1, den: 1, neg: false }),
{
    let one = Frac::of(1, 1);
    lemma_gcd_self(1);
    assert(one == Frac { num: 1, den: 1, neg: false });
    assert(one.num == 1 && one.den == 1);
    assert(one.num * x.den == x.den && one.den * x.num == x.num) by (nonlinear_arith)
        requires
            one.num == 1,
            one.den == 1,
    ;
    let n = x.num as nat;
    let d = x.den as nat;
    let inv = one.div_spec(x);
    lemma_reduced_coprime(d, n);
    lemma_reduced_bounded(d, n);
    let g = gcd_of(d, n);
    lemma_euclid_divides(d, n);
    assert(inv.num == d / g && inv.den == n / g);
    let m = n * (d / g);
    assert(n * (d / g) == d * (n / g) && m <= n * d && m > 0) by (nonlinear_arith)
        requires
            d == (d / g) * g,
            n == (n / g) * g,
            g > 0,
            n > 0,
            d > 0,
            m == n * (d / g),
    ;
    lemma_gcd_self(m);
    vstd::arithmetic::div_mod::lemma_div_by_self(m as int);
}

/// Reduced fractions with positive denominators that cross-multiply
/// equal have equal magnitudes.
proof fn lemma_reduced_unique(x: Frac, y: Frac)
    requires
        x.den > 0,
        y.den > 0,
        x.is_reduced(),
        y.is_reduced(),
        x.num * y.den == y.num * x.den,
    ensures
        x.num == y.num,
        x.den == y.den,
{
    let (nx, dx, ny, dy) = (x.num as nat, x.den as nat, y.num as nat, y.den as nat);
    if nx == 0 || ny == 0 {
        assert(nx == 0 && ny == 0) by (nonlinear_arith)
            requires
                nx * dy == ny * dx,
                dx > 0,
                dy > 0,
                nx == 0 || ny == 0,
        ;
        assert(euclid(0, dx) == euclid(dx, 0));
        assert(euclid(0, dy) == euclid(dy, 0));
    } else {
        vstd::arithmetic::div_mod::lemma_mod_multiples_basic(ny as int, dx as int);
        assert((nx * dy) % dx == 0);
        lemma_coprime_divides(nx, dx, dy);
        vstd::arithmetic::div_mod::lemma_mod_multiples_basic(nx as int, dy as int);
        assert((ny * dx) % dy == 0);
        lemma_coprime_divides(ny, dy, dx);
        lemma_mutual_divisors(dx, dy);
        assert(nx == ny) by (nonlinear_arith)
            requires
                nx * dy == ny * dx,
                dx == dy,
                dx > 0,
        ;
    }
}

/// Exactly one of `x < y`, `x == y` and `x > y` holds of two reduced
/// fractions with positive denominators, unless both are zero with
/// different sign flags (then neither order holds and `==` fails too).
pub proof fn lemma_order_total(x: Frac, y: Frac)
    requires
        x.den > 0,
        y.den > 0,
        x.is_reduced(),
        y.is_reduced(),
        !(x.num == 0 && y.num == 0 && x.neg != y.neg),
    ensures
        compare(x, y) == Ordering::Less || x == y || compare(x, y) == Ordering::Greater,
        !(compare(x, y) == Ordering::Less && x == y),
        !(compare(x, y) == Ordering::Greater && x == y),
        !(compare(x, y) == Ordering::Less && compare(x, y) == Ordering::Greater),
{
    if x.diff_num(y) == 0 {
        let (sx, sy) = (x.signed_num(), y.signed_num());
        let (dx, dy) = (x.den as int, y.den as int);
        let (nx, ny) = (x.num as int, y.num as int);
        assert(sx * dy == sy * dx);
        assert(nx * dy >= 0 && ny * dx >= 0) by (nonlinear_arith)
            requires
                nx >= 0,
                ny >= 0,
                dx > 0,
                dy > 0,
        ;
        assert(nx > 0 ==> nx * dy > 0) by (nonlinear_arith)
            requires
                dy > 0,
        ;
        assert(ny > 0 ==> ny * dx > 0) by (nonlinear_arith)
            requires
                dx > 0,
        ;
        if x.neg == y.neg {
            assert(nx * dy == ny * dx) by (nonlinear_arith)
                requires
                    sx == if x.neg { -nx } else { nx },
                    sy == if y.neg { -ny } else { ny },
                    x.neg == y.neg,
                    sx * dy == sy * dx,
            ;
        } else {
            assert(nx * dy == -(ny * dx)) by (nonlinear_arith)
                requires
                    sx == if x.neg { -nx } else { nx },
                    sy == if y.neg { -ny } else { ny },
                    x.neg != y.neg,
                    sx * dy == sy * dx,
            ;
            assert(ny * dx == 0) by (nonlinear_arith)
                requires
                    nx * dy == -(ny * dx),
                    nx * dy >= 0,
                    ny * dx >= 0,
            ;
        }
        lemma_reduced_unique(x, y);
    }
}

/// For positive denominators, `x < y` holds exactly when `x * dy < y * dx`.
proof fn lemma_less_cross(x: Frac, y: Frac)
    requires
        x.den > 0,
        y.den > 0,
    ensures
        (compare(x, y) == Ordering::Less) == (x.signed_num() * y.den < y.signed_num() * x.den),
        compare(x, y) == Ordering::Equal || compare(x, y) == Ordering::Less || compare(x, y)
            == Ordering::Greater,
{
}

/// No fraction with a positive denominator is below itself.
pub proof fn lemma_order_irreflexive(x: Frac)
    requires
        x.den > 0,
    ensures
        compare(x, x) == Ordering::Equal,
{
    assert(x.diff_num(x) == 0) by (nonlinear_arith);
}

/// For positive denominators, `x < y` and `y <= z` give `x < z`, and
/// `x < y` and `y < z` give `x < z`.
pub proof fn lemma_order_transitive(x: Frac, y: Frac, z: Frac)
    requires
        x.den > 0,
        y.den > 0,
        z.den > 0,
        compare(x, y) == Ordering::Less,
    ensures
        compare(z, y) != Ordering::Less ==> compare(x, z) == Ordering::Less,
        compare(y, z) == Ordering::Less ==> compare(x, z) == Ordering::Less,
{
    lemma_less_cross(x, y);
    lemma_less_cross(z, y);
    lemma_less_cross(y, z);
    lemma_less_cross(x, z);
    let (sx, sy, sz) = (x.signed_num(), y.signed_num(), z.signed_num());
    let (dx, dy, dz) = (x.den as int, y.den as int, z.den as int);
    assert(sz * dy >= sy * dz ==> sx * dz < sz * dx) by (nonlinear_arith)
        requires
            sx * dy < sy * dx,
            dx > 0,
            dy > 0,
            dz > 0,
    ;
    assert(sy * dz < sz * dy ==> sx * dz < sz * dx) by (nonlinear_arith)
        requires
            sx * dy < sy * dx,
            dx > 0,
            dy > 0,
            dz > 0,
    ;
}

/// Reducing keeps the ratio of the magnitudes, and a positive
/// denominator stays positive.
proof fn lemma_reduced_value(n: nat, d: nat, neg: bool)
    requires
        n <= u32::MAX,
        d <= u32::MAX,
    ensures
        Frac::reduced(n, d, neg).signed_num() * d == (if neg {
            -(n as int)
        } else {
            n as int
        }) * Frac::reduced(n, d, neg).den,
        d > 0 ==> Frac::reduced(n, d, neg).den > 0,
{
    lemma_reduced_coprime(n, d);
    lemma_reduced_bounded(n, d);
    let g = gcd_of(n, d);
    let (a, b) = (n / g, d / g);
    assert(a * d == n * b) by (nonlinear_arith)
        requires
            n == a * g,
            d == b * g,
    ;
    assert(d > 0 ==> b > 0) by (nonlinear_arith)
        requires
            d == b * g,
            b >= 0,
    ;
    let z = Frac::reduced(n, d, neg);
    assert(z.num == a && z.den == b);
    assert(z.signed_num() * d == (if neg { -(n as int) } else { n as int }) * z.den) by (nonlinear_arith)
        requires
            a * d == n * b,
            z.num == a,
            z.den == b,
            z.signed_num() == if neg { -(a as int) } else { a as int },
    ;
}

/// The difference has the exact value `x - y`: its cross product with
/// `x.den * y.den` is the cross-multiplied difference.
pub proof fn lemma_sub_value(x: Frac, y: Frac)
    requires
        x.den > 0,
        y.den > 0,
        x.sub_req(y),
    ensures
        x.sub_spec(y).den > 0,
        x.sub_spec(y).signed_num() * (x.den * y.den) == x.diff_num(y) * x.sub_spec(y).den,
{
    let n = x.diff_num(y);
    let d = x.den * y.den;
    assert(d > 0) by (nonlinear_arith)
        requires
            x.den > 0,
            y.den > 0,
            d == x.den * y.den,
    ;
    assert(magnitude(d) == d);
    lemma_reduced_value(magnitude(n), magnitude(d), (n < 0) != (d < 0));
}

/// The product has the exact value `x * y`.
pub proof fn lemma_mul_value(x: Frac, y: Frac)
    requires
        x.den > 0,
        y.den > 0,
        x.mul_req(y),
    ensures
        x.mul_spec(y).den > 0,
        x.mul_spec(y).signed_num() * (x.den * y.den) == x.signed_num() * y.signed_num()
            * x.mul_spec(y).den,
{
    let n = (x.num * y.num) as nat;
    let d = (x.den * y.den) as nat;
    assert(d > 0) by (nonlinear_arith)
        requires
            x.den > 0,
            y.den > 0,
            d == x.den * y.den,
    ;
    lemma_reduced_value(n, d, x.neg != y.neg);
    let z = x.mul_spec(y);
    assert((if x.neg != y.neg { -(n as int) } else { n as int }) == x.signed_num() * y.signed_num())
        by (nonlinear_arith)
        requires
            n == x.num * y.num,
            x.signed_num() == if x.neg { -(x.num as int) } else { x.num as int },
            y.signed_num() == if y.neg { -(y.num as int) } else { y.num as int },
    ;
}

/// The quotient by a non-zero `y` has the exact value `x / y`.
pub proof fn lemma_div_value(x: Frac, y: Frac)
    requires
        x.den > 0,
        y.den > 0,
        y.num > 0,
        x.div_req(y),
    ensures
        x.div_spec(y).den > 0,
        x.div_spec(y).signed_num() * x.den * y.signed_num() == x.signed_num() * y.den
            * x.div_spec(y).den,
{
    let n = (x.num * y.den) as nat;
    let d = (x.den * y.num) as nat;
    assert(d > 0) by (nonlinear_arith)
        requires
            x.den > 0,
            y.num > 0,
            d == x.den * y.num,
    ;
    lemma_reduced_value(n, d, x.neg != y.neg);
    let z = x.div_spec(y);
    let (sz, dz) = (z.signed_num(), z.den as int);
    let (sx, sy) = (x.signed_num(), y.signed_num());
    let t = if y.neg { -1int } else { 1 };
    assert(sz * x.den * sy == sx * y.den * dz) by (nonlinear_arith)
        requires
            sz * d == (if x.neg != y.neg { -(n as int) } else { n as int }) * dz,
            n == x.num * y.den,
            d == x.den * y.num,
            sx == if x.neg { -(x.num as int) } else { x.num as int },
            sy == if y.neg { -(y.num as int) } else { y.num as int },
    ;
}

} // verus!
