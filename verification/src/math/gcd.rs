use crate::math::fraction::{abs_int, euclid, wrap32, Fraction};
use vstd::arithmetic::div_mod::{
    lemma_fundamental_div_mod, lemma_fundamental_div_mod_converse, lemma_mod_multiples_basic,
    lemma_mod_multiples_vanish,
};
use vstd::prelude::*;

verus! {

/// The result of the Euclidean algorithm divides both its arguments, and is positive
/// unless both are 0.
pub proof fn lemma_euclid_divides(a: nat, b: nat)
    ensures
        euclid(a, b) > 0 || (a == 0 && b == 0),
        euclid(a, b) > 0 ==> a % euclid(a, b) == 0 && b % euclid(a, b) == 0,
    decreases b,
{
    if b == 0 {
        if a > 0 {
            lemma_mod_multiples_basic(1, a as int);
        }
    } else {
        let r = a % b;
        lemma_euclid_divides(b, r);
        let g = euclid(b, r);
        assert(g == euclid(a, b));
        lemma_fundamental_div_mod(a as int, b as int);
        lemma_fundamental_div_mod(b as int, g as int);
        let t = b / g;
        let q = a / b;
        assert(b == g * t);
        assert(b * q == g * (t * q)) by (nonlinear_arith)
            requires
                b == g * t,
        ;
        assert(a == g * (t * q) + r);
        lemma_mod_multiples_vanish((t * q) as int, r as int, g as int);
    }
}

/// Every common divisor of two numbers divides the result of the Euclidean algorithm.
pub proof fn lemma_common_divisor_divides_euclid(a: nat, b: nat, k: nat)
    requires
        k > 0,
        a % k == 0,
        b % k == 0,
    ensures
        euclid(a, b) % k == 0,
    decreases b,
{
    if b > 0 {
        let r = a % b;
        lemma_fundamental_div_mod(a as int, b as int);
        lemma_fundamental_div_mod(a as int, k as int);
        lemma_fundamental_div_mod(b as int, k as int);
        let q = a / b;
        let ak = a / k;
        let bk = b / k;
        assert(r == k * (ak - bk * q)) by (nonlinear_arith)
            requires
                a == b * q + r,
                a == k * ak,
                b == k * bk,
        ;
        lemma_mod_multiples_basic(ak - bk * q, k as int);
        assert((ak - bk * q) * k == k * (ak - bk * q)) by (nonlinear_arith);
        lemma_common_divisor_divides_euclid(b, r, k);
    }
}

/// A positive multiple of a positive number is at least that number.
proof fn lemma_multiple_at_least(x: nat, y: nat)
    requires
        x > 0,
        y > 0,
        x % y == 0,
    ensures
        y <= x,
{
    lemma_fundamental_div_mod(x as int, y as int);
    let q = x / y;
    assert(x == y * q);
    assert(y <= x) by (nonlinear_arith)
        requires
            x == y * q,
            x > 0,
            y > 0,
            q >= 0,
    ;
}

/// The gcd of the absolute values, in either order.
proof fn lemma_gcd_spec_divides(c: Fraction)
    ensures
        c.gcd_spec() > 0 || (c.n == 0 && c.d == 0),
        c.gcd_spec() > 0 ==> abs_int(c.n as int) % (c.gcd_spec() as int) == 0 && abs_int(
            c.d as int,
        ) % (c.gcd_spec() as int) == 0,
{
    let an = abs_int(c.n as int) as nat;
    let ad = abs_int(c.d as int) as nat;
    if an >= ad {
        lemma_euclid_divides(an, ad);
    } else {
        lemma_euclid_divides(ad, an);
    }
}

/// Every common divisor of the absolute values divides the gcd.
proof fn lemma_gcd_spec_greatest(c: Fraction, k: nat)
    requires
        k > 0,
        abs_int(c.n as int) % (k as int) == 0,
        abs_int(c.d as int) % (k as int) == 0,
    ensures
        (c.gcd_spec() as int) % (k as int) == 0,
{
    let an = abs_int(c.n as int) as nat;
    let ad = abs_int(c.d as int) as nat;
    if an >= ad {
        lemma_common_divisor_divides_euclid(an, ad, k);
    } else {
        lemma_common_divisor_divides_euclid(ad, an, k);
    }
}

/// `simplify` gives the fraction in lowest terms: the same value, a denominator of at
/// least 0 (above 0 where the fraction's is not 0), a gcd of 1, no part larger in size
/// than before, and it is a fixed point.
pub proof fn lemma_simplify_lowest_terms(c: Fraction)
    requires
        c.simplify_ok(),
    ensures
        ({
            let r = c.reduce_spec();
            &&& r.d >= 0
            &&& c.d != 0 ==> r.d > 0
            &&& r.gcd_spec() == 1
            &&& r.n * c.d == c.n * r.d
            &&& abs_int(r.n as int) <= abs_int(c.n as int)
            &&& r.d <= abs_int(c.d as int)
            &&& r.reduce_spec() == r
        }),
{
    let g = c.gcd_spec();
    lemma_gcd_spec_divides(c);
    let a = abs_int(c.n as int);
    let b = abs_int(c.d as int);
    lemma_fundamental_div_mod(a, g as int);
    lemma_fundamental_div_mod(b, g as int);
    let a1 = a / (g as int);
    let b1 = b / (g as int);
    assert(a == g * a1);
    assert(b == g * b1);
    assert(0 <= a1 <= a && 0 <= b1 <= b) by (nonlinear_arith)
        requires
            a == g * a1,
            b == g * b1,
            g > 0,
            a >= 0,
            b >= 0,
    ;
    assert(a < 0x8000_0000 && b < 0x8000_0000);
    let r = c.reduce_spec();
    let negative = (c.n < 0) != (c.d < 0);
    assert(r.n == (if negative { -a1 } else { a1 }));
    assert(r.d == b1);
    assert(c.d != 0 ==> b1 > 0) by (nonlinear_arith)
        requires
            b == g * b1,
            b1 >= 0,
            c.d != 0 ==> b > 0,
    ;
    // the same value
    assert(a1 * b == a * b1) by (nonlinear_arith)
        requires
            a == g * a1,
            b == g * b1,
    ;
    assert(r.n * c.d == c.n * r.d) by (nonlinear_arith)
        requires
            a1 * b == a * b1,
            r.n == (if negative { -a1 } else { a1 }),
            r.d == b1,
            a == abs_int(c.n as int),
            b == abs_int(c.d as int),
            negative == ((c.n < 0) != (c.d < 0)),
    ;
    // lowest terms
    let g1 = r.gcd_spec();
    lemma_gcd_spec_divides(r);
    assert(abs_int(r.n as int) == a1);
    assert(abs_int(r.d as int) == b1);
    assert(a1 > 0 || b1 > 0);
    assert(g1 > 0);
    lemma_fundamental_div_mod(a1, g1 as int);
    lemma_fundamental_div_mod(b1, g1 as int);
    let a2 = a1 / (g1 as int);
    let b2 = b1 / (g1 as int);
    assert(a == (g * g1) * a2 && b == (g * g1) * b2) by (nonlinear_arith)
        requires
            a == g * a1,
            b == g * b1,
            a1 == g1 * a2,
            b1 == g1 * b2,
    ;
    assert(g * g1 > 0) by (nonlinear_arith)
        requires
            g > 0,
            g1 > 0,
    ;
    lemma_mod_multiples_basic(a2, (g * g1) as int);
    lemma_mod_multiples_basic(b2, (g * g1) as int);
    assert(a2 * (g * g1) == a && b2 * (g * g1) == b) by (nonlinear_arith)
        requires
            a == (g * g1) * a2,
            b == (g * g1) * b2,
    ;
    lemma_gcd_spec_greatest(c, (g * g1) as nat);
    lemma_multiple_at_least(g, (g * g1) as nat);
    assert(g1 == 1) by (nonlinear_arith)
        requires
            g * g1 <= g,
            g > 0,
            g1 > 0,
    ;
    // a fixed point
    assert(r.d >= 0);
    assert(wrap32(a1) == a1);
    assert(wrap32(b1) == b1);
    assert(wrap32(-a1) == -a1);
    assert(a1 / 1 == a1 && b1 / 1 == b1);
    let rr = r.reduce_spec();
    if r.n < 0 {
        assert(rr.n == wrap32(-(a1 / 1)));
    } else {
        assert(rr.n == wrap32(a1 / 1));
    }
    assert(rr.n == r.n);
    assert(rr.d == r.d);
}


/// Scaling both arguments of the Euclidean algorithm scales its result.
proof fn lemma_euclid_scale(a: nat, b: nat, k: nat)
    requires
        k > 0,
    ensures
        euclid(k * a, k * b) == k * euclid(a, b),
    decreases b,
{
    if b == 0 {
        assert(k * b == 0);
    } else {
        let q = a / b;
        let r = a % b;
        lemma_fundamental_div_mod(a as int, b as int);
        assert(k * a == q * (k * b) + k * r) by (nonlinear_arith)
            requires
                a == b * q + r,
        ;
        assert(0 <= k * r < k * b) by (nonlinear_arith)
            requires
                0 <= r < b,
                k > 0,
        ;
        lemma_fundamental_div_mod_converse((k * a) as int, (k * b) as int, q as int, (k * r) as int);
        assert(k * b > 0) by (nonlinear_arith)
            requires
                k > 0,
                b > 0,
        ;
        assert(euclid(k * a, k * b) == euclid(k * b, k * r));
        lemma_euclid_scale(b, r, k);
    }
}

/// The gcd of two numbers taken in either order, as `gcd_spec` takes them.
spec fn gcd_nat(a: nat, b: nat) -> nat {
    if a >= b {
        euclid(a, b)
    } else {
        euclid(b, a)
    }
}

proof fn lemma_gcd_nat_scale(a: nat, b: nat, k: nat)
    requires
        k > 0,
    ensures
        gcd_nat(k * a, k * b) == k * gcd_nat(a, b),
{
    assert(a >= b <==> k * a >= k * b) by (nonlinear_arith)
        requires
            k > 0,
    ;
    if a >= b {
        lemma_euclid_scale(a, b, k);
    } else {
        lemma_euclid_scale(b, a, k);
    }
}

/// Two fractions in lowest terms with positive denominators and the same value are the
/// same fraction.
proof fn lemma_lowest_terms_unique(x: Fraction, y: Fraction)
    requires
        x.d > 0,
        y.d > 0,
        x.gcd_spec() == 1,
        y.gcd_spec() == 1,
        x.n * y.d == y.n * x.d,
    ensures
        x == y,
{
    let ax = abs_int(x.n as int) as nat;
    let ay = abs_int(y.n as int) as nat;
    let dx = x.d as nat;
    let dy = y.d as nat;
    assert(x.gcd_spec() == gcd_nat(ax, dx));
    assert(y.gcd_spec() == gcd_nat(ay, dy));
    assert(ax * dy == ay * dx) by (nonlinear_arith)
        requires
            x.n * y.d == y.n * x.d,
            ax == abs_int(x.n as int),
            ay == abs_int(y.n as int),
            dx == x.d,
            dy == y.d,
            dx > 0,
            dy > 0,
    ;
    lemma_gcd_nat_scale(ax, dx, dy);
    lemma_gcd_nat_scale(ay, dy, dx);
    assert(dy * ax == dx * ay && dy * dx == dx * dy) by (nonlinear_arith)
        requires
            ax * dy == ay * dx,
    ;
    assert(gcd_nat(dy * ax, dy * dx) == gcd_nat(dx * ay, dx * dy));
    assert(dy * 1 == dx * 1);
    assert(x.n == y.n) by (nonlinear_arith)
        requires
            x.n * y.d == y.n * x.d,
            x.d == y.d,
            x.d > 0,
    ;
}

/// Fractions of the same value simplify to the same fraction.
pub proof fn lemma_simplify_same_value(a: Fraction, b: Fraction)
    requires
        a.simplify_ok(),
        b.simplify_ok(),
        a.d != 0,
        b.d != 0,
        a.n * b.d == b.n * a.d,
    ensures
        a.reduce_spec() == b.reduce_spec(),
{
    lemma_simplify_lowest_terms(a);
    lemma_simplify_lowest_terms(b);
    let ra = a.reduce_spec();
    let rb = b.reduce_spec();
    assert(ra.n * rb.d == rb.n * ra.d) by (nonlinear_arith)
        requires
            ra.n * a.d == a.n * ra.d,
            rb.n * b.d == b.n * rb.d,
            a.n * b.d == b.n * a.d,
            a.d != 0,
            b.d != 0,
    ;
    lemma_lowest_terms_unique(ra, rb);
}

} // verus!
