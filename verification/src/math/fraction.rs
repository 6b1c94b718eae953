use std::cmp::Ordering;
use std::ops::{Add, AddAssign, BitXor, Div, DivAssign, Mul, MulAssign, Neg, Not, Sub, SubAssign};
use vstd::prelude::*;
use vstd::std_specs::cmp::PartialEqSpecImpl;
use vstd::std_specs::cmp::PartialOrdSpecImpl;
use vstd::std_specs::convert::FromSpecImpl;
use vstd::std_specs::ops::{
    AddSpecImpl, BitXorSpecImpl, DivSpecImpl, MulSpecImpl, NegSpecImpl, NotSpecImpl, SubSpecImpl,
};

verus! {

/// Greatest common divisor by the Euclidean algorithm, as the loop in
/// `Fraction::gcd` computes it: `euclid(a, 0) = a`, `euclid(a, b) = euclid(b, a % b)`.
pub open spec fn euclid(a: nat, b: nat) -> nat
    decreases b,
{
    if b == 0 {
        a
    } else {
        euclid(b, a % b)
    }
}

/// Absolute value of an integer.
pub open spec fn abs_int(x: int) -> int {
    if x < 0 {
        -x
    } else {
        x
    }
}

/// An integer truncated to 32 bits, as two's complement arithmetic leaves it.
pub open spec fn wrap32(x: int) -> i32 {
    x as i32
}

/// A rational number `n / d` held as two 32-bit integers, not necessarily reduced.
#[derive(Copy, Clone, Debug, Hash, Eq)]
pub struct Fraction {
    pub n: i32,
    pub d: i32,
}

impl Fraction {
    /// The greatest common divisor of `|n|` and `|d|` (0 exactly when both are 0).
    pub open spec fn gcd_spec(self) -> nat {
        let an = abs_int(self.n as int);
        let ad = abs_int(self.d as int);
        if an >= ad {
            euclid(an as nat, ad as nat)
        } else {
            euclid(ad as nat, an as nat)
        }
    }

    /// The fraction in lowest terms with a non-negative denominator; a fraction whose
    /// gcd is 0 (that is, 0/0) is left as it is.
    pub open spec fn reduce_spec(self) -> Fraction {
        let g = self.gcd_spec();
        let an = abs_int(self.n as int);
        let ad = abs_int(self.d as int);
        // the numerator's sign after the sign of the denominator is moved onto it
        let negative = (self.n < 0) != (self.d < 0);
        if g == 0 {
            self
        } else {
            Fraction {
                n: wrap32(if negative { -(an / g as int) } else { an / g as int }),
                d: wrap32(ad / g as int),
            }
        }
    }

    /// The sign of the numerator: 1, 0 or -1.
    pub open spec fn sign_spec(self) -> i32 {
        if self.n > 0 {
            1
        } else if self.n == 0 {
            0
        } else {
            -1i32
        }
    }

    /// Sign of the numerator: 1 when positive, 0 when zero, -1 when negative.
    pub fn sign(&self) -> (r: i32)
        ensures
            r == self.sign_spec(),
    {
        if self.n > 0 {
            1
        } else if self.n == 0 {
            0
        } else {
            -1i32
        }
    }

    /// Greatest common divisor of the absolute values of numerator and denominator.
    fn gcd(&self) -> (r: i64)
        ensures
            r as int == self.gcd_spec() as int,
    {
        let abs_n: i64 = if self.n < 0 { -(self.n as i64) } else { self.n as i64 };
        let abs_d: i64 = if self.d < 0 { -(self.d as i64) } else { self.d as i64 };
        let (mut a, mut b): (i64, i64) = if abs_n >= abs_d { (abs_n, abs_d) } else { (abs_d, abs_n) };
        // euclidian algorithm
        while b > 0
            invariant
                0 <= a,
                0 <= b,
                euclid(a as nat, b as nat) == self.gcd_spec(),
            decreases b,
        {
            let c = a;
            a = b;
            b = c % b;
        }
        a
    }

    /// Total form of `simplify`: reduces to lowest terms, moving the denominator's sign
    /// onto the numerator; 0/0 is returned as it is.
    pub fn reduce(self) -> (r: Fraction)
        ensures
            r == self.reduce_spec(),
    {
        let g = self.gcd();
        if g == 0 {
            return self;
        }
        let abs_n: i64 = if self.n < 0 { -(self.n as i64) } else { self.n as i64 };
        let abs_d: i64 = if self.d < 0 { -(self.d as i64) } else { self.d as i64 };
        let negative = (self.n < 0) != (self.d < 0);
        let qn: i64 = abs_n / g;
        let qd: i64 = abs_d / g;
        let n: i64 = if negative { -qn } else { qn };
        Fraction { n: trunc32(n as i128), d: trunc32(qd as i128) }
    }
}


/// Whether an integer fits in 32 bits.
pub open spec fn fits32(x: int) -> bool {
    i32::MIN <= x <= i32::MAX
}

/// `x` to the power `e` in 32-bit two's complement arithmetic, each product truncated.
pub open spec fn pow_wrap(x: i32, e: nat) -> i32
    decreases e,
{
    if e == 0 {
        1i32
    } else {
        wrap32(x * pow_wrap(x, (e - 1) as nat))
    }
}

/// Negation in 32-bit two's complement arithmetic.
pub open spec fn neg_wrap(x: i32) -> i32 {
    wrap32(-x)
}

/// The product of two 32-bit integers lies within 2^62 in absolute value.
proof fn lemma_mul_bound(a: i32, b: i32)
    by (nonlinear_arith)
    ensures
        -0x4000_0000_0000_0000 <= a * b <= 0x4000_0000_0000_0000,
{
}

/// Exact product of two 32-bit integers.
pub fn wide_mul(a: i32, b: i32) -> (r: i128)
    ensures
        r == a * b,
        -0x4000_0000_0000_0000 <= r <= 0x4000_0000_0000_0000,
{
    proof {
        lemma_mul_bound(a, b);
    }
    (a as i128) * (b as i128)
}

/// A wide integer truncated to 32 bits.
pub fn trunc32(x: i128) -> (r: i32)
    ensures
        r == wrap32(x as int),
{
    #[verifier::truncate]
    (x as i32)
}

/// `x` raised to the power `e`, each product truncated to 32 bits.
fn pow_i32(x: i32, e: u32) -> (r: i32)
    ensures
        r == pow_wrap(x, e as nat),
{
    let mut acc: i32 = 1;
    let mut k: u32 = 0;
    while k < e
        invariant
            k <= e,
            acc == pow_wrap(x, k as nat),
        decreases e - k,
    {
        acc = trunc32(wide_mul(x, acc));
        k = k + 1;
    }
    acc
}

impl Fraction {
    /// Whether `simplify` runs without panicking: no absolute value of `i32::MIN` is taken
    /// and the gcd is not zero.
    pub open spec fn simplify_ok(self) -> bool {
        self.n != i32::MIN && self.d != i32::MIN && !(self.n == 0 && self.d == 0)
    }

    /// `self + n/d`: a zero or undefined left operand yields `n/d` as given, a zero or
    /// undefined right operand yields `self`; otherwise the cross-multiplied sum, reduced.
    pub open spec fn plus_spec(self, n: i32, d: i32) -> Fraction {
        if self.n == 0 || self.d == 0 {
            Fraction { n, d }
        } else if n == 0 || d == 0 {
            self
        } else {
            Fraction { n: wrap32(self.n * d + n * self.d), d: wrap32(self.d * d) }.reduce_spec()
        }
    }

    /// Whether `self + n/d` runs without overflow or panic.
    pub open spec fn plus_ok(self, n: i32, d: i32) -> bool {
        if self.n == 0 || self.d == 0 || n == 0 || d == 0 {
            true
        } else {
            &&& fits32(self.n * d)
            &&& fits32(n * self.d)
            &&& fits32(self.n * d + n * self.d)
            &&& fits32(self.d * d)
            &&& Fraction { n: wrap32(self.n * d + n * self.d), d: wrap32(self.d * d) }.simplify_ok()
        }
    }

    /// `self * n/d`: the products of numerators and of denominators, reduced.
    pub open spec fn times_spec(self, n: i32, d: i32) -> Fraction {
        Fraction { n: wrap32(self.n * n), d: wrap32(self.d * d) }.reduce_spec()
    }

    /// Whether `self * n/d` runs without overflow or panic.
    pub open spec fn times_ok(self, n: i32, d: i32) -> bool {
        &&& fits32(self.n * n)
        &&& fits32(self.d * d)
        &&& Fraction { n: wrap32(self.n * n), d: wrap32(self.d * d) }.simplify_ok()
    }

    /// `self` to the integer power `i`; a negative power inverts the fraction.
    pub open spec fn pow_spec(self, i: i32) -> Fraction {
        if i == 0 {
            Fraction { n: 1, d: 1 }
        } else if i > 0 {
            Fraction { n: pow_wrap(self.n, i as nat), d: pow_wrap(self.d, i as nat) }
        } else {
            Fraction { n: pow_wrap(self.d, (-i) as nat), d: pow_wrap(self.n, (-i) as nat) }
        }
    }

    /// Whether `self ^ i` runs without overflow.
    pub open spec fn pow_ok(self, i: i32) -> bool {
        if i == 0 {
            true
        } else if i > 0 {
            fits32(vstd::arithmetic::power::pow(self.n as int, i as nat))
                && fits32(vstd::arithmetic::power::pow(self.d as int, i as nat))
        } else {
            i != i32::MIN && fits32(vstd::arithmetic::power::pow(self.n as int, (-i) as nat))
                && fits32(vstd::arithmetic::power::pow(self.d as int, (-i) as nat))
        }
    }

    /// Reduces the fraction to lowest terms with a positive denominator.
    pub fn simplify(self) -> (r: Fraction)
        requires
            self.simplify_ok(),
        ensures
            r == self.reduce_spec(),
    {
        self.reduce()
    }

    /// Total form of `self + n/d` (32-bit two's complement arithmetic).
    pub fn plus(self, n: i32, d: i32) -> (r: Fraction)
        ensures
            r == self.plus_spec(n, d),
    {
        if self.n == 0 || self.d == 0 {
            return Fraction { n, d };
        } else if n == 0 || d == 0 {
            return self;
        }
        let sum: i128 = wide_mul(self.n, d) + wide_mul(n, self.d);
        let den: i128 = wide_mul(self.d, d);
        let out_frac = Fraction { n: trunc32(sum), d: trunc32(den) };
        out_frac.reduce()
    }

    /// Total form of `self * n/d` (32-bit two's complement arithmetic).
    pub fn times(self, n: i32, d: i32) -> (r: Fraction)
        ensures
            r == self.times_spec(n, d),
    {
        let num: i128 = wide_mul(self.n, n);
        let den: i128 = wide_mul(self.d, d);
        let out_frac = Fraction { n: trunc32(num), d: trunc32(den) };
        out_frac.reduce()
    }

    /// Total form of `self ^ i` (32-bit two's complement arithmetic).
    pub fn power(self, i: i32) -> (r: Fraction)
        ensures
            r == self.pow_spec(i),
    {
        if i == 0 {
            Fraction { n: 1, d: 1 }
        } else if i > 0 {
            Fraction { n: pow_i32(self.n, i as u32), d: pow_i32(self.d, i as u32) }
        } else {
            let e: u32 = (-(i as i64)) as u32;
            Fraction { n: pow_i32(self.d, e), d: pow_i32(self.n, e) }
        }
    }

    /// Negates the numerator (32-bit two's complement).
    pub fn neg_i32(x: i32) -> (r: i32)
        ensures
            r == neg_wrap(x),
    {
        trunc32(-(x as i128))
    }

    /// Whether the fraction is the integer `i`: denominator 1 and numerator `i`.
    pub fn eq_int(&self, i: i32) -> (r: bool)
        ensures
            r == (self.d == 1 && self.n == i),
    {
        self.d == 1 && self.n == i
    }
}

/// Two fractions are equal when numerators and denominators are (2/4 differs from 1/2).
impl PartialEq for Fraction {
    fn eq(&self, other: &Fraction) -> (r: bool) {
        self.n == other.n && self.d == other.d
    }
}

impl PartialEqSpecImpl for Fraction {
    open spec fn obeys_eq_spec() -> bool {
        true
    }

    open spec fn eq_spec(&self, other: &Fraction) -> bool {
        self.n == other.n && self.d == other.d
    }
}

/// A fraction equals an integer when its denominator is 1 and its numerator the integer.
impl PartialEq<i32> for Fraction {
    fn eq(&self, other: &i32) -> (r: bool) {
        self.d == 1 && self.n == *other
    }
}

impl PartialEqSpecImpl<i32> for Fraction {
    open spec fn obeys_eq_spec() -> bool {
        true
    }

    open spec fn eq_spec(&self, other: &i32) -> bool {
        self.d == 1 && self.n == *other
    }
}

impl From<i32> for Fraction {
    fn from(n: i32) -> (r: Fraction) {
        Fraction { n, d: 1 }
    }
}

impl FromSpecImpl<i32> for Fraction {
    open spec fn obeys_from_spec() -> bool {
        true
    }

    open spec fn from_spec(n: i32) -> Fraction {
        Fraction { n, d: 1 }
    }
}

impl From<(i32, i32)> for Fraction {
    fn from(t: (i32, i32)) -> (r: Fraction) {
        Fraction { n: t.0, d: t.1 }
    }
}

impl FromSpecImpl<(i32, i32)> for Fraction {
    open spec fn obeys_from_spec() -> bool {
        true
    }

    open spec fn from_spec(t: (i32, i32)) -> Fraction {
        Fraction { n: t.0, d: t.1 }
    }
}

/// A fraction as the pair (numerator, denominator).
impl From<Fraction> for (i32, i32) {
    fn from(f: Fraction) -> (r: (i32, i32)) {
        (f.n, f.d)
    }
}

impl FromSpecImpl<Fraction> for (i32, i32) {
    open spec fn obeys_from_spec() -> bool {
        true
    }

    open spec fn from_spec(f: Fraction) -> (i32, i32) {
        (f.n, f.d)
    }
}

impl Add<(i32, i32)> for Fraction {
    type Output = Fraction;

    fn add(self, t: (i32, i32)) -> (r: Fraction) {
        self.plus(t.0, t.1)
    }
}

impl AddSpecImpl<(i32, i32)> for Fraction {
    open spec fn obeys_add_spec() -> bool {
        true
    }

    open spec fn add_req(self, t: (i32, i32)) -> bool {
        self.plus_ok(t.0, t.1)
    }

    open spec fn add_spec(self, t: (i32, i32)) -> Fraction {
        self.plus_spec(t.0, t.1)
    }
}

impl Add<Fraction> for Fraction {
    type Output = Fraction;

    fn add(self, frac: Fraction) -> (r: Fraction) {
        self.plus(frac.n, frac.d)
    }
}

impl AddSpecImpl<Fraction> for Fraction {
    open spec fn obeys_add_spec() -> bool {
        true
    }

    open spec fn add_req(self, frac: Fraction) -> bool {
        self.plus_ok(frac.n, frac.d)
    }

    open spec fn add_spec(self, frac: Fraction) -> Fraction {
        self.plus_spec(frac.n, frac.d)
    }
}

impl Add<i32> for Fraction {
    type Output = Fraction;

    fn add(self, i: i32) -> (r: Fraction) {
        self.plus(i, 1)
    }
}

impl AddSpecImpl<i32> for Fraction {
    open spec fn obeys_add_spec() -> bool {
        true
    }

    open spec fn add_req(self, i: i32) -> bool {
        self.plus_ok(i, 1)
    }

    open spec fn add_spec(self, i: i32) -> Fraction {
        self.plus_spec(i, 1)
    }
}

impl AddAssign for Fraction {
    fn add_assign(&mut self, other: Fraction) {
        *self = self.plus(other.n, other.d);
    }
}

impl Sub<(i32, i32)> for Fraction {
    type Output = Fraction;

    fn sub(self, t: (i32, i32)) -> (r: Fraction) {
        self.plus(Fraction::neg_i32(t.0), t.1)
    }
}

impl SubSpecImpl<(i32, i32)> for Fraction {
    open spec fn obeys_sub_spec() -> bool {
        true
    }

    open spec fn sub_req(self, t: (i32, i32)) -> bool {
        t.0 != i32::MIN && self.plus_ok(neg_wrap(t.0), t.1)
    }

    open spec fn sub_spec(self, t: (i32, i32)) -> Fraction {
        self.plus_spec(neg_wrap(t.0), t.1)
    }
}

impl Sub<Fraction> for Fraction {
    type Output = Fraction;

    fn sub(self, frac: Fraction) -> (r: Fraction) {
        self.plus(Fraction::neg_i32(frac.n), frac.d)
    }
}

impl SubSpecImpl<Fraction> for Fraction {
    open spec fn obeys_sub_spec() -> bool {
        true
    }

    open spec fn sub_req(self, frac: Fraction) -> bool {
        frac.n != i32::MIN && self.plus_ok(neg_wrap(frac.n), frac.d)
    }

    open spec fn sub_spec(self, frac: Fraction) -> Fraction {
        self.plus_spec(neg_wrap(frac.n), frac.d)
    }
}

impl Sub<i32> for Fraction {
    type Output = Fraction;

    fn sub(self, i: i32) -> (r: Fraction) {
        self.plus(Fraction::neg_i32(i), 1)
    }
}

impl SubSpecImpl<i32> for Fraction {
    open spec fn obeys_sub_spec() -> bool {
        true
    }

    open spec fn sub_req(self, i: i32) -> bool {
        i != i32::MIN && self.plus_ok(neg_wrap(i), 1)
    }

    open spec fn sub_spec(self, i: i32) -> Fraction {
        self.plus_spec(neg_wrap(i), 1)
    }
}

impl SubAssign for Fraction {
    fn sub_assign(&mut self, other: Fraction) {
        *self = self.plus(Fraction::neg_i32(other.n), other.d);
    }
}

impl Mul<(i32, i32)> for Fraction {
    type Output = Fraction;

    fn mul(self, t: (i32, i32)) -> (r: Fraction) {
        self.times(t.0, t.1)
    }
}

impl MulSpecImpl<(i32, i32)> for Fraction {
    open spec fn obeys_mul_spec() -> bool {
        true
    }

    open spec fn mul_req(self, t: (i32, i32)) -> bool {
        self.times_ok(t.0, t.1)
    }

    open spec fn mul_spec(self, t: (i32, i32)) -> Fraction {
        self.times_spec(t.0, t.1)
    }
}

impl Mul<Fraction> for Fraction {
    type Output = Fraction;

    fn mul(self, frac: Fraction) -> (r: Fraction) {
        self.times(frac.n, frac.d)
    }
}

impl MulSpecImpl<Fraction> for Fraction {
    open spec fn obeys_mul_spec() -> bool {
        true
    }

    open spec fn mul_req(self, frac: Fraction) -> bool {
        self.times_ok(frac.n, frac.d)
    }

    open spec fn mul_spec(self, frac: Fraction) -> Fraction {
        self.times_spec(frac.n, frac.d)
    }
}

impl Mul<i32> for Fraction {
    type Output = Fraction;

    fn mul(self, i: i32) -> (r: Fraction) {
        self.times(i, 1)
    }
}

impl MulSpecImpl<i32> for Fraction {
    open spec fn obeys_mul_spec() -> bool {
        true
    }

    open spec fn mul_req(self, i: i32) -> bool {
        self.times_ok(i, 1)
    }

    open spec fn mul_spec(self, i: i32) -> Fraction {
        self.times_spec(i, 1)
    }
}

impl MulAssign for Fraction {
    fn mul_assign(&mut self, other: Fraction) {
        *self = self.times(other.n, other.d);
    }
}

impl Div<(i32, i32)> for Fraction {
    type Output = Fraction;

    fn div(self, t: (i32, i32)) -> (r: Fraction) {
        self.times(t.1, t.0)
    }
}

impl DivSpecImpl<(i32, i32)> for Fraction {
    open spec fn obeys_div_spec() -> bool {
        true
    }

    open spec fn div_req(self, t: (i32, i32)) -> bool {
        self.times_ok(t.1, t.0)
    }

    open spec fn div_spec(self, t: (i32, i32)) -> Fraction {
        self.times_spec(t.1, t.0)
    }
}

impl Div<Fraction> for Fraction {
    type Output = Fraction;

    fn div(self, frac: Fraction) -> (r: Fraction) {
        self.times(frac.d, frac.n)
    }
}

impl DivSpecImpl<Fraction> for Fraction {
    open spec fn obeys_div_spec() -> bool {
        true
    }

    open spec fn div_req(self, frac: Fraction) -> bool {
        self.times_ok(frac.d, frac.n)
    }

    open spec fn div_spec(self, frac: Fraction) -> Fraction {
        self.times_spec(frac.d, frac.n)
    }
}

impl Div<i32> for Fraction {
    type Output = Fraction;

    fn div(self, i: i32) -> (r: Fraction) {
        self.times(1, i)
    }
}

impl DivSpecImpl<i32> for Fraction {
    open spec fn obeys_div_spec() -> bool {
        true
    }

    open spec fn div_req(self, i: i32) -> bool {
        self.times_ok(1, i)
    }

    open spec fn div_spec(self, i: i32) -> Fraction {
        self.times_spec(1, i)
    }
}

impl DivAssign for Fraction {
    fn div_assign(&mut self, other: Fraction) {
        *self = self.times(other.d, other.n);
    }
}

/// Raises the fraction to an integer power; a negative power inverts it.
impl BitXor<i32> for Fraction {
    type Output = Fraction;

    fn bitxor(self, i: i32) -> (r: Fraction) {
        self.power(i)
    }
}

impl BitXorSpecImpl<i32> for Fraction {
    open spec fn obeys_bitxor_spec() -> bool {
        true
    }

    open spec fn bitxor_req(self, i: i32) -> bool {
        self.pow_ok(i)
    }

    open spec fn bitxor_spec(self, i: i32) -> Fraction {
        self.pow_spec(i)
    }
}

/// Multiplies by -1.
impl Neg for Fraction {
    type Output = Fraction;

    fn neg(self) -> (r: Fraction) {
        self.times(-1, 1)
    }
}

impl NegSpecImpl for Fraction {
    open spec fn obeys_neg_spec() -> bool {
        true
    }

    open spec fn neg_req(self) -> bool {
        self.times_ok(-1i32, 1)
    }

    open spec fn neg_spec(self) -> Fraction {
        self.times_spec(-1i32, 1)
    }
}

/// The reciprocal: numerator and denominator swapped.
impl Not for Fraction {
    type Output = Fraction;

    fn not(self) -> (r: Fraction) {
        Fraction { n: self.d, d: self.n }
    }
}

impl NotSpecImpl for Fraction {
    open spec fn obeys_not_spec() -> bool {
        true
    }

    open spec fn not_req(self) -> bool {
        true
    }

    open spec fn not_spec(self) -> Fraction {
        Fraction { n: self.d, d: self.n }
    }
}

impl Fraction {
    /// The numerators compared after cross-multiplying: `self * other.d` against
    /// `other * self.d`, each reduced.
    pub open spec fn compare_spec(self, other: Fraction) -> int {
        let left = self.times_spec(other.d, 1);
        let right = other.times_spec(self.d, 1);
        if left.n > right.n {
            1
        } else if left.n < right.n {
            -1
        } else {
            0
        }
    }

    /// Three-way comparison by cross-multiplication: 1, -1 or 0.
    pub fn compare(&self, other: &Fraction) -> (r: i32)
        ensures
            r == self.compare_spec(*other),
    {
        let left = self.times(other.d, 1);
        let right = other.times(self.d, 1);
        if left.n > right.n {
            1
        } else if left.n < right.n {
            -1
        } else {
            0
        }
    }

    /// Whether the fraction compares less than the integer `i`.
    pub fn lt_int(&self, i: i32) -> (r: bool)
        ensures
            r == (self.compare_spec(Fraction { n: i, d: 1 }) < 0),
    {
        self.compare(&Fraction { n: i, d: 1 }) < 0
    }

    /// Whether the fraction compares greater than the integer `i`.
    pub fn gt_int(&self, i: i32) -> (r: bool)
        ensures
            r == (self.compare_spec(Fraction { n: i, d: 1 }) > 0),
    {
        self.compare(&Fraction { n: i, d: 1 }) > 0
    }

    /// The ordering that a three-way comparison result stands for.
    pub open spec fn ordering_of(c: int) -> Option<Ordering> {
        if c > 0 {
            Some(Ordering::Greater)
        } else if c < 0 {
            Some(Ordering::Less)
        } else {
            Some(Ordering::Equal)
        }
    }
}

/// Comparison is antisymmetric: comparing the other way round gives the opposite result.
pub proof fn lemma_compare_antisymmetric(a: Fraction, b: Fraction)
    ensures
        a.compare_spec(b) == -b.compare_spec(a),
{
}

/// Multiplication is commutative.
pub proof fn lemma_times_commutative(a: Fraction, b: Fraction)
    ensures
        a.times_spec(b.n, b.d) == b.times_spec(a.n, a.d),
{
    assert(a.n * b.n == b.n * a.n) by (nonlinear_arith);
    assert(a.d * b.d == b.d * a.d) by (nonlinear_arith);
}

/// Addition of two nonzero, defined fractions is commutative.
pub proof fn lemma_plus_commutative(a: Fraction, b: Fraction)
    requires
        a.n != 0,
        a.d != 0,
        b.n != 0,
        b.d != 0,
    ensures
        a.plus_spec(b.n, b.d) == b.plus_spec(a.n, a.d),
{
    assert(a.n * b.d + b.n * a.d == b.n * a.d + a.n * b.d);
    assert(a.d * b.d == b.d * a.d) by (nonlinear_arith);
}

/// Fractions are ordered by cross-multiplication.
impl PartialOrd for Fraction {
    fn partial_cmp(&self, other: &Fraction) -> (r: Option<Ordering>) {
        let c = self.compare(other);
        if c > 0 {
            Some(Ordering::Greater)
        } else if c < 0 {
            Some(Ordering::Less)
        } else {
            Some(Ordering::Equal)
        }
    }
}

impl PartialOrdSpecImpl for Fraction {
    open spec fn obeys_partial_cmp_spec() -> bool {
        true
    }

    open spec fn partial_cmp_spec(&self, other: &Fraction) -> Option<Ordering> {
        Fraction::ordering_of(self.compare_spec(*other))
    }
}

/// A fraction compared with an integer `i`, read as `i/1`.
impl PartialOrd<i32> for Fraction {
    fn partial_cmp(&self, other: &i32) -> (r: Option<Ordering>) {
        let c = self.compare(&Fraction { n: *other, d: 1 });
        if c > 0 {
            Some(Ordering::Greater)
        } else if c < 0 {
            Some(Ordering::Less)
        } else {
            Some(Ordering::Equal)
        }
    }
}

impl PartialOrdSpecImpl<i32> for Fraction {
    open spec fn obeys_partial_cmp_spec() -> bool {
        true
    }

    open spec fn partial_cmp_spec(&self, other: &i32) -> Option<Ordering> {
        Fraction::ordering_of(self.compare_spec(Fraction { n: *other, d: 1 }))
    }
}

} // verus!
