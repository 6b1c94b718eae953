use crate::basis::builders::{
    add_node_spec, div_divides_by_zero, mult_divides_by_zero, AddBasisNode, DivBasisNode,
    MultBasisNode, PowBasisNode,
};
use crate::basis::product::{div_spec, mul_frac_spec, mul_int_spec, mult_spec, pow_spec, BUDGET};
use crate::basis::structs::{lemma_models, lemma_with_frac_wf, models, Basis, SpecBasis};
use crate::math::fraction::Fraction;
use crate::math::inverse::{inverse, inverse_spec};
use std::ops::{Add, BitXor, Div, Mul, Neg, Not, Sub};
use vstd::pervasive::arbitrary;
use vstd::prelude::*;
use vstd::std_specs::ops::{AddSpecImpl, BitXorSpecImpl, DivSpecImpl, MulSpecImpl, NegSpecImpl, NotSpecImpl, SubSpecImpl};

verus! {

broadcast use vstd::std_specs::vec::group_vec_axioms;

/// The sum of two bases (see `AddBasisNode`).
impl Add<Basis> for Basis {
    type Output = Basis;

    fn add(self, right: Basis) -> (r: Basis)
        ensures
            r@ == add_node_spec(seq![self@, right@]),
            r@.wf(),
    {
        let mut v: Vec<Basis> = Vec::new();
        v.push(self);
        v.push(right);
        proof {
            lemma_models(v@);
            assert(models(v@) =~= seq![self@, right@]);
        }
        AddBasisNode(v)
    }
}

impl AddSpecImpl<Basis> for Basis {
    open spec fn obeys_add_spec() -> bool {
        false
    }

    open spec fn add_req(self, right: Basis) -> bool {
        self@.wf() && right@.wf()
    }

    open spec fn add_spec(self, right: Basis) -> Basis {
        arbitrary()
    }
}

/// `a - b` as `a + (-b)`.
impl Sub<Basis> for Basis {
    type Output = Basis;

    fn sub(self, right: Basis) -> (r: Basis)
        ensures
            r@ == add_node_spec(seq![self@, right@.negate()]),
            r@.wf(),
    {
        let n = right.negated();
        proof {
            lemma_with_frac_wf(right@, right@.coef().times_spec(-1i32, 1));
        }
        let mut v: Vec<Basis> = Vec::new();
        v.push(self);
        v.push(n);
        proof {
            lemma_models(v@);
            assert(models(v@) =~= seq![self@, right@.negate()]);
        }
        AddBasisNode(v)
    }
}

impl SubSpecImpl<Basis> for Basis {
    open spec fn obeys_sub_spec() -> bool {
        false
    }

    open spec fn sub_req(self, right: Basis) -> bool {
        self@.wf() && right@.wf()
    }

    open spec fn sub_spec(self, right: Basis) -> Basis {
        arbitrary()
    }
}

/// The product of two bases (see `MultBasisNode`).
impl Mul<Basis> for Basis {
    type Output = Basis;

    fn mul(self, right: Basis) -> (r: Basis)
        ensures
            r@ == mult_spec(BUDGET as nat, seq![self@, right@]),
            r@.wf(),
    {
        let mut v: Vec<Basis> = Vec::new();
        v.push(self);
        v.push(right);
        proof {
            lemma_models(v@);
            assert(models(v@) =~= seq![self@, right@]);
        }
        MultBasisNode(v)
    }
}

impl MulSpecImpl<Basis> for Basis {
    open spec fn obeys_mul_spec() -> bool {
        false
    }

    open spec fn mul_req(self, right: Basis) -> bool {
        self@.wf() && right@.wf() && !mult_divides_by_zero(seq![self@, right@])
    }

    open spec fn mul_spec(self, right: Basis) -> Basis {
        arbitrary()
    }
}

/// An integer times a basis, as the basis times the integer.
impl Mul<Basis> for i32 {
    type Output = Basis;

    fn mul(self, right: Basis) -> (r: Basis)
        ensures
            r@ == mul_int_spec(right@, self),
            r@.wf(),
    {
        right.scale_int(self)
    }
}

impl MulSpecImpl<Basis> for i32 {
    open spec fn obeys_mul_spec() -> bool {
        false
    }

    open spec fn mul_req(self, right: Basis) -> bool {
        right@.wf()
    }

    open spec fn mul_spec(self, right: Basis) -> Basis {
        arbitrary()
    }
}

/// Scales the basis by an integer: a sum or difference term by term, anything else
/// through its coefficient.
impl Mul<i32> for Basis {
    type Output = Basis;

    fn mul(self, right: i32) -> (r: Basis)
        ensures
            r@ == mul_int_spec(self@, right),
            r@.wf(),
    {
        self.scale_int(right)
    }
}

impl MulSpecImpl<i32> for Basis {
    open spec fn obeys_mul_spec() -> bool {
        false
    }

    open spec fn mul_req(self, right: i32) -> bool {
        self@.wf()
    }

    open spec fn mul_spec(self, right: i32) -> Basis {
        arbitrary()
    }
}

/// Scales the basis by the fraction `(n, d)`.
impl Mul<(i32, i32)> for Basis {
    type Output = Basis;

    fn mul(self, right: (i32, i32)) -> (r: Basis)
        ensures
            r@ == mul_frac_spec(self@, Fraction { n: right.0, d: right.1 }),
            r@.wf(),
    {
        self.scale_frac(Fraction { n: right.0, d: right.1 })
    }
}

impl MulSpecImpl<(i32, i32)> for Basis {
    open spec fn obeys_mul_spec() -> bool {
        false
    }

    open spec fn mul_req(self, right: (i32, i32)) -> bool {
        self@.wf()
    }

    open spec fn mul_spec(self, right: (i32, i32)) -> Basis {
        arbitrary()
    }
}

/// Scales the basis by a fraction.
impl Mul<Fraction> for Basis {
    type Output = Basis;

    fn mul(self, right: Fraction) -> (r: Basis)
        ensures
            r@ == mul_frac_spec(self@, right),
            r@.wf(),
    {
        self.scale_frac(right)
    }
}

impl MulSpecImpl<Fraction> for Basis {
    open spec fn obeys_mul_spec() -> bool {
        false
    }

    open spec fn mul_req(self, right: Fraction) -> bool {
        self@.wf()
    }

    open spec fn mul_spec(self, right: Fraction) -> Basis {
        arbitrary()
    }
}

/// The quotient of two bases (see `DivBasisNode`).
impl Div<Basis> for Basis {
    type Output = Basis;

    fn div(self, right: Basis) -> (r: Basis)
        ensures
            r@ == div_spec(BUDGET as nat, self@, right@),
            r@.wf(),
    {
        DivBasisNode(&self, &right)
    }
}

impl DivSpecImpl<Basis> for Basis {
    open spec fn obeys_div_spec() -> bool {
        false
    }

    open spec fn div_req(self, right: Basis) -> bool {
        self@.wf() && right@.wf() && !div_divides_by_zero(self@, right@)
    }

    open spec fn div_spec(self, right: Basis) -> Basis {
        arbitrary()
    }
}

/// Divides the coefficient by an integer.
impl Div<i32> for Basis {
    type Output = Basis;

    fn div(self, right: i32) -> (r: Basis)
        ensures
            r@ == mul_frac_spec(self@, Fraction { n: 1, d: right }),
            r@.wf(),
    {
        self.scale_frac(Fraction { n: 1, d: right })
    }
}

impl DivSpecImpl<i32> for Basis {
    open spec fn obeys_div_spec() -> bool {
        false
    }

    open spec fn div_req(self, right: i32) -> bool {
        self@.wf()
    }

    open spec fn div_spec(self, right: i32) -> Basis {
        arbitrary()
    }
}

/// Divides the coefficient by the fraction `(n, d)`.
impl Div<(i32, i32)> for Basis {
    type Output = Basis;

    fn div(self, right: (i32, i32)) -> (r: Basis)
        ensures
            r@ == mul_frac_spec(self@, Fraction { n: right.1, d: right.0 }),
            r@.wf(),
    {
        self.scale_frac(Fraction { n: right.1, d: right.0 })
    }
}

impl DivSpecImpl<(i32, i32)> for Basis {
    open spec fn obeys_div_spec() -> bool {
        false
    }

    open spec fn div_req(self, right: (i32, i32)) -> bool {
        self@.wf()
    }

    open spec fn div_spec(self, right: (i32, i32)) -> Basis {
        arbitrary()
    }
}

/// Divides the coefficient by a fraction.
impl Div<Fraction> for Basis {
    type Output = Basis;

    fn div(self, right: Fraction) -> (r: Basis)
        ensures
            r@ == mul_frac_spec(self@, Fraction { n: right.d, d: right.n }),
            r@.wf(),
    {
        self.scale_frac(Fraction { n: right.d, d: right.n })
    }
}

impl DivSpecImpl<Fraction> for Basis {
    open spec fn obeys_div_spec() -> bool {
        false
    }

    open spec fn div_req(self, right: Fraction) -> bool {
        self@.wf()
    }

    open spec fn div_spec(self, right: Fraction) -> Basis {
        arbitrary()
    }
}

/// Raises the basis to an integer power (see `PowBasisNode`).
impl BitXor<i32> for Basis {
    type Output = Basis;

    fn bitxor(self, right: i32) -> (r: Basis)
        ensures
            r@ == pow_spec(BUDGET as nat, right, 1, self@),
            r@.wf(),
    {
        PowBasisNode(right, 1, &self)
    }
}

impl BitXorSpecImpl<i32> for Basis {
    open spec fn obeys_bitxor_spec() -> bool {
        false
    }

    open spec fn bitxor_req(self, right: i32) -> bool {
        self@.wf() && right != i32::MIN
    }

    open spec fn bitxor_spec(self, right: i32) -> Basis {
        arbitrary()
    }
}

/// Raises the basis to the rational power `(n, d)`.
impl BitXor<(i32, i32)> for Basis {
    type Output = Basis;

    fn bitxor(self, right: (i32, i32)) -> (r: Basis)
        ensures
            r@ == pow_spec(BUDGET as nat, right.0, right.1, self@),
            r@.wf(),
    {
        PowBasisNode(right.0, right.1, &self)
    }
}

impl BitXorSpecImpl<(i32, i32)> for Basis {
    open spec fn obeys_bitxor_spec() -> bool {
        false
    }

    open spec fn bitxor_req(self, right: (i32, i32)) -> bool {
        self@.wf() && (Fraction { n: right.0, d: right.1 }).simplify_ok()
    }

    open spec fn bitxor_spec(self, right: (i32, i32)) -> Basis {
        arbitrary()
    }
}

/// Raises the basis to a fractional power.
impl BitXor<Fraction> for Basis {
    type Output = Basis;

    fn bitxor(self, right: Fraction) -> (r: Basis)
        ensures
            r@ == pow_spec(BUDGET as nat, right.n, right.d, self@),
            r@.wf(),
    {
        PowBasisNode(right.n, right.d, &self)
    }
}

impl BitXorSpecImpl<Fraction> for Basis {
    open spec fn obeys_bitxor_spec() -> bool {
        false
    }

    open spec fn bitxor_req(self, right: Fraction) -> bool {
        self@.wf() && right.simplify_ok()
    }

    open spec fn bitxor_spec(self, right: Fraction) -> Basis {
        arbitrary()
    }
}

/// Multiplies by -1.
impl Neg for Basis {
    type Output = Basis;

    fn neg(self) -> (r: Basis)
        ensures
            r@ == self@.negate(),
            self@.wf() ==> r@.wf(),
    {
        proof {
            if self@.wf() {
                lemma_with_frac_wf(self@, self@.coef().times_spec(-1i32, 1));
            }
        }
        self.negated()
    }
}

impl NegSpecImpl for Basis {
    open spec fn obeys_neg_spec() -> bool {
        false
    }

    open spec fn neg_req(self) -> bool {
        true
    }

    open spec fn neg_spec(self) -> Basis {
        arbitrary()
    }
}

/// The inverse function (see `inverse`).
impl Not for Basis {
    type Output = Basis;

    fn not(self) -> (r: Basis)
        ensures
            r@ == inverse_spec(BUDGET as nat, self@),
            r@.wf(),
    {
        inverse(&self)
    }
}

impl NotSpecImpl for Basis {
    open spec fn obeys_not_spec() -> bool {
        false
    }

    open spec fn not_req(self) -> bool {
        self@.wf()
    }

    open spec fn not_spec(self) -> Basis {
        arbitrary()
    }
}

} // verus!
