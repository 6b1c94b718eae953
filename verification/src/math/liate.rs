use crate::basis::builders::{add_node_spec, log_node_spec, AddBasisNode, CosBasisNode, LogBasisNode, SinBasisNode};
use crate::basis::product::{mul_frac_spec, mul_int_spec, pow_node, pow_spec, BUDGET};
use crate::basis::structs::{lemma_models, models, Basis, BasisElement, BasisOperator, SpecBasis};
use crate::math::derivative::{minus2, minus2_exec, times2, times2_exec};
use crate::math::fraction::{wrap32, Fraction};
use crate::math::integral::{
    by_parts_node, by_parts_spec, integration_by_parts, is_x_power, log_rule_node, log_rule_spec,
    tabular_integration, tabular_spec,
};
use crate::math::limits::opt_view;
use vstd::prelude::*;

verus! {

broadcast use vstd::std_specs::vec::group_vec_axioms;

/// Integration with a logarithmic component (see `log_rule_spec`): the integral, or
/// none when the pattern does not fit.
pub fn logarithmic(operator: BasisOperator, u: &Basis, dv: &Basis) -> (r: Option<Basis>)
    requires
        u@.wf(),
        dv@.wf(),
        log_rule_spec(BUDGET as nat, operator, u@, dv@) is Some,
    ensures
        Some(opt_view(r)) == log_rule_spec(BUDGET as nat, operator, u@, dv@),
        r matches Some(x) ==> x@.wf(),
{
    match log_rule_node(BUDGET, operator, u, dv) {
        Some(o) => o,
        None => None,
    }
}

/// Integration with an inverse trigonometric component: no pattern is known, so none.
pub fn inv_trig(_operator: BasisOperator, u: &Basis, _dv: &Basis) -> (r: Option<Basis>)
    ensures
        r is None,
{
    None
}

/// Integration with a power component: for `u` a whole power xⁿ, tabular integration
/// (see `tabular_spec`) when `full_compute` is set or n < 4; for `u` an x leaf,
/// integration by parts (see `by_parts_spec`); otherwise none.
pub open spec fn algebraic_spec(u: SpecBasis, dv: SpecBasis, full_compute: bool) -> Option<SpecBasis> {
    match u {
        SpecBasis::Node(_, BasisOperator::Pow(p), _) => if p.d == 1 && (full_compute || p.n < 4) {
            tabular_spec(u, dv)
        } else {
            None
        },
        SpecBasis::Leaf(_, BasisElement::X) => by_parts_spec(BUDGET as nat, u, dv),
        _ => None,
    }
}

/// Integration with a power component (see `algebraic_spec`); `full_compute` allows
/// tabular integration of high powers.
pub fn algebraic(_operator: BasisOperator, u: &Basis, dv: &Basis, full_compute: bool) -> (r: Option<Basis>)
    requires
        u@.wf(),
        dv@.wf(),
        (u@ matches SpecBasis::Node(_, BasisOperator::Pow(p), _) && p.d == 1 && (full_compute || p.n < 4))
            ==> tabular_spec(u@, dv@) is Some,
        u@.is_x() ==> by_parts_spec(BUDGET as nat, u@, dv@) is Some,
    ensures
        opt_view(r) == algebraic_spec(u@, dv@, full_compute),
        r matches Some(x) ==> x@.wf(),
{
    match u {
        Basis::BasisNode(node) => match node.operator {
            BasisOperator::Pow(p) => {
                // any fractional exponent is not accepted; skip high powers unless asked
                if p.d == 1 && (full_compute || p.n < 4) {
                    return Some(tabular_integration(u, dv));
                }
                None
            },
            _ => None,
        },
        Basis::BasisLeaf(leaf) => match leaf.element {
            BasisElement::X => Some(integration_by_parts(u, dv)),
            _ => None,
        },
    }
}

/// Integration with an inverse-function component: for a product whose factor `u` is an
/// inverse function, integration by parts; otherwise none.
pub fn inverse(operator: BasisOperator, u: &Basis, dv: &Basis) -> (r: Option<Basis>)
    requires
        u@.wf(),
        dv@.wf(),
        operator == BasisOperator::Mult && u@.is_node(BasisOperator::Inv) ==> by_parts_spec(
            BUDGET as nat,
            u@,
            dv@,
        ) is Some,
    ensures
        opt_view(r) == (if operator == BasisOperator::Mult && u@.is_node(BasisOperator::Inv) {
            by_parts_spec(BUDGET as nat, u@, dv@)
        } else {
            None
        }),
        r matches Some(x) ==> x@.wf(),
{
    if operator.same(&BasisOperator::Mult) && u.is_node(BasisOperator::Inv) {
        // I(f-1(x)f(y)) = f-1(x)I(f(y)) - I(f-1'(x)I(f(y)))
        return by_parts_node(BUDGET, u, dv);
    }
    None
}

/// Whether `trig` reaches the inner operand of `u`: for a quotient, `dv` is not a power
/// of x nor x; and `u` is a node.
pub open spec fn trig_reads_inner(operator: BasisOperator, u: SpecBasis, dv: SpecBasis) -> bool {
    !(operator == BasisOperator::Div && (is_x_power(dv) || dv.is_x())) && u is Node
}

/// Integration of f(cos(g))·sin(g) or f(sin(g))·cos(g) for f a whole power or a log:
/// ±cos^(n+1)/(n+1), ±sin^(n+1)/(n+1) (without the division for n = -1) or
/// ±g·(log(g) - 1) (minus for a cosine inside); none for
/// other shapes and for a quotient by a power of x or by x.
pub open spec fn trig_spec(operator: BasisOperator, u: SpecBasis, dv: SpecBasis) -> Option<SpecBasis> {
    if !trig_reads_inner(operator, u, dv) {
        None
    } else {
        let inner = u->Node_2[0];
        if (inner.is_node(BasisOperator::Cos) && dv.is_node(BasisOperator::Sin)) || (inner.is_node(
            BasisOperator::Sin,
        ) && dv.is_node(BasisOperator::Cos)) {
            let sign: i32 = if inner.is_node(BasisOperator::Cos) {
                -1i32
            } else {
                1i32
            };
            match u->Node_1 {
                BasisOperator::Pow(p) => if p.d == 1 {
                    let e = wrap32(p.n + 1);
                    let raised = mul_int_spec(pow_spec(BUDGET as nat, e, 1, inner), sign);
                    if e == 0 {
                        Some(raised)
                    } else {
                        Some(mul_frac_spec(raised, Fraction { n: 1, d: e }))
                    }
                } else {
                    None
                },
                BasisOperator::Log => Some(
                    mul_int_spec(
                        times2(inner, minus2(log_node_spec(inner), SpecBasis::integer(1))),
                        sign,
                    ),
                ),
                _ => None,
            }
        } else {
            None
        }
    }
}

/// Integration with a trigonometric component (see `trig_spec`); `u` must have an
/// operand where it is read.
pub fn trig(operator: BasisOperator, u: &Basis, dv: &Basis) -> (r: Option<Basis>)
    requires
        u@.wf(),
        dv@.wf(),
        trig_reads_inner(operator, u@, dv@) ==> u@->Node_2.len() > 0,
    ensures
        opt_view(r) == trig_spec(operator, u@, dv@),
        r matches Some(x) ==> x@.wf(),
{
    // cosx/x^n | sinx/x^n
    if operator.same(&BasisOperator::Div) {
        let x_power = match dv {
            Basis::BasisNode(node) => {
                proof {
                    lemma_models(node.operands@);
                }
                match node.operator {
                    BasisOperator::Pow(_) => node.operands.len() > 0 && node.operands[0].is_x(),
                    _ => false,
                }
            },
            _ => false,
        };
        if x_power || dv.is_x() {
            return None;
        }
    }
    // f(cos)sin | f(sin)cos
    match u {
        Basis::BasisNode(node) => {
            proof {
                lemma_models(node.operands@);
                crate::basis::structs::lemma_operand_decreases(*u, 0);
            }
            let inner_base = &node.operands[0];
            if (inner_base.is_node(BasisOperator::Cos) && dv.is_node(BasisOperator::Sin)) || (
            inner_base.is_node(BasisOperator::Sin) && dv.is_node(BasisOperator::Cos)) {
                let sign: i32 = if inner_base.is_node(BasisOperator::Cos) {
                    -1
                } else {
                    1
                };
                match node.operator {
                    BasisOperator::Pow(p) => {
                        if p.d == 1 {
                            let e = crate::math::fraction::trunc32(p.n as i128 + 1);
                            let raised = pow_node(BUDGET, e, 1, inner_base).scale_int(sign);
                            if e == 0 {
                                return Some(raised);
                            }
                            return Some(raised.scale_frac(Fraction { n: 1, d: e }));
                        }
                    },
                    BasisOperator::Log => {
                        let l = LogBasisNode(inner_base);
                        let diff = minus2_exec(l, Basis::of_num(1));
                        return Some(times2_exec(inner_base.deep_clone(), diff).scale_int(sign));
                    },
                    _ => {},
                }
            }
            None
        },
        _ => None,
    }
}

/// Integration with an exponential component: e-factor `dv` times (cos x + sin x)/2 for
/// a cosine `u`, times (sin x - cos x)/2 for a sine; for `u` = x^(n-1) and `dv` =
/// e^(xⁿ), dv·coef(u)/n; otherwise none.
pub open spec fn exponential_spec(u: SpecBasis, dv: SpecBasis) -> Option<SpecBasis> {
    let cos_x = SpecBasis::node(BasisOperator::Cos, seq![SpecBasis::x()]);
    let sin_x = SpecBasis::node(BasisOperator::Sin, seq![SpecBasis::x()]);
    if u.is_node(BasisOperator::Cos) {
        Some(mul_frac_spec(times2(dv, add_node_spec(seq![cos_x, sin_x])), Fraction { n: 1, d: 2 }))
    } else if u.is_node(BasisOperator::Sin) {
        Some(mul_frac_spec(times2(dv, minus2(sin_x, cos_x)), Fraction { n: 1, d: 2 }))
    } else if dv.is_node(BasisOperator::E) && dv->Node_2.len() > 0 {
        let inner = dv->Node_2[0];
        match inner {
            SpecBasis::Node(_, BasisOperator::Pow(p), _) => if p.d == 1 && u.is_node(
                BasisOperator::Pow(Fraction { n: wrap32(p.n - 1), d: 1 }),
            ) {
                Some(mul_frac_spec(mul_frac_spec(dv, u.coef()), Fraction { n: 1, d: p.n }))
            } else {
                None
            },
            _ => None,
        }
    } else {
        None
    }
}

/// Integration with an exponential component (see `exponential_spec`).
pub fn exponential(_operator: BasisOperator, u: &Basis, dv: &Basis) -> (r: Option<Basis>)
    requires
        u@.wf(),
        dv@.wf(),
    ensures
        opt_view(r) == exponential_spec(u@, dv@),
        r matches Some(x) ==> x@.wf(),
{
    // dv is e
    if u.is_node(BasisOperator::Cos) {
        let s = AddBasisNode(two(CosBasisNode(&Basis::x()), SinBasisNode(&Basis::x())));
        return Some(times2_exec(dv.deep_clone(), s).scale_frac(Fraction { n: 1, d: 2 }));
    } else if u.is_node(BasisOperator::Sin) {
        let s = minus2_exec(SinBasisNode(&Basis::x()), CosBasisNode(&Basis::x()));
        return Some(times2_exec(dv.deep_clone(), s).scale_frac(Fraction { n: 1, d: 2 }));
    }
    match dv {
        Basis::BasisNode(node) => {
            proof {
                lemma_models(node.operands@);
            }
            if node.operator.same(&BasisOperator::E) && node.operands.len() > 0 {
                match &node.operands[0] {
                    Basis::BasisNode(inner) => match inner.operator {
                        BasisOperator::Pow(p) => {
                            // x^(n-1)e^(x^n)
                            if p.d == 1 && u.is_node(
                                BasisOperator::Pow(Fraction { n: crate::math::fraction::trunc32(p.n as i128 - 1), d: 1 }),
                            ) {
                                return Some(dv.scale_frac(u.coefficient()).scale_frac(Fraction { n: 1, d: p.n }));
                            }
                        },
                        _ => {},
                    },
                    _ => {},
                }
            }
            None
        },
        _ => None,
    }
}

/// A two-element list.
fn two(a: Basis, b: Basis) -> (r: Vec<Basis>)
    ensures
        models(r@) == seq![a@, b@],
{
    let mut v: Vec<Basis> = Vec::new();
    v.push(a);
    v.push(b);
    proof {
        lemma_models(v@);
        assert(models(v@) =~= seq![a@, b@]);
    }
    v
}

} // verus!
