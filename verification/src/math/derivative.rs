use crate::basis::builders::{add_node_spec, minus_node_spec, AddBasisNode, MinusBasisNode};
use crate::basis::product::{
    div_node, div_spec, mul_frac_spec, mul_int_spec, mult_node, mult_spec, pow_node, pow_spec,
    BUDGET,
};
use crate::basis::structs::{
    all_wf, lemma_models, lemma_models_push, lemma_operand_decreases, lemma_with_frac_wf, models,
    Basis, BasisElement, BasisOperator, SpecBasis,
};
use crate::math::fraction::Fraction;
use crate::math::inverse::{inverse, inverse_spec};
use crate::math::util::{compose_spec, function_composition};
use vstd::prelude::*;

verus! {

broadcast use vstd::std_specs::vec::group_vec_axioms;

/// The product of two trees.
pub open spec fn times2(a: SpecBasis, b: SpecBasis) -> SpecBasis {
    mult_spec(BUDGET as nat, seq![a, b])
}

/// `a - b`, as `a + (-b)`.
pub open spec fn minus2(a: SpecBasis, b: SpecBasis) -> SpecBasis {
    add_node_spec(seq![a, b.negate()])
}

/// Product rule: u·v' + v·u'.
pub open spec fn product_rule(u: SpecBasis, v: SpecBasis, du: SpecBasis, dv: SpecBasis) -> SpecBasis {
    add_node_spec(seq![times2(u, dv), times2(v, du)])
}

/// Quotient rule for c·u/v: (v·u'·n - u·v'·n) / (v·v·d), with c = n/d.
pub open spec fn quotient_rule(u: SpecBasis, v: SpecBasis, du: SpecBasis, dv: SpecBasis, c: Fraction) -> SpecBasis {
    div_spec(
        BUDGET as nat,
        minus2(mul_int_spec(times2(v, du), c.n), mul_int_spec(times2(u, dv), c.n)),
        mul_int_spec(times2(v, v), c.d),
    )
}

/// Power rule for c·g^p: g'·g^(p-1)·p·c.
pub open spec fn power_rule(g: SpecBasis, dg: SpecBasis, p: Fraction, c: Fraction) -> SpecBasis {
    let m = p.plus_spec(-1i32, 1);
    mul_frac_spec(mul_frac_spec(times2(dg, pow_spec(BUDGET as nat, m.n, m.d, g)), p), c)
}

/// The denominator √(1 - g²)·d of the derivatives of arccos and arcsin.
pub open spec fn arc_denominator(g: SpecBasis, d: i32) -> SpecBasis {
    mul_int_spec(
        pow_spec(
            BUDGET as nat,
            1,
            2,
            minus2(SpecBasis::integer(1), pow_spec(BUDGET as nat, 2, 1, g)),
        ),
        d,
    )
}

/// The derivative of a tree with budget `f` for the product rule (whose second factor is
/// built anew), or none when the derivative is not defined: a product without
/// operands. Sums and differences go term by term; products (times their coefficient),
/// quotients, powers, e, log, cos and sin by the usual rules; arccos(g) and arcsin(g)
/// give ∓g'/√(1-g²); an inverse function the
/// inverse of the derivative of its argument composed with the argument; an integral
/// its integrand.
pub open spec fn derivative_spec(f: nat, b: SpecBasis) -> Option<SpecBasis>
    decreases f, b, 1nat,
{
    match b {
        SpecBasis::Leaf(c, e) => match e {
            BasisElement::X => Some(SpecBasis::num(c)),
            BasisElement::Num => Some(SpecBasis::integer(0)),
            BasisElement::Inf => Some(b),
        },
        SpecBasis::Node(c, op, ops) => match op {
            BasisOperator::Add => match deriv_all(f, ops) {
                Some(ds) => Some(add_node_spec(ds)),
                None => None,
            },
            BasisOperator::Minus => match deriv_all(f, ops) {
                Some(ds) => Some(minus_node_spec(ds)),
                None => None,
            },
            _ => if ops.len() == 0 {
                None
            } else if op == BasisOperator::Int {
                Some(mul_frac_spec(ops[0], c))
            } else {
                match derivative_spec(f, ops[0]) {
                    None => None,
                    Some(d0) => {
                        let g = ops[0];
                        if op == BasisOperator::Mult {
                            if f == 0 {
                                None
                            } else {
                                let v = mult_spec(BUDGET as nat, ops.skip(1));
                                match derivative_spec((f - 1) as nat, v) {
                                    Some(dv) => Some(mul_frac_spec(product_rule(g, v, d0, dv), c)),
                                    None => None,
                                }
                            }
                        } else if op == BasisOperator::Div {
                            if ops.len() < 2 {
                                None
                            } else {
                                match derivative_spec(f, ops[1]) {
                                    Some(dv) => Some(quotient_rule(g, ops[1], d0, dv, c)),
                                    None => None,
                                }
                            }
                        } else {
                            Some(chain_rule(op, g, d0, c))
                        }
                    },
                }
            },
        },
    }
}

/// The derivative of c·op(g) for a one-operand function `op`, given g' = `dg`: powers,
/// e, log, cos and sin by the usual rules; arccos(g) and arcsin(g) give ∓g'/√(1-g²); an
/// inverse function the
/// inverse of the derivative of its argument composed with the argument; an integral
/// its integrand.
pub open spec fn chain_rule(op: BasisOperator, g: SpecBasis, dg: SpecBasis, c: Fraction) -> SpecBasis {
    match op {
        BasisOperator::Pow(p) => power_rule(g, dg, p, c),
        BasisOperator::E => mul_frac_spec(times2(dg, SpecBasis::node(BasisOperator::E, seq![g])), c),
        BasisOperator::Log => div_spec(BUDGET as nat, mul_int_spec(dg, c.n), mul_int_spec(g, c.d)),
        BasisOperator::Cos => mul_frac_spec(
            times2(dg, SpecBasis::node(BasisOperator::Sin, seq![g]).negate()),
            c,
        ),
        BasisOperator::Sin => mul_frac_spec(times2(dg, SpecBasis::node(BasisOperator::Cos, seq![g])), c),
        BasisOperator::Acos => div_spec(BUDGET as nat, mul_int_spec(dg.negate(), c.n), arc_denominator(g, c.d)),
        BasisOperator::Asin => div_spec(BUDGET as nat, mul_int_spec(dg, c.n), arc_denominator(g, c.d)),
        BasisOperator::Inv => mul_int_spec(
            mul_frac_spec(compose_spec(inverse_spec(BUDGET as nat, dg), g), Fraction { n: 1, d: c.d }),
            c.n,
        ),
        _ => mul_frac_spec(g, c),
    }
}

/// The derivatives of the trees of `s`, if each is defined.
pub open spec fn deriv_all(f: nat, s: Seq<SpecBasis>) -> Option<Seq<SpecBasis>>
    decreases f, s, 0nat,
{
    if s.len() == 0 {
        Some(Seq::empty())
    } else {
        match (deriv_all(f, s.drop_last()), derivative_spec(f, s.last())) {
            (Some(ds), Some(d)) => Some(ds.push(d)),
            _ => None,
        }
    }
}

/// The product of two bases (see `times2`).
pub(crate) fn times2_exec(a: Basis, b: Basis) -> (r: Basis)
    requires
        a@.wf(),
        b@.wf(),
    ensures
        r@ == times2(a@, b@),
        r@.wf(),
{
    let mut v: Vec<Basis> = Vec::new();
    v.push(a);
    v.push(b);
    proof {
        lemma_models(v@);
        assert(models(v@) =~= seq![a@, b@]);
    }
    mult_node(BUDGET, &v)
}

/// `a - b` (see `minus2`).
pub(crate) fn minus2_exec(a: Basis, b: Basis) -> (r: Basis)
    requires
        a@.wf(),
        b@.wf(),
    ensures
        r@ == minus2(a@, b@),
        r@.wf(),
{
    let nb = b.negated();
    proof {
        lemma_with_frac_wf(b@, b@.coef().times_spec(-1i32, 1));
    }
    let mut v: Vec<Basis> = Vec::new();
    v.push(a);
    v.push(nb);
    proof {
        lemma_models(v@);
        assert(models(v@) =~= seq![a@, nb@]);
    }
    AddBasisNode(v)
}

/// Product rule (see `product_rule`).
#[verifier::spinoff_prover]
fn product_rule_exec(u: &Basis, v: &Basis, du: Basis, dv: Basis) -> (r: Basis)
    requires
        u@.wf(),
        v@.wf(),
        du@.wf(),
        dv@.wf(),
    ensures
        r@ == product_rule(u@, v@, du@, dv@),
        r@.wf(),
{
    let a = times2_exec(u.deep_clone(), dv);
    let b = times2_exec(v.deep_clone(), du);
    let ghost sa = a@;
    let ghost sb = b@;
    let mut w: Vec<Basis> = Vec::new();
    w.push(a);
    w.push(b);
    proof {
        lemma_models(w@);
        assert(models(w@) =~= seq![sa, sb]);
    }
    let r = AddBasisNode(w);
    assert(r@ == add_node_spec(seq![sa, sb]));
    r
}

/// Quotient rule (see `quotient_rule`).
fn quotient_rule_exec(u: &Basis, v: &Basis, du: Basis, dv: Basis, c: Fraction) -> (r: Basis)
    requires
        u@.wf(),
        v@.wf(),
        du@.wf(),
        dv@.wf(),
    ensures
        r@ == quotient_rule(u@, v@, du@, dv@, c),
        r@.wf(),
{
    let left = times2_exec(v.deep_clone(), du).scale_int(c.n);
    let right = times2_exec(u.deep_clone(), dv).scale_int(c.n);
    let top = minus2_exec(left, right);
    let bottom = times2_exec(v.deep_clone(), v.deep_clone()).scale_int(c.d);
    div_node(BUDGET, &top, &bottom)
}

/// Power rule (see `power_rule`).
fn power_rule_exec(g: &Basis, dg: Basis, p: Fraction, c: Fraction) -> (r: Basis)
    requires
        g@.wf(),
        dg@.wf(),
    ensures
        r@ == power_rule(g@, dg@, p, c),
        r@.wf(),
{
    let m = p.plus(-1, 1);
    let raised = pow_node(BUDGET, m.n, m.d, g);
    times2_exec(dg, raised).scale_frac(p).scale_frac(c)
}

/// The denominator of the derivatives of arccos and arcsin (see `arc_denominator`).
fn arc_denominator_exec(g: &Basis, d: i32) -> (r: Basis)
    requires
        g@.wf(),
    ensures
        r@ == arc_denominator(g@, d),
        r@.wf(),
{
    let sq = pow_node(BUDGET, 2, 1, g);
    let diff = minus2_exec(Basis::of_num(1), sq);
    pow_node(BUDGET, 1, 2, &diff).scale_int(d)
}

/// A node of the one-operand function `op` applied to a copy of `g`.
fn apply1(op: BasisOperator, g: &Basis) -> (r: Basis)
    requires
        g@.wf(),
        !(op is Div),
    ensures
        r@ == SpecBasis::node(op, seq![g@]),
        r@.wf(),
{
    let r = Basis::unary(op, g.deep_clone());
    proof {
        assert(seq![g@][0].wf());
    }
    r
}

/// The derivative of a basis with budget `f` (see `derivative_spec`).
pub(crate) fn derivative_node(f: u32, basis: &Basis) -> (r: Option<Basis>)
    requires
        basis@.wf(),
    ensures
        match derivative_spec(f as nat, basis@) {
            Some(d) => r matches Some(x) && x@ == d && d.wf(),
            None => r is None,
        },
    decreases f, basis@, 1nat,
{
    match basis {
        Basis::BasisLeaf(leaf) => match leaf.element {
            BasisElement::X => Some(Basis::of_frac(leaf.coefficient)),
            BasisElement::Num => Some(Basis::of_num(0)),
            BasisElement::Inf => Some(basis.deep_clone()),
        },
        Basis::BasisNode(node) => {
            let ops = &node.operands;
            let c = node.coefficient;
            proof {
                lemma_models(ops@);
            }
            if node.operator.same(&BasisOperator::Add) || node.operator.same(&BasisOperator::Minus) {
                return match derive_terms(f, basis) {
                    Some(ds) => {
                        proof {
                            assert(basis@ == SpecBasis::Node(c, node.operator, models(ops@)));
                        }
                        if node.operator.same(&BasisOperator::Add) {
                            Some(AddBasisNode(ds))
                        } else {
                            Some(MinusBasisNode(ds))
                        }
                    },
                    None => None,
                };
            }
            if ops.len() == 0 {
                return None;
            }
            proof {
                lemma_operand_decreases(*basis, 0);
            }
            let g = &ops[0];
            if node.operator.same(&BasisOperator::Int) {
                // an integral's derivative is its integrand
                return Some(g.scale_frac(c));
            }
            let d0 = match derivative_node(f, g) {
                Some(d) => d,
                None => {
                    return None;
                },
            };
            if node.operator.same(&BasisOperator::Mult) {
                if f == 0 {
                    return None;
                }
                let v = mult_rest(basis);
                // product rule, udv + vdu
                return match derivative_node(f - 1, &v) {
                    Some(dv) => Some(product_rule_exec(g, &v, d0, dv).scale_frac(c)),
                    None => None,
                };
            }
            if node.operator.same(&BasisOperator::Div) {
                proof {
                    assert(models(ops@).len() >= 2);
                    lemma_operand_decreases(*basis, 1);
                }
                let v = &ops[1];
                // quotient rule, (vdu - udv) / uu
                return match derivative_node(f, v) {
                    Some(dv) => Some(quotient_rule_exec(g, v, d0, dv, c)),
                    None => None,
                };
            }
            Some(chain_rule_exec(node.operator, g, d0, c))
        },
    }
}

/// The derivatives of the operands of a node (see `deriv_all`).
fn derive_terms(f: u32, basis: &Basis) -> (r: Option<Vec<Basis>>)
    requires
        basis@.wf(),
        basis@ is Node,
    ensures
        match deriv_all(f as nat, basis@->Node_2) {
            Some(ds) => r matches Some(v) && models(v@) == ds && all_wf(ds),
            None => r is None,
        },
    decreases f, basis@, 0nat,
{
    match basis {
        Basis::BasisNode(node) => {
            let ops = &node.operands;
            let ghost s = models(ops@);
            proof {
                lemma_models(ops@);
            }
            let mut ds: Vec<Basis> = Vec::new();
            let mut i: usize = 0;
            proof {
                lemma_models(ds@);
                assert(s.take(0) =~= Seq::<SpecBasis>::empty());
            }
            while i < ops.len()
                invariant
                    *basis == Basis::BasisNode(*node),
                    ops == &node.operands,
                    basis@.wf(),
                    s == models(ops@),
                    s.len() == ops@.len(),
                    forall|t: int| 0 <= t < ops@.len() ==> #[trigger] s[t] == ops@[t]@,
                    i <= ops.len(),
                    deriv_all(f as nat, s.take(i as int)) == Some(models(ds@)),
                    all_wf(models(ds@)),
                decreases ops.len() - i,
            {
                proof {
                    lemma_operand_decreases(*basis, i as int);
                    assert(s.take(i + 1).drop_last() =~= s.take(i as int));
                    assert(s.take(i + 1).last() == s[i as int]);
                }
                match derivative_node(f, &ops[i]) {
                    Some(d) => {
                        proof {
                            lemma_models_push(ds@, d);
                            lemma_models(ds@.push(d));
                            lemma_models(ds@);
                        }
                        ds.push(d);
                    },
                    None => {
                        proof {
                            lemma_deriv_all_none(f as nat, s, i + 1);
                        }
                        return None;
                    },
                }
                i += 1;
            }
            proof {
                assert(s.take(ops.len() as int) =~= s);
            }
            Some(ds)
        },
        _ => None,
    }
}

/// The product of the operands of a product after the first.
fn mult_rest(basis: &Basis) -> (r: Basis)
    requires
        basis@.wf(),
        basis@.is_node(BasisOperator::Mult),
        basis@->Node_2.len() > 0,
    ensures
        r@ == mult_spec(BUDGET as nat, basis@->Node_2.skip(1)),
        r@.wf(),
{
    match basis {
        Basis::BasisNode(node) => {
            let ops = &node.operands;
            let ghost s = models(ops@);
            proof {
                lemma_models(ops@);
            }
            let mut rest: Vec<Basis> = Vec::new();
            let mut j: usize = 1;
            proof {
                lemma_models(rest@);
                assert(s.subrange(1, 1) =~= Seq::<SpecBasis>::empty());
            }
            while j < ops.len()
                invariant
                    *basis == Basis::BasisNode(*node),
                    ops == &node.operands,
                    basis@.wf(),
                    s == models(ops@),
                    s.len() == ops@.len(),
                    forall|t: int| 0 <= t < ops@.len() ==> #[trigger] s[t] == ops@[t]@,
                    1 <= j <= ops.len(),
                    models(rest@) == s.subrange(1, j as int),
                    all_wf(models(rest@)),
                decreases ops.len() - j,
            {
                proof {
                    lemma_operand_decreases(*basis, j as int);
                }
                let t = ops[j].deep_clone();
                proof {
                    lemma_models_push(rest@, t);
                    lemma_models(rest@.push(t));
                    lemma_models(rest@);
                    assert(s.subrange(1, j + 1) =~= s.subrange(1, j as int).push(t@));
                }
                rest.push(t);
                j += 1;
            }
            proof {
                assert(s.subrange(1, ops.len() as int) =~= s.skip(1));
            }
            mult_node(BUDGET, &rest)
        },
        _ => Basis::of_num(0),
    }
}

/// The derivative of c·op(g) (see `chain_rule`).
fn chain_rule_exec(op: BasisOperator, g: &Basis, d0: Basis, c: Fraction) -> (r: Basis)
    requires
        g@.wf(),
        d0@.wf(),
    ensures
        r@ == chain_rule(op, g@, d0@, c),
        r@.wf(),
{
    match op {
        // power rule, n * x^(n-1)
        BasisOperator::Pow(p) => power_rule_exec(g, d0, p, c),
        // chain rule, f'(e^f(y)) = f'(y)e^f(y)
        BasisOperator::E => times2_exec(d0, apply1(BasisOperator::E, g)).scale_frac(c),
        // log rule, du/u
        BasisOperator::Log => {
            let top = d0.scale_int(c.n);
            let bottom = g.scale_int(c.d);
            div_node(BUDGET, &top, &bottom)
        },
        // chain rule, f'(cos(f(y))) = -f'(y)sin(f(y))
        BasisOperator::Cos => {
            let s = apply1(BasisOperator::Sin, g);
            let ns = s.negated();
            proof {
                lemma_with_frac_wf(s@, s@.coef().times_spec(-1i32, 1));
            }
            times2_exec(d0, ns).scale_frac(c)
        },
        // chain rule, f'(sin(f(y))) = f'(y)cos(f(y))
        BasisOperator::Sin => times2_exec(d0, apply1(BasisOperator::Cos, g)).scale_frac(c),
        // d/dx arccos(f(x)) = -f'(x)/sqrt(1-f(x)^2)
        BasisOperator::Acos => {
            let ng = d0.negated();
            proof {
                lemma_with_frac_wf(d0@, d0@.coef().times_spec(-1i32, 1));
            }
            let top = ng.scale_int(c.n);
            let bottom = arc_denominator_exec(g, c.d);
            div_node(BUDGET, &top, &bottom)
        },
        // d/dx arcsin(f(x)) = f'(x)/sqrt(1-f(x)^2)
        BasisOperator::Asin => {
            let top = d0.scale_int(c.n);
            let bottom = arc_denominator_exec(g, c.d);
            div_node(BUDGET, &top, &bottom)
        },
        // inverse rule, d(f-1(x)) = 1/f-1(f')(f-1(x))
        BasisOperator::Inv => {
            let inverse_derivative = inverse(&d0);
            let composed = function_composition(&inverse_derivative, g);
            composed.scale_frac(Fraction { n: 1, d: c.d }).scale_int(c.n)
        },
        _ => g.scale_frac(c),
    }
}

/// Once `deriv_all` fails on a prefix, it fails on every longer prefix.
proof fn lemma_deriv_all_none(f: nat, s: Seq<SpecBasis>, k: int)
    requires
        0 <= k <= s.len(),
        deriv_all(f, s.take(k)) is None,
    ensures
        deriv_all(f, s) is None,
    decreases s.len() - k,
{
    if k < s.len() {
        assert(s.take(k + 1).drop_last() =~= s.take(k));
        lemma_deriv_all_none(f, s, k + 1);
    } else {
        assert(s.take(k) =~= s);
    }
}

/// The derivative of `basis` (see `derivative_spec`); defined unless the basis holds a
/// product without operands.
pub fn derivative(basis: &Basis) -> (r: Basis)
    requires
        basis@.wf(),
        derivative_spec(BUDGET as nat, basis@) is Some,
    ensures
        Some(r@) == derivative_spec(BUDGET as nat, basis@),
        r@.wf(),
{
    match derivative_node(BUDGET, basis) {
        Some(d) => d,
        None => Basis::of_num(0),
    }
}


/// The derivative is linear in the coefficient of e, cos, sin and integral nodes: there
/// is one tree t (returned), the derivative of op(g) before it is scaled, such that for
/// every coefficient c the derivative of c·op(g) is t times c.
pub proof fn lemma_derivative_linear_in_coefficient(f: nat, op: BasisOperator, g: SpecBasis) -> (t: SpecBasis)
    requires
        op == BasisOperator::E || op == BasisOperator::Cos || op == BasisOperator::Sin || op
            == BasisOperator::Int,
        op != BasisOperator::Int ==> derivative_spec(f, g) is Some,
    ensures
        forall|c: Fraction|
            #[trigger] derivative_spec(f, SpecBasis::Node(c, op, seq![g])) == Some(mul_frac_spec(t, c)),
{
    let t = if op == BasisOperator::Int {
        g
    } else {
        let dg = derivative_spec(f, g)->0;
        if op == BasisOperator::E {
            times2(dg, SpecBasis::node(BasisOperator::E, seq![g]))
        } else if op == BasisOperator::Cos {
            times2(dg, SpecBasis::node(BasisOperator::Sin, seq![g]).negate())
        } else {
            times2(dg, SpecBasis::node(BasisOperator::Cos, seq![g]))
        }
    };
    assert forall|c: Fraction| #[trigger] derivative_spec(f, SpecBasis::Node(c, op, seq![g])) == Some(
        mul_frac_spec(t, c),
    ) by {
        assert(seq![g][0] == g);
        assert(seq![g].len() == 1);
    }
    t
}

/// The derivative of a product is linear in its coefficient: there is one tree t
/// (returned) such that for every coefficient c the derivative of c·(f1·f2·…) is t
/// times c.
pub proof fn lemma_derivative_of_product_linear(f: nat, ops: Seq<SpecBasis>) -> (t: SpecBasis)
    requires
        derivative_spec(f, SpecBasis::node(BasisOperator::Mult, ops)) is Some,
    ensures
        forall|c: Fraction|
            #[trigger] derivative_spec(f, SpecBasis::Node(c, BasisOperator::Mult, ops)) == Some(
                mul_frac_spec(t, c),
            ),
{
    let one = Fraction { n: 1, d: 1 };
    let g = ops[0];
    let d0 = derivative_spec(f, g)->0;
    let v = mult_spec(BUDGET as nat, ops.skip(1));
    let dv = derivative_spec((f - 1) as nat, v)->0;
    let t = product_rule(g, v, d0, dv);
    assert forall|c: Fraction| #[trigger] derivative_spec(f, SpecBasis::Node(c, BasisOperator::Mult, ops))
        == Some(mul_frac_spec(t, c)) by {
    }
    t
}

} // verus!
