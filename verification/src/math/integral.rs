use crate::basis::builders::{
    add_node_spec, log_node_spec, minus_node_spec, AddBasisNode, LogBasisNode, MinusBasisNode,
};
use crate::basis::product::{mul_frac_spec, mult_node, pow_node, pow_spec, BUDGET};
use crate::basis::structs::{
    all_wf, lemma_models, lemma_models_push, lemma_normal_scale_by_one, lemma_operand_decreases,
    lemma_with_frac_wf, models, normal,
    Basis, BasisElement, BasisOperator, SpecBasis,
};
use crate::math::derivative::{derivative_node, derivative_spec, minus2, times2};
use crate::math::fraction::{wrap32, Fraction};
use crate::math::gcd::lemma_simplify_lowest_terms;
use crate::math::liate::{exponential, exponential_spec, trig, trig_spec};
use crate::math::util::{compose_spec, function_composition};
use vstd::prelude::*;

verus! {

broadcast use vstd::std_specs::vec::group_vec_axioms;

/// An integral node of `b`.
pub open spec fn int_node(b: SpecBasis) -> SpecBasis {
    SpecBasis::node(BasisOperator::Int, seq![b])
}

/// Whether the tree is a power of x (whatever its coefficients).
pub open spec fn is_x_power(b: SpecBasis) -> bool {
    match b {
        SpecBasis::Node(_, op, ops) => op is Pow && ops.len() > 0 && ops[0].is_x(),
        _ => false,
    }
}

/// Whether the tree is a node whose first operand is an x leaf.
pub open spec fn of_x(b: SpecBasis) -> bool {
    match b {
        SpecBasis::Node(_, _, ops) => ops.len() > 0 && ops[0].is_x(),
        _ => false,
    }
}

/// Integer division rounding towards zero, as machine division does.
pub open spec fn trunc_div(n: int, d: int) -> int {
    let q = if n >= 0 { n } else { -n } / if d >= 0 { d } else { -d };
    if (n >= 0) == (d > 0) || n == 0 {
        q
    } else {
        -q
    }
}

/// The weight that decides which factor of a product is differentiated when integrating
/// by parts: log 50, arccos and arcsin 41, inverse functions 40, x^(n/d) 30 plus the
/// integer part of n/d, x as x¹ 31, cos and sin 20, e 10, anything else 0. None where the division
/// n/d cannot be done (by 0, or overflowing).
pub open spec fn weight(b: SpecBasis) -> Option<i32> {
    match b {
        SpecBasis::Node(_, op, ops) => match op {
            BasisOperator::Log => Some(50i32),
            BasisOperator::Acos | BasisOperator::Asin => Some(41i32),
            BasisOperator::Inv => Some(40i32),
            BasisOperator::Pow(p) => if ops.len() > 0 && ops[0].is_x() {
                if p.d == 0 || (p.n == i32::MIN && p.d == -1) {
                    None
                } else {
                    Some(wrap32(30 + trunc_div(p.n as int, p.d as int)))
                }
            } else {
                Some(0i32)
            },
            BasisOperator::Cos | BasisOperator::Sin => Some(20i32),
            BasisOperator::E => Some(10i32),
            _ => Some(0i32),
        },
        SpecBasis::Leaf(_, e) => if e == BasisElement::X {
            Some(31i32)
        } else {
            Some(0i32)
        },
    }
}

/// Which factor is differentiated (u) and which integrated (dv): the heavier one is u;
/// at equal weight, the first for a product and the second for a quotient.
pub open spec fn u_dv(left: SpecBasis, right: SpecBasis, op: BasisOperator) -> Option<(SpecBasis, SpecBasis)> {
    match (weight(left), weight(right)) {
        (Some(lw), Some(rw)) => if lw > rw {
            Some((left, right))
        } else if lw < rw {
            Some((right, left))
        } else if op == BasisOperator::Div {
            Some((right, left))
        } else {
            Some((left, right))
        },
        _ => None,
    }
}

/// The integral of a tree, with budget `f` for integrals of trees that are built anew,
/// or none where it cannot be taken (a product or quotient with fewer than two operands,
/// or with a product or quotient among them, a weight that cannot be computed, a
/// derivative that is not defined, or the budget spent). Numbers and x integrate to
/// c·x and c/2·x²; sums and differences term by term; cos(x)/xⁿ and sin(x)/xⁿ stay
/// integral nodes; other products and quotients go by substitution (see
/// `substitution_spec`); x⁻¹ gives log(x), other powers xᵖ give x^(p+1)/(p+1); a power of a log, log (but not of a
/// trigonometric function) and inverse functions integrate by parts against 1; e^x is
/// its own integral; k·cos(cx) gives k·sin(x)/c and k·sin(cx) gives -k·cos(x)/c; anything else
/// stays an integral node.
pub open spec fn integral_spec(f: nat, b: SpecBasis) -> Option<SpecBasis>
    decreases f, b, 2nat,
{
    match b {
        SpecBasis::Leaf(c, e) => match e {
            BasisElement::Num => Some(SpecBasis::Leaf(c, BasisElement::X)),
            BasisElement::X => Some(
                pow_spec(BUDGET as nat, 2, 1, SpecBasis::x()).with_frac(c.times_spec(1, 2)),
            ),
            BasisElement::Inf => Some(b),
        },
        SpecBasis::Node(c, op, ops) => match op {
            BasisOperator::Add => match integral_all(f, ops) {
                Some(is) => Some(add_node_spec(is)),
                None => None,
            },
            BasisOperator::Minus => match integral_all(f, ops) {
                Some(is) => Some(minus_node_spec(is)),
                None => None,
            },
            BasisOperator::Mult | BasisOperator::Div => if op == BasisOperator::Div && ops.len()
                >= 2 && (ops[0].is_node(BasisOperator::Cos) || ops[0].is_node(BasisOperator::Sin))
                && (ops[1].is_x() || is_x_power(ops[1])) {
                Some(int_node(b))
            } else {
                substitution_spec(f, b)
            },
            BasisOperator::Pow(p) => if ops.len() == 0 {
                None
            } else if ops[0].is_x() && wrap32(p.n + p.d) == 0 {
                Some(mul_frac_spec(log_node_spec(ops[0]), c))
            } else if ops[0].is_x() {
                let e = wrap32(p.n + p.d);
                Some(
                    pow_spec(BUDGET as nat, e, p.d, ops[0]).with_frac(
                        c.times_spec(p.d, 1).times_spec(1, e),
                    ),
                )
            } else if ops[0].is_node(BasisOperator::Log) {
                by_parts_spec(f, b, SpecBasis::integer(1))
            } else {
                Some(int_node(b))
            },
            BasisOperator::E => if of_x(b) {
                Some(b)
            } else {
                Some(int_node(b))
            },
            BasisOperator::Log => if ops.len() > 0 && !(ops[0].is_node(BasisOperator::Cos)
                || ops[0].is_node(BasisOperator::Sin) || ops[0].is_node(BasisOperator::Acos)
                || ops[0].is_node(BasisOperator::Asin)) {
                by_parts_spec(f, b, SpecBasis::integer(1))
            } else {
                Some(int_node(b))
            },
            BasisOperator::Cos => if of_x(b) {
                Some(
                    mul_frac_spec(
                        mul_frac_spec(
                            SpecBasis::node(BasisOperator::Sin, seq![SpecBasis::x()]),
                            Fraction { n: ops[0].coef().d, d: ops[0].coef().n },
                        ),
                        c,
                    ),
                )
            } else {
                Some(int_node(b))
            },
            BasisOperator::Sin => if of_x(b) {
                Some(
                    mul_frac_spec(
                        mul_frac_spec(
                            SpecBasis::node(BasisOperator::Cos, seq![SpecBasis::x()]).negate(),
                            Fraction { n: ops[0].coef().d, d: ops[0].coef().n },
                        ),
                        c,
                    ),
                )
            } else {
                Some(int_node(b))
            },
            BasisOperator::Inv => by_parts_spec(f, b, SpecBasis::integer(1)),
            _ => Some(int_node(b)),
        },
    }
}

/// The integrals of the trees of `s`, if each can be taken.
pub open spec fn integral_all(f: nat, s: Seq<SpecBasis>) -> Option<Seq<SpecBasis>>
    decreases f, s, 0nat,
{
    if s.len() == 0 {
        Some(Seq::empty())
    } else {
        match (integral_all(f, s.drop_last()), integral_spec(f, s.last())) {
            (Some(is), Some(i)) => Some(is.push(i)),
            _ => None,
        }
    }
}

/// Integration by parts: u·v - ∫u'·v with v = ∫dv (each integral with budget `f - 1`).
pub open spec fn by_parts_spec(f: nat, u: SpecBasis, dv: SpecBasis) -> Option<SpecBasis>
    decreases f, u, 1nat,
{
    if f == 0 {
        None
    } else {
        match integral_spec((f - 1) as nat, dv) {
            None => None,
            Some(v) => match derivative_spec(BUDGET as nat, u) {
                None => None,
                Some(du) => match integral_spec((f - 1) as nat, times2(du, v)) {
                    None => None,
                    Some(w) => Some(minus2(times2(u, v), w)),
                },
            },
        }
    }
}

/// Whether the tree is a whole power xⁿ with 0 < n < 4.
pub open spec fn low_x_power(u: SpecBasis) -> bool {
    &&& is_x_power(u)
    &&& u->Node_1->Pow_0.d == 1
    &&& 0 < u->Node_1->Pow_0.n < 4
}

/// The `k` terms of tabular integration of `ui`·`vi` with budget `f` (one less for each
/// later term): ±uᵢ·vᵢ₊₁ for
/// i = 0, 1, ..., where uᵢ is `ui` differentiated i times and vᵢ₊₁ is `vi` integrated
/// i + 1 times, the signs alternating and the first negative when `neg`. None where an
/// integral or a derivative on the way cannot be taken.
pub open spec fn tab_terms(f: nat, ui: SpecBasis, vi: SpecBasis, k: nat, neg: bool) -> Option<Seq<SpecBasis>>
    decreases f, ui, 0nat,
{
    if k == 0 {
        Some(Seq::empty())
    } else if f == 0 {
        None
    } else {
        match integral_spec((f - 1) as nat, vi) {
            None => None,
            Some(v1) => {
                let t = if neg {
                    times2(ui, v1).negate()
                } else {
                    times2(ui, v1)
                };
                if k == 1 {
                    Some(seq![t])
                } else {
                    match derivative_spec(BUDGET as nat, ui) {
                        None => None,
                        Some(u1) => match tab_terms((f - 1) as nat, u1, v1, (k - 1) as nat, !neg) {
                            None => None,
                            Some(rest) => Some(seq![t] + rest),
                        },
                    }
                }
            },
        }
    }
}

/// The integral of a product or quotient of two factors by the first pattern that fits
/// it, with u and dv chosen by weight (see `u_dv`): the logarithmic pattern (see
/// `log_rule_spec`); for u = x, integration by parts; for u a whole power xⁿ with
/// 0 < n < 4, tabular integration (see `tab_terms`); the trigonometric pattern for a
/// product (see `trig_spec`); the exponential pattern (see `exponential_spec`);
/// otherwise an integral node.
/// None for fewer than two operands, for a product or quotient among the operands, and
/// where a weight cannot be computed.
pub open spec fn substitution_spec(f: nat, b: SpecBasis) -> Option<SpecBasis>
    decreases f, b, 1nat,
{
    match b {
        SpecBasis::Node(_, op, ops) => if ops.len() < 2 || exists|i: int|
            0 <= i < ops.len() && ((#[trigger] ops[i]).is_node(BasisOperator::Mult)
                || ops[i].is_node(BasisOperator::Div)) {
            None
        } else if f == 0 {
            None
        } else {
            match u_dv(ops[0], ops[1], op) {
                None => None,
                Some(t) => match log_rule_spec((f - 1) as nat, op, t.0, t.1) {
                    None => None,
                    Some(Some(r)) => Some(r),
                    Some(None) => {
                        let u = t.0;
                        let dv = t.1;
                        if u.is_x() {
                            by_parts_spec((f - 1) as nat, u, dv)
                        } else if low_x_power(u) {
                            match tab_terms((f - 1) as nat, u, dv, (u->Node_1->Pow_0.n + 1) as nat, false) {
                                Some(ts) => Some(add_node_spec(ts)),
                                None => None,
                            }
                        } else {
                            let tr = if op == BasisOperator::Mult && (u is Node ==> u->Node_2.len() > 0) {
                                trig_spec(op, u, dv)
                            } else {
                                None
                            };
                            match tr {
                                Some(r) => Some(r),
                                None => match exponential_spec(u, dv) {
                                    Some(r) => Some(r),
                                    None => Some(int_node(b)),
                                },
                            }
                        }
                    },
                },
            }
        },
        _ => None,
    }
}

/// Integration of log(x) times or over a power of x (or x): `Some(Some(r))` with the
/// integral, `Some(None)` when the pattern does not fit, `None` when an integral on the
/// way cannot be taken. log(x)·xᵖ and log(x)·x integrate by parts; log(x)/xᵖ by parts
/// against x^(-p); log(x)/x is ∫x composed with log(x).
pub open spec fn log_rule_spec(f: nat, op: BasisOperator, u: SpecBasis, dv: SpecBasis) -> Option<Option<SpecBasis>>
    decreases f, u, 2nat,
{
    if !(u.is_node(BasisOperator::Log) && of_x(u)) {
        Some(None)
    } else if op == BasisOperator::Mult {
        if is_x_power(dv) || dv.is_x() {
            match by_parts_spec(f, u, dv) {
                Some(r) => Some(Some(r)),
                None => None,
            }
        } else {
            Some(None)
        }
    } else if op == BasisOperator::Div {
        if is_x_power(dv) {
            let p = dv->Node_1->Pow_0;
            let m = p.times_spec(-1i32, 1);
            match by_parts_spec(f, u, pow_spec(BUDGET as nat, m.n, m.d, SpecBasis::x())) {
                Some(r) => Some(Some(r)),
                None => None,
            }
        } else if dv.is_x() {
            if f == 0 {
                None
            } else {
                match integral_spec((f - 1) as nat, dv) {
                    Some(i) => Some(Some(compose_spec(i, u))),
                    None => None,
                }
            }
        } else {
            Some(None)
        }
    } else {
        Some(None)
    }
}

/// Whether an optional basis stands for the optional tree `spec`, well formed.
pub open spec fn gives(r: Option<Basis>, spec: Option<SpecBasis>) -> bool {
    match spec {
        Some(x) => r matches Some(y) && y@ == x && x.wf(),
        None => r is None,
    }
}

/// The weight of a factor (see `weight`).
fn find_basis_weight(basis: &Basis) -> (r: Option<i32>)
    requires
        basis@.wf(),
    ensures
        r == weight(basis@),
{
    match basis {
        Basis::BasisNode(node) => {
            proof {
                lemma_models(node.operands@);
            }
            match node.operator {
                BasisOperator::Log => Some(50),
                BasisOperator::Acos | BasisOperator::Asin => Some(41),
                BasisOperator::Inv => Some(40),
                BasisOperator::Pow(p) => {
                    proof {
                        lemma_operand_decreases(*basis, 0);
                    }
                    if node.operands[0].is_x() {
                        if p.d == 0 || (p.n == i32::MIN && p.d == -1) {
                            return None;
                        }
                        let n: i64 = p.n as i64;
                        let d: i64 = p.d as i64;
                        let an: i64 = if n >= 0 { n } else { -n };
                        let ad: i64 = if d >= 0 { d } else { -d };
                        let q: i64 = an / ad;
                        let t: i64 = if (n >= 0) == (d > 0) || n == 0 { q } else { -q };
                        proof {
                            assert(t == trunc_div(p.n as int, p.d as int));
                        }
                        Some(crate::math::fraction::trunc32((30 + t) as i128))
                    } else {
                        Some(0)
                    }
                },
                BasisOperator::Cos | BasisOperator::Sin => Some(20),
                BasisOperator::E => Some(10),
                _ => Some(0),
            }
        },
        Basis::BasisLeaf(leaf) => match leaf.element {
            BasisElement::X => Some(31),
            _ => Some(0),
        },
    }
}

/// Which factor is differentiated and which integrated (see `u_dv`).
fn get_u_dv(left_operand: &Basis, right_operand: &Basis, operator: BasisOperator) -> (r: Option<(Basis, Basis)>)
    requires
        left_operand@.wf(),
        right_operand@.wf(),
    ensures
        match u_dv(left_operand@, right_operand@, operator) {
            Some(t) => r matches Some(p) && p.0@ == t.0 && p.1@ == t.1,
            None => r is None,
        },
{
    let lw = match find_basis_weight(left_operand) {
        Some(w) => w,
        None => {
            return None;
        },
    };
    let rw = match find_basis_weight(right_operand) {
        Some(w) => w,
        None => {
            return None;
        },
    };
    if lw > rw {
        Some((left_operand.deep_clone(), right_operand.deep_clone()))
    } else if lw < rw {
        Some((right_operand.deep_clone(), left_operand.deep_clone()))
    } else if operator.same(&BasisOperator::Div) {
        Some((right_operand.deep_clone(), left_operand.deep_clone()))
    } else {
        Some((left_operand.deep_clone(), right_operand.deep_clone()))
    }
}

/// An integral node of `b`.
fn int_node_exec(b: &Basis) -> (r: Basis)
    requires
        b@.wf(),
    ensures
        r@ == int_node(b@),
        r@.wf(),
{
    let r = Basis::unary(BasisOperator::Int, b.deep_clone());
    proof {
        assert(seq![b@][0].wf());
    }
    r
}

/// The product of two bases (see `times2`).
fn times2_exec(a: Basis, b: Basis) -> (r: Basis)
    requires
        a@.wf(),
        b@.wf(),
    ensures
        r@ == times2(a@, b@),
        r@.wf(),
{
    let mut v: Vec<Basis> = Vec::new();
    v.push(a);
    v.push(b);
    proof {
        lemma_models(v@);
        assert(models(v@) =~= seq![a@, b@]);
    }
    mult_node(BUDGET, &v)
}

/// `a - b` (see `minus2`).
fn minus2_exec(a: Basis, b: Basis) -> (r: Basis)
    requires
        a@.wf(),
        b@.wf(),
    ensures
        r@ == minus2(a@, b@),
        r@.wf(),
{
    let nb = b.negated();
    proof {
        lemma_with_frac_wf(b@, b@.coef().times_spec(-1i32, 1));
    }
    let mut v: Vec<Basis> = Vec::new();
    v.push(a);
    v.push(nb);
    proof {
        lemma_models(v@);
        assert(models(v@) =~= seq![a@, nb@]);
    }
    AddBasisNode(v)
}

/// Integration by parts with budget `f` (see `by_parts_spec`).
pub(crate) fn by_parts_node(f: u32, u: &Basis, dv: &Basis) -> (r: Option<Basis>)
    requires
        u@.wf(),
        dv@.wf(),
    ensures
        gives(r, by_parts_spec(f as nat, u@, dv@)),
    decreases f, u@, 1nat,
{
    if f == 0 {
        return None;
    }
    let v = match integral_node(f - 1, dv) {
        Some(v) => v,
        None => {
            return None;
        },
    };
    let du = match derivative_node(BUDGET, u) {
        Some(d) => d,
        None => {
            return None;
        },
    };
    let w = match integral_node(f - 1, &times2_exec(du, v.deep_clone())) {
        Some(w) => w,
        None => {
            return None;
        },
    };
    Some(minus2_exec(times2_exec(u.deep_clone(), v), w))
}

/// Integration by the logarithmic pattern with budget `f` (see `log_rule_spec`).
pub(crate) fn log_rule_node(f: u32, operator: BasisOperator, u: &Basis, dv: &Basis) -> (r: Option<Option<Basis>>)
    requires
        u@.wf(),
        dv@.wf(),
    ensures
        match log_rule_spec(f as nat, operator, u@, dv@) {
            Some(o) => r matches Some(p) && gives(p, o),
            None => r is None,
        },
    decreases f, u@, 2nat,
{
    let log_of_x = match u {
        Basis::BasisNode(node) => {
            proof {
                lemma_models(node.operands@);
            }
            node.operator.same(&BasisOperator::Log) && node.operands.len() > 0 && node.operands[0].is_x()
        },
        _ => false,
    };
    if !log_of_x {
        return Some(None);
    }
    let x_power = match dv {
        Basis::BasisNode(node) => {
            proof {
                lemma_models(node.operands@);
            }
            match node.operator {
                BasisOperator::Pow(p) => node.operands.len() > 0 && node.operands[0].is_x(),
                _ => false,
            }
        },
        _ => false,
    };
    if operator.same(&BasisOperator::Mult) {
        // I(ln(x)f(x)) = ln(x)I(f(x)) - I(I(f(x)/x))
        if x_power || dv.is_x() {
            return match by_parts_node(f, u, dv) {
                Some(r) => Some(Some(r)),
                None => None,
            };
        }
        Some(None)
    } else if operator.same(&BasisOperator::Div) {
        if x_power {
            let p = match dv {
                Basis::BasisNode(node) => match node.operator {
                    BasisOperator::Pow(p) => p,
                    _ => Fraction { n: 1, d: 1 },
                },
                _ => Fraction { n: 1, d: 1 },
            };
            let m = p.times(-1, 1);
            let w = pow_node(BUDGET, m.n, m.d, &Basis::x());
            return match by_parts_node(f, u, &w) {
                Some(r) => Some(Some(r)),
                None => None,
            };
        } else if dv.is_x() {
            if f == 0 {
                return None;
            }
            return match integral_node(f - 1, dv) {
                Some(i) => Some(Some(function_composition(&i, u))),
                None => None,
            };
        }
        Some(None)
    } else {
        Some(None)
    }
}

/// Whether a product or quotient is among `ops`.
fn has_product(ops: &Vec<Basis>) -> (r: bool)
    ensures
        r == exists|i: int|
            0 <= i < models(ops@).len() && ((#[trigger] models(ops@)[i]).is_node(BasisOperator::Mult)
                || models(ops@)[i].is_node(BasisOperator::Div)),
{
    let ghost s = models(ops@);
    proof {
        lemma_models(ops@);
    }
    let mut i: usize = 0;
    while i < ops.len()
        invariant
            s == models(ops@),
            s.len() == ops@.len(),
            forall|t: int| 0 <= t < ops@.len() ==> #[trigger] s[t] == ops@[t]@,
            i <= ops.len(),
            forall|t: int| 0 <= t < i ==> !((#[trigger] s[t]).is_node(BasisOperator::Mult) || s[t].is_node(BasisOperator::Div)),
        decreases ops.len() - i,
    {
        if ops[i].is_node(BasisOperator::Mult) || ops[i].is_node(BasisOperator::Div) {
            assert(s[i as int].is_node(BasisOperator::Mult) || s[i as int].is_node(BasisOperator::Div));
            return true;
        }
        i += 1;
    }
    false
}

/// Integration of a product or quotient by substitution with budget `f` (see
/// `substitution_spec`).
fn substitution_node(f: u32, basis: &Basis) -> (r: Option<Basis>)
    requires
        basis@.wf(),
    ensures
        gives(r, substitution_spec(f as nat, basis@)),
    decreases f, basis@, 1nat,
{
    match basis {
        Basis::BasisNode(node) => {
            let ops = &node.operands;
            let ghost s = models(ops@);
            proof {
                lemma_models(ops@);
            }
            if ops.len() < 2 {
                return None;
            }
            if has_product(ops) {
                return None;
            }
            if f == 0 {
                return None;
            }
            proof {
                lemma_operand_decreases(*basis, 0);
                lemma_operand_decreases(*basis, 1);
            }
            match get_u_dv(&ops[0], &ops[1], node.operator) {
                None => None,
                Some(t) => match log_rule_node(f - 1, node.operator, &t.0, &t.1) {
                    None => None,
                    Some(Some(r)) => Some(r),
                    Some(None) => {
                        let u = &t.0;
                        let dv = &t.1;
                        if u.is_x() {
                            return by_parts_node(f - 1, u, dv);
                        }
                        match low_power(u) {
                            Some(n) => {
                                return match tab_terms_node(f - 1, u, dv, (n + 1) as u32, false) {
                                    Some(ts) => Some(AddBasisNode(ts)),
                                    None => None,
                                };
                            },
                            None => {},
                        }
                        let reads_ok = match u {
                            Basis::BasisNode(un) => {
                                proof {
                                    lemma_models(un.operands@);
                                }
                                un.operands.len() > 0
                            },
                            _ => true,
                        };
                        let tr = if node.operator.same(&BasisOperator::Mult) && reads_ok {
                            trig(node.operator, u, dv)
                        } else {
                            None
                        };
                        match tr {
                            Some(r) => Some(r),
                            None => match exponential(node.operator, u, dv) {
                                Some(r) => Some(r),
                                None => Some(int_node_exec(basis)),
                            },
                        }
                    },
                },
            }
        },
        _ => None,
    }
}

/// The exponent n of a whole power xⁿ with 0 < n < 4 (see `low_x_power`).
fn low_power(u: &Basis) -> (r: Option<i32>)
    requires
        u@.wf(),
    ensures
        r is Some == low_x_power(u@),
        r matches Some(n) ==> n == u@->Node_1->Pow_0.n,
{
    match u {
        Basis::BasisNode(node) => match node.operator {
            BasisOperator::Pow(p) => {
                proof {
                    lemma_models(node.operands@);
                }
                if node.operands.len() > 0 && node.operands[0].is_x() && p.d == 1 && 0 < p.n && p.n < 4 {
                    Some(p.n)
                } else {
                    None
                }
            },
            _ => None,
        },
        _ => None,
    }
}

/// The terms of tabular integration with budget `f` (see `tab_terms`).
fn tab_terms_node(f: u32, ui: &Basis, vi: &Basis, k: u32, neg: bool) -> (r: Option<Vec<Basis>>)
    requires
        ui@.wf(),
        vi@.wf(),
    ensures
        match tab_terms(f as nat, ui@, vi@, k as nat, neg) {
            Some(ts) => r matches Some(v) && models(v@) == ts && all_wf(ts),
            None => r is None,
        },
    decreases f, ui@, 0nat,
{
    if k == 0 {
        let v: Vec<Basis> = Vec::new();
        proof {
            lemma_models(v@);
        }
        return Some(v);
    }
    if f == 0 {
        return None;
    }
    let v1 = match integral_node(f - 1, vi) {
        Some(v) => v,
        None => {
            return None;
        },
    };
    let prod = times2_exec(ui.deep_clone(), v1.deep_clone());
    let t = if neg {
        proof {
            lemma_with_frac_wf(prod@, prod@.coef().times_spec(-1i32, 1));
        }
        prod.negated()
    } else {
        prod
    };
    let mut out: Vec<Basis> = Vec::new();
    out.push(t);
    proof {
        lemma_models(out@);
        assert(models(out@) =~= seq![t@]);
    }
    if k == 1 {
        return Some(out);
    }
    let u1 = match derivative_node(BUDGET, ui) {
        Some(d) => d,
        None => {
            return None;
        },
    };
    match tab_terms_node(f - 1, &u1, &v1, k - 1, !neg) {
        None => None,
        Some(mut rest) => {
            let ghost r0 = rest@;
            let ghost o0 = out@;
            out.append(&mut rest);
            proof {
                lemma_models(r0);
                lemma_models(o0);
                lemma_models(out@);
                assert(out@ =~= o0 + r0);
                assert(models(out@) =~= models(o0) + models(r0));
            }
            Some(out)
        },
    }
}

/// Once `integral_all` fails on a prefix, it fails on every longer prefix.
proof fn lemma_integral_all_none(f: nat, s: Seq<SpecBasis>, k: int)
    requires
        0 <= k <= s.len(),
        integral_all(f, s.take(k)) is None,
    ensures
        integral_all(f, s) is None,
    decreases s.len() - k,
{
    if k < s.len() {
        assert(s.take(k + 1).drop_last() =~= s.take(k));
        lemma_integral_all_none(f, s, k + 1);
    } else {
        assert(s.take(k) =~= s);
    }
}

/// The integrals of the operands of a node (see `integral_all`).
fn integral_terms(f: u32, basis: &Basis) -> (r: Option<Vec<Basis>>)
    requires
        basis@.wf(),
        basis@ is Node,
    ensures
        match integral_all(f as nat, basis@->Node_2) {
            Some(is) => r matches Some(v) && models(v@) == is && all_wf(is),
            None => r is None,
        },
    decreases f, basis@, 0nat,
{
    match basis {
        Basis::BasisNode(node) => {
            let ops = &node.operands;
            let ghost s = models(ops@);
            proof {
                lemma_models(ops@);
            }
            let mut is: Vec<Basis> = Vec::new();
            let mut i: usize = 0;
            proof {
                lemma_models(is@);
                assert(s.take(0) =~= Seq::<SpecBasis>::empty());
            }
            while i < ops.len()
                invariant
                    *basis == Basis::BasisNode(*node),
                    ops == &node.operands,
                    basis@.wf(),
                    s == models(ops@),
                    s.len() == ops@.len(),
                    forall|t: int| 0 <= t < ops@.len() ==> #[trigger] s[t] == ops@[t]@,
                    i <= ops.len(),
                    integral_all(f as nat, s.take(i as int)) == Some(models(is@)),
                    all_wf(models(is@)),
                decreases ops.len() - i,
            {
                proof {
                    lemma_operand_decreases(*basis, i as int);
                    assert(s.take(i + 1).drop_last() =~= s.take(i as int));
                    assert(s.take(i + 1).last() == s[i as int]);
                }
                match integral_node(f, &ops[i]) {
                    Some(d) => {
                        proof {
                            lemma_models_push(is@, d);
                            lemma_models(is@.push(d));
                            lemma_models(is@);
                        }
                        is.push(d);
                    },
                    None => {
                        proof {
                            lemma_integral_all_none(f as nat, s, i + 1);
                        }
                        return None;
                    },
                }
                i += 1;
            }
            proof {
                assert(s.take(ops.len() as int) =~= s);
            }
            Some(is)
        },
        _ => None,
    }
}

/// Whether the basis is a power of x (see `is_x_power`).
fn is_x_power_exec(b: &Basis) -> (r: bool)
    ensures
        r == is_x_power(b@),
{
    match b {
        Basis::BasisNode(node) => {
            proof {
                lemma_models(node.operands@);
            }
            match node.operator {
                BasisOperator::Pow(_) => node.operands.len() > 0 && node.operands[0].is_x(),
                _ => false,
            }
        },
        _ => false,
    }
}

/// Whether the basis is a node whose first operand is an x leaf (see `of_x`).
fn of_x_exec(b: &Basis) -> (r: bool)
    ensures
        r == of_x(b@),
{
    match b {
        Basis::BasisNode(node) => {
            proof {
                lemma_models(node.operands@);
            }
            node.operands.len() > 0 && node.operands[0].is_x()
        },
        _ => false,
    }
}

/// The integral of a basis with budget `f` (see `integral_spec`).
pub(crate) fn integral_node(f: u32, basis: &Basis) -> (r: Option<Basis>)
    requires
        basis@.wf(),
    ensures
        gives(r, integral_spec(f as nat, basis@)),
    decreases f, basis@, 2nat,
{
    match basis {
        Basis::BasisLeaf(leaf) => {
            let c = leaf.coefficient;
            match leaf.element {
                BasisElement::Num => Some(Basis::x().set_coefficient(c)),
                BasisElement::X => {
                    let p = pow_node(BUDGET, 2, 1, &Basis::x());
                    proof {
                        lemma_with_frac_wf(p@, c.times_spec(1, 2));
                    }
                    Some(p.with_frac(c.times(1, 2)))
                },
                BasisElement::Inf => Some(basis.deep_clone()),
            }
        },
        Basis::BasisNode(node) => {
            let ops = &node.operands;
            let c = node.coefficient;
            proof {
                lemma_models(ops@);
            }
            match node.operator {
                BasisOperator::Add | BasisOperator::Minus => {
                    match integral_terms(f, basis) {
                        Some(is) => {
                            if node.operator.same(&BasisOperator::Add) {
                                Some(AddBasisNode(is))
                            } else {
                                Some(MinusBasisNode(is))
                            }
                        },
                        None => None,
                    }
                },
                BasisOperator::Mult | BasisOperator::Div => {
                    // cosx/x^n | sinx/x^n
                    if node.operator.same(&BasisOperator::Div) && ops.len() >= 2 && (
                    ops[0].is_node(BasisOperator::Cos) || ops[0].is_node(BasisOperator::Sin)) && (
                    ops[1].is_x() || is_x_power_exec(&ops[1])) {
                        return Some(int_node_exec(basis));
                    }
                    substitution_node(f, basis)
                },
                BasisOperator::Pow(p) => {
                    proof {
                        lemma_operand_decreases(*basis, 0);
                    }
                    let base = &ops[0];
                    let e = crate::math::fraction::trunc32(p.n as i128 + p.d as i128);
                    if base.is_x() && e == 0 {
                        // I(x^-1) = log(x)
                        return Some(LogBasisNode(base).scale_frac(c));
                    }
                    if base.is_x() {
                        let r = pow_node(BUDGET, e, p.d, base);
                        proof {
                            lemma_with_frac_wf(r@, c.times_spec(p.d, 1).times_spec(1, e));
                        }
                        return Some(r.with_frac(c.times(p.d, 1).times(1, e)));
                    }
                    if base.is_node(BasisOperator::Log) {
                        return by_parts_node(f, basis, &Basis::of_num(1));
                    }
                    Some(int_node_exec(basis))
                },
                BasisOperator::E => {
                    // I(e^x) = e^x
                    if of_x_exec(basis) {
                        Some(basis.deep_clone())
                    } else {
                        Some(int_node_exec(basis))
                    }
                },
                BasisOperator::Log => {
                    proof {
                        lemma_operand_decreases(*basis, 0);
                    }
                    let g = &ops[0];
                    if !(g.is_node(BasisOperator::Cos) || g.is_node(BasisOperator::Sin) || g.is_node(BasisOperator::Acos)
                        || g.is_node(BasisOperator::Asin)) {
                        // I(log(f(x))) = xlog(f(x)) - I(xf'(x)/f(x))
                        return by_parts_node(f, basis, &Basis::of_num(1));
                    }
                    Some(int_node_exec(basis))
                },
                BasisOperator::Cos | BasisOperator::Sin => {
                    if of_x_exec(basis) {
                        proof {
                            lemma_operand_decreases(*basis, 0);
                        }
                        let k = ops[0].coefficient();
                        let t = if node.operator.same(&BasisOperator::Cos) {
                            // I(cos(x)) = sin(x)
                            Basis::unary(BasisOperator::Sin, Basis::x())
                        } else {
                            // I(sin(x)) = -cos(x)
                            Basis::unary(BasisOperator::Cos, Basis::x()).negated()
                        };
                        proof {
                            assert(seq![SpecBasis::x()][0].wf());
                            assert(SpecBasis::node(BasisOperator::Cos, seq![SpecBasis::x()]).wf());
                            lemma_with_frac_wf(
                                SpecBasis::node(BasisOperator::Cos, seq![SpecBasis::x()]),
                                Fraction { n: 1, d: 1 }.times_spec(-1i32, 1),
                            );
                        }
                        return Some(t.scale_frac(Fraction { n: k.d, d: k.n }).scale_frac(node.coefficient));
                    }
                    Some(int_node_exec(basis))
                },
                // I(f-1(x)) = xf-1(x) - I(xf-1(x))
                BasisOperator::Inv => by_parts_node(f, basis, &Basis::of_num(1)),
                _ => Some(int_node_exec(basis)),
            }
        },
    }
}

/// The integral of `basis` (see `integral_spec`); it can be taken unless the basis
/// holds a product or quotient that cannot be split into two factors, or a derivative on
/// the way is not defined.
pub fn integral(basis: &Basis) -> (r: Basis)
    requires
        basis@.wf(),
        integral_spec(BUDGET as nat, basis@) is Some,
    ensures
        Some(r@) == integral_spec(BUDGET as nat, basis@),
        r@.wf(),
{
    match integral_node(BUDGET, basis) {
        Some(r) => r,
        None => Basis::of_num(0),
    }
}

/// Integration by parts: u·v - ∫u'·v with v = ∫dv (see `by_parts_spec`).
pub fn integration_by_parts(u: &Basis, dv: &Basis) -> (r: Basis)
    requires
        u@.wf(),
        dv@.wf(),
        by_parts_spec(BUDGET as nat, u@, dv@) is Some,
    ensures
        Some(r@) == by_parts_spec(BUDGET as nat, u@, dv@),
        r@.wf(),
{
    match by_parts_node(BUDGET, u, dv) {
        Some(r) => r,
        None => Basis::of_num(0),
    }
}

/// Tabular integration of u·dv: for u a whole power c·xⁿ with n > 0, the sum of the n + 1
/// terms ±uᵢ·vᵢ₊₁ (see `tab_terms`); 0 for any other u.
#[verifier::opaque]
pub open spec fn tabular_spec(u: SpecBasis, dv: SpecBasis) -> Option<SpecBasis> {
    if is_x_power(u) && u->Node_1->Pow_0.d == 1 && u->Node_1->Pow_0.n > 0 {
        match tab_terms(BUDGET as nat, u, dv, (u->Node_1->Pow_0.n + 1) as nat, false) {
            Some(ts) => Some(add_node_spec(ts)),
            None => None,
        }
    } else {
        Some(SpecBasis::integer(0))
    }
}

/// Tabular integration of u·dv (see `tabular_spec`); the integrals and derivatives on the
/// way must be defined.
pub fn tabular_integration(u: &Basis, dv: &Basis) -> (r: Basis)
    requires
        u@.wf(),
        dv@.wf(),
        tabular_spec(u@, dv@) is Some,
    ensures
        Some(r@) == tabular_spec(u@, dv@),
        r@.wf(),
{
    proof {
        reveal(tabular_spec);
    }
    match u {
        Basis::BasisNode(node) => match node.operator {
            BasisOperator::Pow(p) => {
                proof {
                    lemma_models(node.operands@);
                }
                if node.operands.len() > 0 && node.operands[0].is_x() && p.d == 1 && p.n > 0 {
                    let n1: u32 = (p.n as u32) + 1;
                    proof {
                        assert(u@->Node_1->Pow_0 == p);
                        assert(n1 as nat == (p.n + 1) as nat);
                    }
                    match tab_terms_node(BUDGET, u, dv, n1, false) {
                        Some(ts) => {
                            return AddBasisNode(ts);
                        },
                        None => {},
                    }
                }
            },
            _ => {},
        },
        _ => {},
    }
    Basis::of_num(0)
}

/// The derivative undoes an integral left as a node: the derivative of ∫g is g, for g
/// with its coefficients in lowest terms (see `normal`), sums included.
pub proof fn lemma_derivative_of_integral_node(f: nat, g: SpecBasis)
    requires
        normal(g),
    ensures
        derivative_spec(f, int_node(g)) == Some(g),
{
    lemma_normal_scale_by_one(g);
    assert(int_node(g)->Node_2[0] == g);
}


/// Integration is linear in the coefficient of e^(kx), cos(kx) and sin(kx): the integral
/// of c·op(kx) is c times the integral of op(kx), for every c in lowest terms and every
/// nonzero k.
pub proof fn lemma_integral_linear_in_coefficient(f: nat, op: BasisOperator, k: Fraction, c: Fraction)
    requires
        op == BasisOperator::E || op == BasisOperator::Cos || op == BasisOperator::Sin,
        k.n != 0,
        k.n != i32::MIN,
        k.d != i32::MIN,
        c.reduce_spec() == c,
    ensures
        ({
            let g = SpecBasis::Leaf(k, BasisElement::X);
            let one = Fraction { n: 1, d: 1 };
            &&& integral_spec(f, SpecBasis::Node(one, op, seq![g])) is Some
            &&& integral_spec(f, SpecBasis::Node(c, op, seq![g])) == Some(
                mul_frac_spec(integral_spec(f, SpecBasis::Node(one, op, seq![g]))->0, c),
            )
        }),
{
    let g = SpecBasis::Leaf(k, BasisElement::X);
    let one = Fraction { n: 1, d: 1 };
    let b1 = SpecBasis::Node(one, op, seq![g]);
    let bc = SpecBasis::Node(c, op, seq![g]);
    assert(seq![g][0] == g);
    assert(of_x(b1) && of_x(bc));
    assert(wrap32(1 * c.n) == c.n && wrap32(1 * c.d) == c.d);
    assert(one.times_spec(c.n, c.d) == c);
    if op != BasisOperator::E {
        // the integral of op(kx) has a coefficient in lowest terms, which 1 leaves as it is
        let kinv = Fraction { n: k.d, d: k.n };
        lemma_simplify_lowest_terms(kinv);
        let base = if op == BasisOperator::Cos {
            SpecBasis::node(BasisOperator::Sin, seq![SpecBasis::x()])
        } else {
            SpecBasis::node(BasisOperator::Cos, seq![SpecBasis::x()]).negate()
        };
        if op == BasisOperator::Sin {
            let m = Fraction { n: -1i32, d: 1 };
            assert(m.gcd_spec() == 1) by {
                reveal_with_fuel(crate::math::fraction::euclid, 3);
            }
            assert(one.times_spec(-1i32, 1) == m);
            assert(base.coef() == m);
            let mk = Fraction { n: (-k.d) as i32, d: k.n };
            assert(wrap32(-1 * k.d) == -k.d && wrap32(1 * k.n) == k.n);
            assert(m.times_spec(kinv.n, kinv.d) == mk.reduce_spec());
            lemma_simplify_lowest_terms(mk);
        } else {
            assert(wrap32(1 * k.d) == k.d && wrap32(1 * k.n) == k.n);
            assert(base.coef().times_spec(kinv.n, kinv.d) == kinv.reduce_spec());
        }
        let s = mul_frac_spec(base, kinv);
        let r = s.coef();
        assert(r.reduce_spec() == r);
        assert(wrap32(r.n * 1) == r.n && wrap32(r.d * 1) == r.d);
        assert(r.times_spec(1, 1) == r);
        assert(mul_frac_spec(s, one) == s);
    }
}

} // verus!
