use crate::basis::builders::{
    add_node_spec, lemma_add_two_unlike_terms, lemma_add_zero, log_node_spec, minus_node_spec, plain_term,
    AddBasisNode, LogBasisNode, MinusBasisNode,
};
use crate::basis::product::{mul_frac_spec, mul_int_spec};
use crate::basis::structs::{
    all_wf, lemma_models, lemma_models_push, lemma_operand_decreases, lemma_with_frac_wf, models,
    Basis, BasisElement, BasisOperator, SpecBasis,
};
use crate::math::fraction::{abs_int, fits32, wrap32, Fraction};
use crate::math::gcd::{lemma_simplify_lowest_terms, lemma_simplify_same_value};
use vstd::prelude::*;

verus! {

broadcast use vstd::std_specs::vec::group_vec_axioms;

/// The logarithm of a tree, expanded where the laws of logarithms apply: log(c) is 0 for
/// c = 1 and a log node otherwise; log(cx) = log(x) + log(c); log(±∞) = ±∞; the log of a
/// product is the sum of the logs, of a quotient their difference, of a power the
/// exponent times the log of the base, of c·e^g it is g; each plus log of the coefficient.
pub open spec fn log_spec(b: SpecBasis) -> SpecBasis
    decreases b, 1nat,
{
    match b {
        SpecBasis::Leaf(c, e) => match e {
            BasisElement::Num => if c.d == 1 && c.n == 1 {
                SpecBasis::integer(0)
            } else {
                log_node_spec(SpecBasis::num(c))
            },
            BasisElement::X => add_node_spec(
                seq![log_node_spec(SpecBasis::x()), log_node_spec(SpecBasis::num(c))],
            ),
            BasisElement::Inf => b,
        },
        SpecBasis::Node(c, op, ops) => match op {
            BasisOperator::Mult => add_node_spec(
                seq![add_node_spec(log_all(ops)), log_node_spec(SpecBasis::num(c))],
            ),
            BasisOperator::Div => add_node_spec(
                seq![minus_node_spec(log_all(ops)), log_node_spec(SpecBasis::num(c))],
            ),
            BasisOperator::Pow(p) => add_node_spec(
                seq![
                    mul_frac_spec(
                        mul_int_spec(if ops.len() > 0 { log_spec(ops[0]) } else { b }, p.n),
                        Fraction { n: 1, d: p.d },
                    ),
                    log_node_spec(SpecBasis::num(c)),
                ],
            ),
            BasisOperator::E => add_node_spec(seq![ops[0], log_node_spec(SpecBasis::num(c))]),
            _ => log_node_spec(b),
        },
    }
}

/// The logarithm of each tree of `s`.
pub open spec fn log_all(s: Seq<SpecBasis>) -> Seq<SpecBasis>
    decreases s, 0nat,
{
    if s.len() == 0 {
        Seq::empty()
    } else {
        log_all(s.drop_last()).push(log_spec(s.last()))
    }
}

/// `log_all` takes the logarithm of each element.
pub proof fn lemma_log_all(s: Seq<SpecBasis>)
    ensures
        log_all(s).len() == s.len(),
        forall|t: int| 0 <= t < s.len() ==> #[trigger] log_all(s)[t] == log_spec(s[t]),
    decreases s.len(),
{
    if s.len() > 0 {
        lemma_log_all(s.drop_last());
    }
}

/// The logarithm of a product of two factors is the sum of their logarithms, where those
/// are plain unlike terms (see `plain_term`): log(ab) = log(a) + log(b).
pub proof fn lemma_log_of_product(a: SpecBasis, b: SpecBasis)
    requires
        plain_term(log_spec(a)),
        plain_term(log_spec(b)),
        log_spec(a).with_int(1) != log_spec(b).with_int(1),
    ensures
        log_spec(SpecBasis::node(BasisOperator::Mult, seq![a, b])) == add_node_spec(
            seq![log_spec(a), log_spec(b)],
        ),
{
    let ops = seq![a, b];
    lemma_log_all(ops);
    assert(log_all(ops) =~= seq![log_spec(a), log_spec(b)]);
    assert(log_node_spec(SpecBasis::num(Fraction { n: 1, d: 1 })) == SpecBasis::integer(0));
    lemma_add_two_unlike_terms(log_spec(a), log_spec(b));
}

/// The logarithm of x is the log node of x.
pub proof fn lemma_log_of_x()
    ensures
        log_spec(SpecBasis::x()) == SpecBasis::node(BasisOperator::Log, seq![SpecBasis::x()]),
{
    let l = SpecBasis::node(BasisOperator::Log, seq![SpecBasis::x()]);
    assert(log_node_spec(SpecBasis::x()) == l);
    assert(log_node_spec(SpecBasis::num(Fraction { n: 1, d: 1 })) == SpecBasis::integer(0));
    lemma_add_zero(l);
}

/// The logarithm of a power is the exponent times the logarithm of the base:
/// log(b^(n/d)) = (n/d)·log(b), for a nonzero exponent and a base whose logarithm is a
/// plain term (see `plain_term`), while the products of the coefficients stay within 32
/// bits. The result is that logarithm with a coefficient whose value is the exponent
/// times the logarithm's coefficient, and a positive denominator.
pub proof fn lemma_log_of_power(b: SpecBasis, p: Fraction)
    requires
        plain_term(log_spec(b)),
        p.n != 0,
        p.d != 0,
        fits32(log_spec(b).coef().n * p.n),
        log_spec(b).coef().n * p.n != i32::MIN,
        fits32(log_spec(b).coef().d * p.d),
        log_spec(b).coef().d * p.d != i32::MIN,
    ensures
        ({
            let l = log_spec(b);
            let r = log_spec(
                SpecBasis::Node(Fraction { n: 1, d: 1 }, BasisOperator::Pow(p), seq![b]),
            );
            &&& r == l.set_coef(r.coef())
            &&& r.coef().d > 0
            &&& r.coef().n * (l.coef().d * p.d) == (l.coef().n * p.n) * r.coef().d
            &&& r.coef().n != i32::MIN
            &&& r.coef().reduce_spec() == r.coef()
        }),
{
    let l = log_spec(b);
    let lc = l.coef();
    let b2 = SpecBasis::Node(Fraction { n: 1, d: 1 }, BasisOperator::Pow(p), seq![b]);
    let q = lemma_times_exponent(lc, p);
    let r1 = lc.times_spec(p.n, 1);
    assert(mul_int_spec(l, p.n) == l.with_frac(r1));
    let scaled = l.with_frac(r1).with_frac(q);
    assert(mul_frac_spec(mul_int_spec(l, p.n), Fraction { n: 1, d: p.d }) == scaled);
    assert(scaled == l.set_coef(q));
    // adding log(1) = 0 changes nothing
    assert(log_node_spec(SpecBasis::num(Fraction { n: 1, d: 1 })) == SpecBasis::integer(0));
    lemma_add_zero(scaled);
    assert(log_spec(b2) == add_node_spec(seq![scaled, SpecBasis::integer(0)]));
}

/// A coefficient times n, then over d, as the logarithm of a power computes it: the
/// value is the coefficient times n/d, in lowest terms with a positive denominator.
proof fn lemma_times_exponent(lc: Fraction, p: Fraction) -> (q: Fraction)
    requires
        lc.n != 0,
        lc.d != 0,
        p.n != 0,
        p.d != 0,
        fits32(lc.n * p.n),
        lc.n * p.n != i32::MIN,
        fits32(lc.d * p.d),
        lc.d * p.d != i32::MIN,
    ensures
        q == lc.times_spec(p.n, 1).times_spec(1, p.d),
        q.d > 0,
        q.n != 0,
        q.n != i32::MIN,
        q.reduce_spec() == q,
        q.n * (lc.d * p.d) == (lc.n * p.n) * q.d,
{
    let a1 = Fraction { n: (lc.n * p.n) as i32, d: lc.d };
    assert(wrap32(lc.n * p.n) == lc.n * p.n);
    assert(wrap32(lc.d * 1) == lc.d);
    assert(a1.n != 0) by (nonlinear_arith)
        requires
            a1.n == lc.n * p.n,
            lc.n != 0,
            p.n != 0,
    ;
    assert(abs_int(lc.d as int) <= abs_int(lc.d * p.d)) by (nonlinear_arith)
        requires
            p.d != 0,
    ;
    assert(lc.d != i32::MIN);
    lemma_simplify_lowest_terms(a1);
    let r1 = a1.reduce_spec();
    assert(lc.times_spec(p.n, 1) == r1);
    assert(r1.d * p.d != i32::MIN && fits32(r1.d * p.d) && r1.d * p.d != 0) by (nonlinear_arith)
        requires
            0 < r1.d <= abs_int(lc.d as int),
            fits32(lc.d * p.d),
            lc.d * p.d != i32::MIN,
            p.d != 0,
    ;
    let a2 = Fraction { n: r1.n, d: (r1.d * p.d) as i32 };
    assert(wrap32(r1.n * 1) == r1.n);
    assert(wrap32(r1.d * p.d) == r1.d * p.d);
    assert(r1.n != 0) by (nonlinear_arith)
        requires
            r1.n * a1.d == a1.n * r1.d,
            a1.n != 0,
            r1.d > 0,
    ;
    lemma_simplify_lowest_terms(a2);
    let q = a2.reduce_spec();
    assert(r1.times_spec(1, p.d) == q);
    assert(q.n * (lc.d * p.d) == (lc.n * p.n) * q.d) by (nonlinear_arith)
        requires
            q.n * a2.d == a2.n * q.d,
            a2.n == r1.n,
            a2.d == r1.d * p.d,
            r1.n * lc.d == a1.n * r1.d,
            a1.n == lc.n * p.n,
            r1.d > 0,
    ;
    assert(q.n != 0) by (nonlinear_arith)
        requires
            q.n * a2.d == a2.n * q.d,
            a2.n != 0,
            q.d > 0,
    ;
    assert(abs_int(q.n as int) <= abs_int(a2.n as int));
    assert(abs_int(r1.n as int) <= abs_int(a1.n as int));
    q
}

/// log(x^p) = p·log(x) for every nonzero exponent p in lowest terms.
pub proof fn lemma_log_of_power_of_x(p: Fraction)
    requires
        p.n != 0,
        p.n != i32::MIN,
        p.d > 0,
        p.reduce_spec() == p,
    ensures
        log_spec(SpecBasis::Node(Fraction { n: 1, d: 1 }, BasisOperator::Pow(p), seq![SpecBasis::x()]))
            == SpecBasis::Node(p, BasisOperator::Log, seq![SpecBasis::x()]),
{
    lemma_log_of_x();
    let l = log_spec(SpecBasis::x());
    assert(l.coef() == (Fraction { n: 1, d: 1 }));
    assert(1 * p.n == p.n && 1 * p.d == p.d);
    lemma_log_of_power(SpecBasis::x(), p);
    let r = log_spec(SpecBasis::Node(Fraction { n: 1, d: 1 }, BasisOperator::Pow(p), seq![SpecBasis::x()]));
    let q = r.coef();
    assert(q.n * p.d == p.n * q.d);
    // q is in lowest terms too: it is what simplifying leaves
    lemma_simplify_same_value(q, p);
}

/// The sum of two bases.
fn sum2(a: Basis, b: Basis) -> (r: Basis)
    requires
        a@.wf(),
        b@.wf(),
    ensures
        r@ == add_node_spec(seq![a@, b@]),
        r@.wf(),
{
    let mut v: Vec<Basis> = Vec::new();
    v.push(a);
    v.push(b);
    proof {
        lemma_models(v@);
        assert(models(v@) =~= seq![a@, b@]);
    }
    AddBasisNode(v)
}

/// The logarithm of a basis (see `log_spec`).
fn logarithm_rec(basis: &Basis) -> (r: Basis)
    requires
        basis@.wf(),
    ensures
        r@ == log_spec(basis@),
        r@.wf(),
    decreases basis@, 2nat,
{
    match basis {
        Basis::BasisLeaf(leaf) => {
            let c = leaf.coefficient;
            match leaf.element {
                BasisElement::Num => {
                    if c.eq_int(1) {
                        return Basis::of_num(0);
                    }
                    LogBasisNode(&Basis::of_frac(c))
                },
                BasisElement::X => {
                    // log(nx) = log(n) + log(x)
                    sum2(LogBasisNode(&Basis::x()), LogBasisNode(&Basis::of_frac(c)))
                },
                BasisElement::Inf => basis.deep_clone(),
            }
        },
        Basis::BasisNode(node) => {
            let c = node.coefficient;
            proof {
                lemma_models(node.operands@);
            }
            match node.operator {
                BasisOperator::Mult | BasisOperator::Div => {
                    let ops = &node.operands;
                    let ghost s = models(ops@);
                    proof {
                        lemma_log_all(s);
                    }
                    let mut logs: Vec<Basis> = Vec::new();
                    let mut i: usize = 0;
                    while i < ops.len()
                        invariant
                            *basis == Basis::BasisNode(*node),
                            ops == &node.operands,
                            basis@.wf(),
                            s == models(ops@),
                            s.len() == ops@.len(),
                            forall|t: int| 0 <= t < ops@.len() ==> #[trigger] s[t] == ops@[t]@,
                            log_all(s).len() == s.len(),
                            forall|t: int| 0 <= t < s.len() ==> #[trigger] log_all(s)[t] == log_spec(s[t]),
                            i <= ops.len(),
                            models(logs@) == log_all(s).take(i as int),
                            all_wf(models(logs@)),
                        decreases ops.len() - i,
                    {
                        proof {
                            lemma_operand_decreases(*basis, i as int);
                        }
                        let l = logarithm_rec(&ops[i]);
                        proof {
                            lemma_models_push(logs@, l);
                            lemma_models(logs@.push(l));
                            lemma_models(logs@);
                            assert(log_all(s).take(i + 1) =~= log_all(s).take(i as int).push(l@));
                        }
                        logs.push(l);
                        i += 1;
                    }
                    proof {
                        assert(log_all(s).take(ops.len() as int) =~= log_all(s));
                        assert(basis@ == SpecBasis::Node(c, node.operator, s));
                    }
                    if node.operator.same(&BasisOperator::Mult) {
                        // log(xy) = log(x) + log(y)
                        sum2(AddBasisNode(logs), LogBasisNode(&Basis::of_frac(c)))
                    } else {
                        // log(x/y) = log(x) - log(y)
                        sum2(MinusBasisNode(logs), LogBasisNode(&Basis::of_frac(c)))
                    }
                },
                BasisOperator::Pow(p) => {
                    proof {
                        lemma_operand_decreases(*basis, 0);
                    }
                    // log(ax^b) = log(a) + b*log(x)
                    let inner = logarithm_rec(&node.operands[0]);
                    let scaled = inner.scale_int(p.n);
                    sum2(scaled.scale_frac(Fraction { n: 1, d: p.d }), LogBasisNode(&Basis::of_frac(c)))
                },
                BasisOperator::E => {
                    proof {
                        lemma_operand_decreases(*basis, 0);
                    }
                    // log(ae^bx) = bx + log(a)
                    sum2(node.operands[0].deep_clone(), LogBasisNode(&Basis::of_frac(c)))
                },
                _ => LogBasisNode(basis),
            }
        },
    }
}

/// The logarithm of a basis, expanded by the laws of logarithms (see `log_spec`).
pub fn logarithm(basis: &Basis) -> (r: Basis)
    requires
        basis@.wf(),
    ensures
        r@ == log_spec(basis@),
        r@.wf(),
{
    logarithm_rec(basis)
}

} // verus!
