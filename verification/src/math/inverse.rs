use crate::basis::builders::{
    add_node_spec, inv_node_spec, log_node_spec, AddBasisNode, EBasisNode, InvBasisNode,
    LogBasisNode,
};
use crate::basis::product::{
    div_node, div_spec, mul_frac_spec, mult_node, mult_spec, pow_node, pow_spec, BUDGET,
};
use crate::basis::structs::{
    all_wf, arity_ok, lemma_models, lemma_models_push, lemma_operand_decreases,
    lemma_with_frac_wf, models, Basis, BasisElement, BasisOperator, SpecBasis,
};
use crate::math::fraction::Fraction;
use crate::math::gcd::lemma_simplify_lowest_terms;
use vstd::prelude::*;

verus! {

broadcast use vstd::std_specs::vec::group_vec_axioms;

/// Whether the tree is a number leaf.
pub open spec fn is_number(b: SpecBasis) -> bool {
    b is Leaf && b->Leaf_1 == BasisElement::Num
}

/// Whether the basis is a number leaf.
fn is_numeric(b: &Basis) -> (r: bool)
    ensures
        r == is_number(b@),
{
    match b {
        Basis::BasisLeaf(leaf) => leaf.element == BasisElement::Num,
        _ => false,
    }
}

/// The inverse of a one-operand function: e and log, cos and arccos, sin and arcsin,
/// the power n/d and the power d/n; other operators have none.
pub open spec fn operator_inverse_spec(op: BasisOperator) -> Option<BasisOperator> {
    match op {
        BasisOperator::E => Some(BasisOperator::Log),
        BasisOperator::Log => Some(BasisOperator::E),
        BasisOperator::Cos => Some(BasisOperator::Acos),
        BasisOperator::Acos => Some(BasisOperator::Cos),
        BasisOperator::Sin => Some(BasisOperator::Asin),
        BasisOperator::Asin => Some(BasisOperator::Sin),
        BasisOperator::Pow(f) => Some(BasisOperator::Pow(Fraction { n: f.d, d: f.n })),
        _ => None,
    }
}

/// The inverse of a one-operand function (see `operator_inverse_spec`).
fn operator_inverse(operator: BasisOperator) -> (r: Option<BasisOperator>)
    ensures
        r == operator_inverse_spec(operator),
{
    match operator {
        BasisOperator::E => Some(BasisOperator::Log),
        BasisOperator::Log => Some(BasisOperator::E),
        BasisOperator::Cos => Some(BasisOperator::Acos),
        BasisOperator::Acos => Some(BasisOperator::Cos),
        BasisOperator::Sin => Some(BasisOperator::Asin),
        BasisOperator::Asin => Some(BasisOperator::Sin),
        BasisOperator::Pow(f) => Some(BasisOperator::Pow(Fraction { n: f.d, d: f.n })),
        _ => None,
    }
}

/// The number leaves of `s`, in order.
pub open spec fn numbers(s: Seq<SpecBasis>) -> Seq<SpecBasis>
    decreases s.len(),
{
    if s.len() == 0 {
        Seq::empty()
    } else if is_number(s.last()) {
        numbers(s.drop_last()).push(s.last())
    } else {
        numbers(s.drop_last())
    }
}

/// How many trees of `s` are not number leaves.
pub open spec fn count_non_numbers(s: Seq<SpecBasis>) -> nat
    decreases s.len(),
{
    if s.len() == 0 {
        0
    } else {
        count_non_numbers(s.drop_last()) + if is_number(s.last()) { 0nat } else { 1nat }
    }
}

/// The first position of `s` that does not hold a number leaf, or -1.
pub open spec fn first_non_number(s: Seq<SpecBasis>) -> int
    decreases s.len(),
{
    if s.len() == 0 {
        -1
    } else {
        let r = first_non_number(s.drop_last());
        if r >= 0 {
            r
        } else if !is_number(s.last()) {
            s.len() - 1
        } else {
            -1
        }
    }
}

/// `first_non_number` is -1 or a position in range.
pub proof fn lemma_first_non_number(s: Seq<SpecBasis>)
    ensures
        -1 <= first_non_number(s) < s.len(),
        first_non_number(s) >= 0 ==> !is_number(s[first_non_number(s)]),
        count_non_numbers(s) > 0 ==> first_non_number(s) >= 0,
    decreases s.len(),
{
    if s.len() > 0 {
        lemma_first_non_number(s.drop_last());
    }
}

/// One step of undoing a function: a coefficient to divide by, an optional operand, and
/// the operator to undo.
pub type Step = (Fraction, Option<SpecBasis>, BasisOperator);

/// The steps that undo the outermost operator of the node `p`, with the position of
/// the operand that holds the rest; none when the operator cannot be undone. A sum or
/// difference of two terms of which one is a number is undone by subtracting it; an
/// inverse by inverting; a product of numbers and one other factor by dividing by the
/// product of the numbers; a quotient with a number divisor by multiplying by it; a
/// quotient with some other number by a power -1 and a multiplication by its numerator;
/// one-operand functions by their inverse functions.
pub open spec fn plan(p: SpecBasis) -> Option<(Seq<Step>, int)> {
    match p {
        SpecBasis::Leaf(_, _) => None,
        SpecBasis::Node(c, op, ops) => {
            let one = Fraction { n: 1, d: 1 };
            if (op == BasisOperator::Add || op == BasisOperator::Minus) && ops.len() == 2 && (
            is_number(ops[0]) || is_number(ops[1])) {
                if is_number(ops[0]) {
                    Some((seq![(one, Some(ops[0]), op)], 1))
                } else {
                    Some((seq![(one, Some(ops[1]), op)], 0))
                }
            } else if op == BasisOperator::Inv {
                Some((seq![(c, None, op)], 0))
            } else if op == BasisOperator::Mult && numbers(ops).len() > 0 && count_non_numbers(ops)
                == 1 {
                Some(
                    (
                        seq![(one, Some(mult_spec(BUDGET as nat, numbers(ops))), BasisOperator::Div)],
                        first_non_number(ops),
                    ),
                )
            } else if op == BasisOperator::Div && numbers(ops).len() > 0 && ops.len() >= 2 {
                if is_number(ops[1]) {
                    Some((seq![(one, Some(ops[1]), BasisOperator::Mult)], 0))
                } else {
                    Some(
                        (
                            seq![
                                (one, None, BasisOperator::Pow(Fraction { n: -1i32, d: 1 })),
                                (one, Some(ops[0]), BasisOperator::Mult),
                            ],
                            1,
                        ),
                    )
                }
            } else if operator_inverse_spec(op) is Some {
                Some((seq![(c, None, op)], 0))
            } else {
                None
            }
        },
    }
}

/// The steps that lead from `p` down to its innermost argument, outermost first, with
/// that argument; none when some operator on the way cannot be undone (see `plan`).
pub open spec fn drill(p: SpecBasis) -> Option<(Seq<Step>, SpecBasis)>
    decreases p,
{
    match p {
        SpecBasis::Leaf(_, _) => Some((Seq::empty(), p)),
        SpecBasis::Node(_, _, ops) => match plan(p) {
            None => None,
            Some(pl) => if 0 <= pl.1 < ops.len() {
                match drill(ops[pl.1]) {
                    Some(t) => Some((pl.0 + t.0, t.1)),
                    None => None,
                }
            } else {
                None
            },
        },
    }
}

/// Undoes a sum with `b`: subtracts it.
#[verifier::opaque]
pub open spec fn undo_add(o: SpecBasis, b: SpecBasis) -> SpecBasis {
    add_node_spec(seq![o, b.negate()])
}

/// Undoes a product with `b`: divides by it.
#[verifier::opaque]
pub open spec fn undo_mult(o: SpecBasis, b: SpecBasis) -> SpecBasis {
    div_spec(BUDGET as nat, o, b)
}

/// Undoes a quotient by `b`: multiplies by it.
#[verifier::opaque]
pub open spec fn undo_div(o: SpecBasis, b: SpecBasis) -> SpecBasis {
    mult_spec(BUDGET as nat, seq![o, b])
}

/// Undoes the power n/d: raises to d/n.
#[verifier::opaque]
pub open spec fn undo_pow(o: SpecBasis, p: Fraction) -> SpecBasis {
    pow_spec(BUDGET as nat, p.d, p.n, o)
}

/// Undoes one step on `out`: the coefficient divided out first, then the operator
/// undone (an inverse step inverts with budget `f - 1`).
pub open spec fn undo_step(f: nat, out: SpecBasis, s: Step) -> SpecBasis
    decreases f, 0nat, 0nat,
{
    let o = mul_frac_spec(out, Fraction { n: s.0.d, d: s.0.n });
    let b = match s.1 {
        Some(x) => x,
        None => SpecBasis::integer(0),
    };
    match s.2 {
        BasisOperator::Inv => if f == 0 {
            o
        } else {
            inverse_spec((f - 1) as nat, o)
        },
        BasisOperator::Add | BasisOperator::Minus => undo_add(o, b),
        BasisOperator::Div => undo_mult(o, b),
        BasisOperator::Mult => undo_div(o, b),
        BasisOperator::Pow(p) => undo_pow(o, p),
        BasisOperator::Log => SpecBasis::node(BasisOperator::E, seq![o]),
        BasisOperator::E => log_node_spec(o),
        _ => match operator_inverse_spec(s.2) {
            Some(inv) => SpecBasis::node(inv, seq![o]),
            None => o,
        },
    }
}

/// The steps undone one after the other, starting from `out`.
pub open spec fn undo_all(f: nat, out: SpecBasis, steps: Seq<Step>) -> SpecBasis
    decreases f, 0nat, steps.len(),
{
    if steps.len() == 0 {
        out
    } else {
        undo_step(f, undo_all(f, out, steps.drop_last()), steps.last())
    }
}

/// `out` divided by the coefficient `c` of the innermost argument: a log with
/// coefficient 1 takes it in as a power of its argument, log(u)/c = log(u^(1/c));
/// anything else has its coefficient divided.
pub open spec fn divide_out(out: SpecBasis, c: Fraction) -> SpecBasis {
    if out.is_node(BasisOperator::Log) && out.coef() == (Fraction { n: 1, d: 1 }) && out->Node_2.len() > 0 {
        log_node_spec(pow_spec(BUDGET as nat, c.d, c.n, out->Node_2[0]))
    } else {
        mul_frac_spec(out, Fraction { n: c.d, d: c.n })
    }
}

/// The inverse function of `b` with budget `f` for nested inverses: a number is its own
/// inverse, c·x inverts to x/c; otherwise the steps from `b` down to its innermost
/// argument are undone, starting from x, and the result divided by the coefficient of
/// that argument (see `divide_out`); where a step cannot be undone, an inverse node of `b`.
pub open spec fn inverse_spec(f: nat, b: SpecBasis) -> SpecBasis
    decreases f, 1nat, 0nat,
{
    match b {
        SpecBasis::Leaf(c, e) => if e == BasisElement::X {
            mul_frac_spec(b, Fraction { n: c.d, d: c.n })
        } else {
            b
        },
        SpecBasis::Node(_, _, _) => match drill(b) {
            Some(t) => divide_out(undo_all(f, SpecBasis::x(), t.0), t.1.coef()),
            None => inv_node_spec(b),
        },
    }
}

/// A step held in executable form.
pub type StepExec = (Fraction, Option<Basis>, BasisOperator);

/// The step a held step stands for.
pub open spec fn step_view(s: StepExec) -> Step {
    (
        s.0,
        match s.1 {
            Some(b) => Some(b@),
            None => None,
        },
        s.2,
    )
}

/// The steps a vector of held steps stands for.
pub open spec fn steps_view(v: Seq<StepExec>) -> Seq<Step> {
    Seq::new(v.len(), |i: int| step_view(v[i]))
}

/// Whether the operand of every held step is well formed.
pub open spec fn steps_wf(v: Seq<StepExec>) -> bool {
    forall|i: int|
        0 <= i < v.len() ==> match (#[trigger] v[i]).1 {
            Some(b) => b@.wf(),
            None => true,
        }
}

/// A copy of a held step.
fn clone_step(s: &StepExec) -> (r: StepExec)
    ensures
        step_view(r) == step_view(*s),
        (match s.1 {
            Some(b) => b@.wf(),
            None => true,
        }) ==> (match r.1 {
            Some(b) => b@.wf(),
            None => true,
        }),
{
    let b = match &s.1 {
        Some(x) => Some(x.deep_clone()),
        None => None,
    };
    (s.0, b, s.2)
}

/// `first` followed by `rest`.
fn join_steps(first: Vec<StepExec>, rest: &Vec<StepExec>) -> (r: Vec<StepExec>)
    requires
        steps_wf(first@),
        steps_wf(rest@),
    ensures
        steps_view(r@) == steps_view(first@) + steps_view(rest@),
        steps_wf(r@),
{
    let mut out = first;
    let ghost start = out@;
    let mut i: usize = 0;
    while i < rest.len()
        invariant
            i <= rest.len(),
            steps_wf(rest@),
            steps_wf(out@),
            steps_view(out@) == steps_view(start) + steps_view(rest@.take(i as int)),
        decreases rest.len() - i,
    {
        let x = clone_step(&rest[i]);
        proof {
            assert(match rest@[i as int].1 {
                Some(b) => b@.wf(),
                None => true,
            });
        }
        let ghost before = out@;
        out.push(x);
        proof {
            assert(steps_view(out@) =~= steps_view(before).push(step_view(x)));
            assert(steps_view(rest@.take(i + 1)) =~= steps_view(rest@.take(i as int)).push(step_view(rest@[i as int])));
            assert(steps_wf(out@)) by {
                assert forall|k: int| 0 <= k < out@.len() implies match (#[trigger] out@[k]).1 {
                    Some(b) => b@.wf(),
                    None => true,
                } by {
                    if k < before.len() {
                        assert(out@[k] == before[k]);
                    }
                }
            }
        }
        i += 1;
    }
    proof {
        assert(rest@.take(rest.len() as int) =~= rest@);
    }
    out
}

/// The number leaves of `ops`, how many are not numbers, and where the first of those is
/// (see `numbers`, `count_non_numbers`, `first_non_number`).
fn split_numbers(ops: &Vec<Basis>) -> (r: (Vec<Basis>, usize, Option<usize>))
    requires
        all_wf(models(ops@)),
    ensures
        models(r.0@) == numbers(models(ops@)),
        all_wf(models(r.0@)),
        r.1 == count_non_numbers(models(ops@)),
        match r.2 {
            Some(j) => j == first_non_number(models(ops@)),
            None => first_non_number(models(ops@)) == -1,
        },
{
    let ghost s = models(ops@);
    proof {
        lemma_models(ops@);
    }
    let mut nums: Vec<Basis> = Vec::new();
    let mut count: usize = 0;
    let mut first: Option<usize> = None;
    let mut i: usize = 0;
    proof {
        lemma_models(nums@);
        assert(s.take(0) =~= Seq::<SpecBasis>::empty());
    }
    while i < ops.len()
        invariant
            s == models(ops@),
            s.len() == ops@.len(),
            forall|t: int| 0 <= t < ops@.len() ==> #[trigger] s[t] == ops@[t]@,
            all_wf(s),
            i <= ops.len(),
            count <= i,
            models(nums@) == numbers(s.take(i as int)),
            all_wf(models(nums@)),
            count == count_non_numbers(s.take(i as int)),
            match first {
                Some(j) => j == first_non_number(s.take(i as int)),
                None => first_non_number(s.take(i as int)) == -1,
            },
        decreases ops.len() - i,
    {
        proof {
            assert(s.take(i + 1).drop_last() =~= s.take(i as int));
            assert(s.take(i + 1).last() == s[i as int]);
            assert(s[i as int].wf());
            lemma_first_non_number(s.take(i as int));
        }
        if is_numeric(&ops[i]) {
            let c = ops[i].deep_clone();
            proof {
                lemma_models_push(nums@, c);
                lemma_models(nums@.push(c));
                lemma_models(nums@);
            }
            nums.push(c);
        } else {
            count += 1;
            if first.is_none() {
                first = Some(i);
            }
        }
        i += 1;
    }
    proof {
        assert(s.take(ops.len() as int) =~= s);
    }
    (nums, count, first)
}

/// A one-step list.
fn single_step(s: StepExec) -> (r: Vec<StepExec>)
    requires
        match s.1 {
            Some(b) => b@.wf(),
            None => true,
        },
    ensures
        steps_view(r@) == seq![step_view(s)],
        steps_wf(r@),
{
    let mut v: Vec<StepExec> = Vec::new();
    v.push(s);
    proof {
        assert(steps_view(v@) =~= seq![step_view(s)]);
    }
    v
}

/// The steps that undo the outermost operator of a node, with the operand that holds
/// the rest (see `plan`).
fn plan_exec(p: &Basis) -> (r: Option<(Vec<StepExec>, usize)>)
    requires
        p@.wf(),
        p@ is Node,
    ensures
        match plan(p@) {
            Some(t) => r matches Some(u) && steps_view(u.0@) == t.0 && u.1 as int == t.1 && steps_wf(u.0@),
            None => r is None,
        },
{
    match p {
        Basis::BasisNode(node) => {
            let ops = &node.operands;
            proof {
                lemma_models(ops@);
            }
            let one = Fraction { n: 1, d: 1 };
            let op = node.operator;
            if (op.same(&BasisOperator::Add) || op.same(&BasisOperator::Minus)) && ops.len() == 2 && (
            is_numeric(&ops[0]) || is_numeric(&ops[1])) {
                proof {
                    lemma_operand_decreases(*p, 0);
                    lemma_operand_decreases(*p, 1);
                }
                if is_numeric(&ops[0]) {
                    return Some((single_step((one, Some(ops[0].deep_clone()), op)), 1));
                } else {
                    return Some((single_step((one, Some(ops[1].deep_clone()), op)), 0));
                }
            }
            if op.same(&BasisOperator::Inv) {
                return Some((single_step((node.coefficient, None, op)), 0));
            }
            proof {
                assert(all_wf(models(ops@))) by {
                    assert forall|k: int| 0 <= k < models(ops@).len() implies (#[trigger] models(ops@)[k]).wf() by {
                        lemma_operand_decreases(*p, k);
                    }
                }
            }
            let (nums, count, first) = split_numbers(ops);
            if op.same(&BasisOperator::Mult) && nums.len() > 0 && count == 1 {
                proof {
                    lemma_first_non_number(models(ops@));
                }
                let i = match first {
                    Some(j) => j,
                    None => 0,
                };
                let m = mult_node(BUDGET, &nums);
                return Some((single_step((one, Some(m), BasisOperator::Div)), i));
            }
            if op.same(&BasisOperator::Div) && nums.len() > 0 && ops.len() >= 2 {
                proof {
                    lemma_operand_decreases(*p, 0);
                    lemma_operand_decreases(*p, 1);
                }
                if is_numeric(&ops[1]) {
                    return Some((single_step((one, Some(ops[1].deep_clone()), BasisOperator::Mult)), 0));
                }
                let v1 = single_step((one, None, BasisOperator::Pow(Fraction { n: -1, d: 1 })));
                let v2 = single_step((one, Some(ops[0].deep_clone()), BasisOperator::Mult));
                let v = join_steps(v1, &v2);
                proof {
                    assert(steps_view(v@) =~= seq![
                        (one, None, BasisOperator::Pow(Fraction { n: -1i32, d: 1 })),
                        (one, Some(ops@[0]@), BasisOperator::Mult),
                    ]);
                }
                return Some((v, 1));
            }
            if operator_inverse(op).is_some() {
                return Some((single_step((node.coefficient, None, op)), 0));
            }
            None
        },
        _ => None,
    }
}

/// The steps from `p` down to its innermost argument (see `drill`).
fn drill_exec(p: &Basis) -> (r: Option<(Vec<StepExec>, Basis)>)
    requires
        p@.wf(),
    ensures
        match drill(p@) {
            Some(t) => r matches Some(u) && steps_view(u.0@) == t.0 && u.1@ == t.1 && steps_wf(u.0@)
                && t.1.wf(),
            None => r is None,
        },
    decreases p@,
{
    match p {
        Basis::BasisLeaf(_) => {
            let v: Vec<StepExec> = Vec::new();
            proof {
                assert(steps_view(v@) =~= Seq::<Step>::empty());
            }
            Some((v, p.deep_clone()))
        },
        Basis::BasisNode(node) => {
            let ops = &node.operands;
            proof {
                lemma_models(ops@);
            }
            match plan_exec(p) {
                None => None,
                Some(pl) => {
                    let i = pl.1;
                    if i >= ops.len() {
                        return None;
                    }
                    proof {
                        lemma_operand_decreases(*p, i as int);
                    }
                    match drill_exec(&ops[i]) {
                        Some(t) => Some((join_steps(pl.0, &t.0), t.1)),
                        None => None,
                    }
                },
            }
        },
    }
}

/// Subtracts `b` (see `undo_add`).
fn undo_add_exec(o: Basis, b: Basis) -> (r: Basis)
    requires
        o@.wf(),
        b@.wf(),
    ensures
        r@ == undo_add(o@, b@),
        r@.wf(),
{
    proof {
        reveal(undo_add);
    }
    let nb = b.negated();
    proof {
        lemma_with_frac_wf(b@, b@.coef().times_spec(-1i32, 1));
    }
    let mut v: Vec<Basis> = Vec::new();
    v.push(o);
    v.push(nb);
    proof {
        lemma_models(v@);
        assert(models(v@) =~= seq![o@, nb@]);
    }
    AddBasisNode(v)
}

/// Divides by `b` (see `undo_mult`).
fn undo_mult_exec(o: Basis, b: Basis) -> (r: Basis)
    requires
        o@.wf(),
        b@.wf(),
    ensures
        r@ == undo_mult(o@, b@),
        r@.wf(),
{
    proof {
        reveal(undo_mult);
    }
    div_node(BUDGET, &o, &b)
}

/// Multiplies by `b` (see `undo_div`).
fn undo_div_exec(o: Basis, b: Basis) -> (r: Basis)
    requires
        o@.wf(),
        b@.wf(),
    ensures
        r@ == undo_div(o@, b@),
        r@.wf(),
{
    proof {
        reveal(undo_div);
    }
    let mut v: Vec<Basis> = Vec::new();
    v.push(o);
    v.push(b);
    proof {
        lemma_models(v@);
        assert(models(v@) =~= seq![o@, b@]);
    }
    mult_node(BUDGET, &v)
}

/// Raises to the reciprocal power (see `undo_pow`).
fn undo_pow_exec(o: Basis, p: Fraction) -> (r: Basis)
    requires
        o@.wf(),
    ensures
        r@ == undo_pow(o@, p),
        r@.wf(),
{
    proof {
        reveal(undo_pow);
    }
    pow_node(BUDGET, p.d, p.n, &o)
}

/// Undoes one held step on `out` (see `undo_step`).
fn undo(f: u32, out: Basis, s: &StepExec) -> (r: Basis)
    requires
        out@.wf(),
        match s.1 {
            Some(b) => b@.wf(),
            None => true,
        },
    ensures
        r@ == undo_step(f as nat, out@, step_view(*s)),
        r@.wf(),
    decreases f, 0int,
{
    let o = out.scale_frac(Fraction { n: s.0.d, d: s.0.n });
    let b = match &s.1 {
        Some(x) => x.deep_clone(),
        None => Basis::of_num(0),
    };
    match s.2 {
        BasisOperator::Inv => {
            if f == 0 {
                o
            } else {
                inverse_node(f - 1, &o)
            }
        },
        BasisOperator::Add | BasisOperator::Minus => undo_add_exec(o, b),
        BasisOperator::Div => undo_mult_exec(o, b),
        BasisOperator::Mult => undo_div_exec(o, b),
        BasisOperator::Pow(p) => undo_pow_exec(o, p),
        BasisOperator::Log => EBasisNode(&o),
        BasisOperator::E => LogBasisNode(&o),
        _ => match operator_inverse(s.2) {
            Some(inv) => {
                let r = Basis::unary(inv, o);
                proof {
                    assert(seq![o@][0].wf());
                    assert(arity_ok(inv, 1));
                }
                r
            },
            None => o,
        },
    }
}

/// `out` divided by a coefficient (see `divide_out`).
fn divide_out_exec(out: Basis, c: Fraction) -> (r: Basis)
    requires
        out@.wf(),
    ensures
        r@ == divide_out(out@, c),
        r@.wf(),
{
    match &out {
        Basis::BasisNode(node) => {
            proof {
                lemma_models(node.operands@);
            }
            if node.operator.same(&BasisOperator::Log) && node.coefficient.n == 1 && node.coefficient.d == 1
                && node.operands.len() > 0 {
                proof {
                    lemma_operand_decreases(out, 0);
                }
                let raised = pow_node(BUDGET, c.d, c.n, &node.operands[0]);
                return LogBasisNode(&raised);
            }
        },
        _ => {},
    }
    out.scale_frac(Fraction { n: c.d, d: c.n })
}

/// The inverse function of `basis` with budget `f` (see `inverse_spec`).
fn inverse_node(f: u32, basis: &Basis) -> (r: Basis)
    requires
        basis@.wf(),
    ensures
        r@ == inverse_spec(f as nat, basis@),
        r@.wf(),
    decreases f, 1int,
{
    match basis {
        Basis::BasisLeaf(leaf) => {
            if leaf.element == BasisElement::X {
                let c = leaf.coefficient;
                return basis.scale_frac(Fraction { n: c.d, d: c.n });
            }
            return basis.deep_clone();
        },
        _ => {},
    }
    match drill_exec(basis) {
        Some(t) => {
            let steps = t.0;
            let ptr = t.1;
            let ghost sv = steps_view(steps@);
            // apply the steps in order, each undone
            let mut out = Basis::x();
            let mut i: usize = 0;
            proof {
                assert(sv.take(0) =~= Seq::<Step>::empty());
            }
            while i < steps.len()
                invariant
                    i <= steps.len(),
                    sv == steps_view(steps@),
                    steps_wf(steps@),
                    out@ == undo_all(f as nat, SpecBasis::x(), sv.take(i as int)),
                    out@.wf(),
                decreases steps.len() - i,
            {
                proof {
                    assert(sv.take(i + 1).drop_last() =~= sv.take(i as int));
                    assert(sv.take(i + 1).last() == step_view(steps@[i as int]));
                    assert(match steps@[i as int].1 {
                        Some(b) => b@.wf(),
                        None => true,
                    });
                }
                out = undo(f, out, &steps[i]);
                i += 1;
            }
            proof {
                assert(sv.take(steps.len() as int) =~= sv);
            }
            divide_out_exec(out, ptr.coefficient())
        },
        None => InvBasisNode(basis),
    }
}

/// The inverse function of `basis`: the operators from the outside in are undone,
/// starting from x (see `inverse_spec`); where one cannot be undone, an inverse node.
pub fn inverse(basis: &Basis) -> (r: Basis)
    requires
        basis@.wf(),
    ensures
        r@ == inverse_spec(BUDGET as nat, basis@),
        r@.wf(),
{
    inverse_node(BUDGET, basis)
}


/// Whether `op` is one of the functions e, log, cos, sin, arccos and arcsin.
pub open spec fn invertible_function(op: BasisOperator) -> bool {
    ||| op == BasisOperator::E
    ||| op == BasisOperator::Log
    ||| op == BasisOperator::Cos
    ||| op == BasisOperator::Sin
    ||| op == BasisOperator::Acos
    ||| op == BasisOperator::Asin
}

/// The inverse function of `op` (see `operator_inverse_spec`), or `op` where it has none.
pub open spec fn inverse_function(op: BasisOperator) -> BasisOperator {
    match operator_inverse_spec(op) {
        Some(inv) => inv,
        None => op,
    }
}

/// The functions of `ops` applied to x, the first outermost: f1(f2(...fk(x))).
pub open spec fn chain(ops: Seq<BasisOperator>) -> SpecBasis
    decreases ops.len(),
{
    if ops.len() == 0 {
        SpecBasis::x()
    } else {
        SpecBasis::node(ops[0], seq![chain(ops.drop_first())])
    }
}

/// The inverse functions of `ops` in the reverse order.
pub open spec fn inverse_chain(ops: Seq<BasisOperator>) -> Seq<BasisOperator> {
    Seq::new(ops.len(), |i: int| inverse_function(ops[ops.len() - 1 - i]))
}

/// Whether no log stands directly around an e in `ops` (which `LogBasisNode` never
/// leaves, since log(e^g) is g).
pub open spec fn no_log_of_exp(ops: Seq<BasisOperator>) -> bool {
    forall|i: int|
        0 <= i < ops.len() - 1 ==> !(#[trigger] ops[i] == BasisOperator::Log && ops[i + 1]
            == BasisOperator::E)
}

/// The steps that undo a chain of functions, outermost first.
spec fn chain_steps(ops: Seq<BasisOperator>) -> Seq<Step> {
    Seq::new(ops.len(), |i: int| (Fraction { n: 1, d: 1 }, None::<SpecBasis>, ops[i]))
}

/// Scaling a tree whose coefficient is 1 by 1 leaves it as it is, outside sums and
/// differences.
proof fn lemma_times_one(b: SpecBasis)
    requires
        b.coef() == (Fraction { n: 1, d: 1 }),
        !b.is_node(BasisOperator::Add),
        !b.is_node(BasisOperator::Minus),
    ensures
        mul_frac_spec(b, Fraction { n: 1, d: 1 }) == b,
{
    let one = Fraction { n: 1, d: 1 };
    assert(one.gcd_spec() == 1) by {
        reveal_with_fuel(crate::math::fraction::euclid, 3);
    }
    assert(one.times_spec(1, 1) == one);
}

/// Drilling into a chain of invertible functions finds one step per function and x.
proof fn lemma_drill_chain(ops: Seq<BasisOperator>)
    requires
        forall|i: int| 0 <= i < ops.len() ==> invertible_function(#[trigger] ops[i]),
    ensures
        drill(chain(ops)) == Some((chain_steps(ops), SpecBasis::x())),
    decreases ops.len(),
{
    if ops.len() == 0 {
        assert(chain_steps(ops) =~= Seq::<Step>::empty());
    } else {
        let one = Fraction { n: 1, d: 1 };
        let rest = ops.drop_first();
        assert forall|i: int| 0 <= i < rest.len() implies invertible_function(#[trigger] rest[i]) by {
            assert(rest[i] == ops[i + 1]);
        }
        lemma_drill_chain(rest);
        let p = chain(ops);
        assert(invertible_function(ops[0]));
        assert(p == SpecBasis::node(ops[0], seq![chain(rest)]));
        assert(plan(p) == Some((seq![(one, None::<SpecBasis>, ops[0])], 0int)));
        assert(seq![(one, None::<SpecBasis>, ops[0])] + chain_steps(rest) =~= chain_steps(ops));
    }
}

/// Undoing the steps of a chain, starting from x, gives the chain of the inverse
/// functions in the reverse order.
proof fn lemma_undo_chain(f: nat, ops: Seq<BasisOperator>)
    requires
        forall|i: int| 0 <= i < ops.len() ==> invertible_function(#[trigger] ops[i]),
        no_log_of_exp(ops),
    ensures
        undo_all(f, SpecBasis::x(), chain_steps(ops)) == chain(inverse_chain(ops)),
    decreases ops.len(),
{
    let one = Fraction { n: 1, d: 1 };
    if ops.len() == 0 {
        assert(inverse_chain(ops) =~= Seq::<BasisOperator>::empty());
        assert(chain_steps(ops) =~= Seq::<Step>::empty());
    } else {
        let n = ops.len();
        let init = ops.drop_last();
        let last = ops.last();
        assert(forall|i: int| 0 <= i < init.len() ==> #[trigger] init[i] == ops[i]);
        assert(chain_steps(ops).drop_last() =~= chain_steps(init));
        assert(no_log_of_exp(init)) by {
            assert forall|i: int| 0 <= i < init.len() - 1 implies !(#[trigger] init[i]
                == BasisOperator::Log && init[i + 1] == BasisOperator::E) by {
                assert(init[i] == ops[i] && init[i + 1] == ops[i + 1]);
            }
        }
        lemma_undo_chain(f, init);
        let inv = inverse_chain(ops);
        let out = chain(inverse_chain(init));
        assert(inv.drop_first() =~= inverse_chain(init));
        assert(inv[0] == inverse_function(last));
        assert(invertible_function(last));
        assert(chain(inv) == SpecBasis::node(inverse_function(last), seq![out]));
        assert(out.coef() == one);
        assert(!out.is_node(BasisOperator::Add) && !out.is_node(BasisOperator::Minus)) by {
            if init.len() > 0 {
                assert(inverse_chain(init)[0] == inverse_function(init[init.len() - 1]));
                assert(invertible_function(init[init.len() - 1]));
            }
        }
        lemma_times_one(out);
        let step = chain_steps(ops).last();
        assert(step == (one, None::<SpecBasis>, last));
        assert(undo_all(f, SpecBasis::x(), chain_steps(ops)) == undo_step(f, out, step));
        if last == BasisOperator::E {
            // the step before undoes no log, so `out` is no e
            if init.len() > 0 {
                assert(ops[n - 2] == init[init.len() - 1]);
                assert(!(ops[n - 2] == BasisOperator::Log && ops[n - 1] == BasisOperator::E));
                assert(inverse_chain(init)[0] == inverse_function(init[init.len() - 1]));
                assert(invertible_function(init[init.len() - 1]));
            }
            assert(!out.is_node(BasisOperator::E));
            assert(log_node_spec(out) == SpecBasis::node(BasisOperator::Log, seq![out]));
        }
    }
}

/// Dividing the chain of inverse functions by 1 leaves it as it is.
proof fn lemma_divide_out_chain(ops: Seq<BasisOperator>)
    requires
        ops.len() > 0,
        forall|i: int| 0 <= i < ops.len() ==> invertible_function(#[trigger] ops[i]),
        no_log_of_exp(ops),
    ensures
        divide_out(chain(inverse_chain(ops)), Fraction { n: 1, d: 1 }) == chain(inverse_chain(ops)),
{
    let one = Fraction { n: 1, d: 1 };
    let n = ops.len();
    let inv = inverse_chain(ops);
    let out = chain(inv);
    assert(inv[0] == inverse_function(ops[n - 1]));
    assert(invertible_function(ops[n - 1]));
    assert(out == SpecBasis::node(inv[0], seq![chain(inv.drop_first())]));
    if out.is_node(BasisOperator::Log) {
        // log(u) divided by 1 is log(u^1) = log(u), u being no e
        let u = chain(inv.drop_first());
        assert(ops[n - 1] == BasisOperator::E);
        if n > 1 {
            assert(!(ops[n - 2] == BasisOperator::Log && ops[n - 1] == BasisOperator::E));
            assert(inv.drop_first()[0] == inverse_function(ops[n - 2]));
            assert(invertible_function(ops[n - 2]));
        }
        assert(one.gcd_spec() == 1) by {
            reveal_with_fuel(crate::math::fraction::euclid, 3);
        }
        assert(pow_spec(BUDGET as nat, 1, 1, u) == u);
        assert(!u.is_node(BasisOperator::E));
        assert(log_node_spec(u) == out);
    } else {
        lemma_times_one(out);
    }
}

/// The inverse of a chain of the functions e, log, cos, sin, arccos and arcsin applied
/// to x is the chain of their inverse functions in the reverse order.
pub proof fn lemma_inverse_of_chain(ops: Seq<BasisOperator>)
    requires
        forall|i: int| 0 <= i < ops.len() ==> invertible_function(#[trigger] ops[i]),
        no_log_of_exp(ops),
    ensures
        inverse_spec(BUDGET as nat, chain(ops)) == chain(inverse_chain(ops)),
{
    if ops.len() == 0 {
        assert(inverse_chain(ops) =~= Seq::<BasisOperator>::empty());
        lemma_times_one(SpecBasis::x());
    } else {
        lemma_drill_chain(ops);
        lemma_undo_chain(BUDGET as nat, ops);
        lemma_divide_out_chain(ops);
        assert(invertible_function(ops[0]));
        assert(chain(ops) is Node);
    }
}

/// The inverse chain is again a chain of invertible functions with no log around an e,
/// and inverting it once more gives the chain back.
proof fn lemma_inverse_chain_inverts(ops: Seq<BasisOperator>)
    requires
        forall|i: int| 0 <= i < ops.len() ==> invertible_function(#[trigger] ops[i]),
        no_log_of_exp(ops),
    ensures
        forall|i: int| 0 <= i < inverse_chain(ops).len() ==> invertible_function(#[trigger] inverse_chain(ops)[i]),
        no_log_of_exp(inverse_chain(ops)),
        inverse_chain(inverse_chain(ops)) == ops,
{
    let n = ops.len();
    let inv = inverse_chain(ops);
    assert forall|i: int| 0 <= i < inv.len() implies invertible_function(#[trigger] inv[i]) by {
        assert(invertible_function(ops[n - 1 - i]));
    }
    assert forall|i: int| 0 <= i < inv.len() - 1 implies !(#[trigger] inv[i]
        == BasisOperator::Log && inv[i + 1] == BasisOperator::E) by {
        let j = n - 2 - i;
        assert(invertible_function(ops[j]) && invertible_function(ops[j + 1]));
        assert(inv[i] == inverse_function(ops[j + 1]));
        assert(inv[i + 1] == inverse_function(ops[j]));
        assert(!(ops[j] == BasisOperator::Log && ops[j + 1] == BasisOperator::E));
    }
    assert forall|i: int| 0 <= i < n implies #[trigger] inverse_chain(inv)[i] == ops[i] by {
        assert(invertible_function(ops[i]));
        assert(inv[n - 1 - i] == inverse_function(ops[i]));
    }
    assert(inverse_chain(inv) =~= ops);
}

/// Inverting twice gives back a chain of the functions e, log, cos, sin, arccos and
/// arcsin applied to x.
pub proof fn lemma_inverse_twice(ops: Seq<BasisOperator>)
    requires
        forall|i: int| 0 <= i < ops.len() ==> invertible_function(#[trigger] ops[i]),
        no_log_of_exp(ops),
    ensures
        inverse_spec(BUDGET as nat, inverse_spec(BUDGET as nat, chain(ops))) == chain(ops),
{
    lemma_inverse_chain_inverts(ops);
    lemma_inverse_of_chain(ops);
    lemma_inverse_of_chain(inverse_chain(ops));
}


/// The inverse of c·g(k·x), for a nonzero c and k and g one of e, log, cos, sin, arccos
/// and arcsin, is g⁻¹(x/c)/k: the inverse function applied to an x whose coefficient
/// times c is 1, itself with a coefficient whose product with k is 1 (for e, whose
/// inverse is a log, k is 1). So inverse(c·e^x) = log(x/c) and inverse(c·sin x) =
/// arcsin(x/c).
pub proof fn lemma_inverse_of_scaled_function(c: Fraction, op: BasisOperator, k: Fraction)
    requires
        invertible_function(op),
        c.n != 0,
        c.n != i32::MIN,
        c.d != i32::MIN,
        k.n != 0,
        k.n != i32::MIN,
        k.d != i32::MIN,
        op == BasisOperator::E ==> k == (Fraction { n: 1, d: 1 }),
    ensures
        ({
            let r = inverse_spec(
                BUDGET as nat,
                SpecBasis::Node(c, op, seq![SpecBasis::Leaf(k, BasisElement::X)]),
            );
            &&& r is Node
            &&& r->Node_1 == inverse_function(op)
            &&& r->Node_2.len() == 1
            &&& r->Node_2[0].is_x()
            &&& r->Node_2[0].coef().d > 0
            &&& r->Node_2[0].coef().n * c.n == r->Node_2[0].coef().d * c.d
            &&& r.coef().n * k.n == r.coef().d * k.d
        }),
{
    let o = lemma_undo_scaled_step(c, op, k);
    lemma_divide_out_scaled(o, op, k);
}

/// Dividing g⁻¹(o) by k, for an x leaf o: the same node with a coefficient whose product
/// with k is 1 (for e, whose inverse is a log, k is 1 and the node stays as it is).
proof fn lemma_divide_out_scaled(o: SpecBasis, op: BasisOperator, k: Fraction)
    requires
        o.is_x(),
        invertible_function(op),
        k.n != 0,
        k.n != i32::MIN,
        k.d != i32::MIN,
        op == BasisOperator::E ==> k == (Fraction { n: 1, d: 1 }),
    ensures
        ({
            let r = divide_out(SpecBasis::node(inverse_function(op), seq![o]), k);
            &&& r == SpecBasis::Node(r.coef(), inverse_function(op), seq![o])
            &&& r.coef().n * k.n == r.coef().d * k.d
        }),
{
    let one = Fraction { n: 1, d: 1 };
    let out = SpecBasis::node(inverse_function(op), seq![o]);
    if op == BasisOperator::E {
        assert(one.gcd_spec() == 1) by {
            reveal_with_fuel(crate::math::fraction::euclid, 3);
        }
        assert(pow_spec(BUDGET as nat, 1, 1, o) == o);
        assert(divide_out(out, k) == out);
    } else {
        let kinv = Fraction { n: k.d, d: k.n };
        lemma_simplify_lowest_terms(kinv);
        assert(wrap32_id(k.d) && wrap32_id(k.n));
        assert(one.times_spec(k.d, k.n) == kinv.reduce_spec());
        assert(divide_out(out, k) == SpecBasis::Node(kinv.reduce_spec(), inverse_function(op), seq![o]));
    }
}

/// Inverting c·g(k·x) undoes g on x divided by c, then divides by k (see `divide_out`).
#[verifier::rlimit(50)]
proof fn lemma_undo_scaled_step(c: Fraction, op: BasisOperator, k: Fraction) -> (o: SpecBasis)
    requires
        invertible_function(op),
        c.n != 0,
        c.n != i32::MIN,
        c.d != i32::MIN,
    ensures
        o.is_x(),
        o.coef().d > 0,
        o.coef().n * c.n == o.coef().d * c.d,
        inverse_spec(BUDGET as nat, SpecBasis::Node(c, op, seq![SpecBasis::Leaf(k, BasisElement::X)]))
            == divide_out(SpecBasis::node(inverse_function(op), seq![o]), k),
{
    let one = Fraction { n: 1, d: 1 };
    let x = SpecBasis::x();
    let g = SpecBasis::Leaf(k, BasisElement::X);
    let b = SpecBasis::Node(c, op, seq![g]);
    let step: Step = (c, None, op);
    // drilling finds one step and the argument k·x
    assert(plan(b) == Some((seq![step], 0int)));
    assert(drill(g) == Some((Seq::<Step>::empty(), g)));
    assert(seq![step] + Seq::<Step>::empty() =~= seq![step]);
    assert(drill(b) == Some((seq![step], g)));
    // undoing the step divides x by c first
    let cinv = Fraction { n: c.d, d: c.n };
    lemma_simplify_lowest_terms(cinv);
    let rc = cinv.reduce_spec();
    assert(wrap32_id(c.d) && wrap32_id(c.n));
    assert(one.times_spec(c.d, c.n) == rc);
    let o = SpecBasis::Leaf(rc, BasisElement::X);
    assert(mul_frac_spec(x, cinv) == o);
    assert(seq![step].drop_last() =~= Seq::<Step>::empty());
    assert(undo_all(BUDGET as nat, x, seq![step]) == undo_step(BUDGET as nat, x, step));
    let out = SpecBasis::node(inverse_function(op), seq![o]);
    assert(undo_step(BUDGET as nat, x, step) == out);
    o
}

/// Multiplying by 1 leaves a 32-bit integer as it is.
spec fn wrap32_id(v: i32) -> bool {
    crate::math::fraction::wrap32(1 * v) == v && crate::math::fraction::wrap32(v * 1) == v
}

} // verus!
