use crate::basis::builders::{add_node_spec, AddBasisNode};
use crate::basis::product::{mul_frac_spec, mult_node, mult_spec, pow_node, pow_spec, BUDGET};
use crate::basis::structs::{
    all_wf, lemma_models, lemma_models_push, lemma_operand_decreases, models, Basis, BasisElement,
    BasisOperator, SpecBasis,
};
use crate::cards::LimitCard;
use crate::math::fraction::Fraction;
use vstd::prelude::*;

verus! {

broadcast use vstd::std_specs::vec::group_vec_axioms;

/// The view of an optional basis.
pub open spec fn opt_view(o: Option<Basis>) -> Option<SpecBasis> {
    match o {
        Some(b) => Some(b@),
        None => None,
    }
}

/// The limit of x: 0 at 0, ∞ towards +∞ (and for liminf and limsup), -∞ towards -∞.
pub open spec fn x_limit(card: LimitCard) -> SpecBasis {
    match card {
        LimitCard::Lim0 => SpecBasis::integer(0),
        LimitCard::LimNegInf => SpecBasis::inf(-1i32),
        _ => SpecBasis::inf(1),
    }
}

/// The limit of arccos or arcsin whose argument is `operand` with limit `operand_limit`,
/// counted in units that make the maximum 1: limsup is 1; liminf of arccos of a cosine
/// is 0 and of arcsin of a sine 1; at an argument limit 0, arccos of a cosine is 1 and
/// arcsin of a sine 0; arccos of a cosine at -∞ is 0; otherwise 1.
pub open spec fn arc_limit(card: LimitCard, operand: SpecBasis, operand_limit: SpecBasis) -> SpecBasis {
    if card == LimitCard::Limsup {
        SpecBasis::integer(1)
    } else if card == LimitCard::Liminf && operand.is_node(BasisOperator::Cos) {
        SpecBasis::integer(0)
    } else if card == LimitCard::Liminf && operand.is_node(BasisOperator::Sin) {
        SpecBasis::integer(1)
    } else if operand_limit.is_num(0) && operand.is_node(BasisOperator::Cos) {
        SpecBasis::integer(1)
    } else if operand_limit.is_num(0) && operand.is_node(BasisOperator::Sin) {
        SpecBasis::integer(0)
    } else if operand_limit.is_inf(-1i32) && operand.is_node(BasisOperator::Cos) {
        SpecBasis::integer(0)
    } else {
        SpecBasis::integer(1)
    }
}

/// Whether a limit decides a sum or product by itself: an infinity, or zero in a product.
pub open spec fn is_extreme(l: SpecBasis, mult: bool) -> bool {
    l.is_inf(1) || l.is_inf(-1i32) || (mult && l.is_num(0))
}

/// The first position of a deciding limit in `lims` (see `is_extreme`), or -1.
pub open spec fn first_extreme(lims: Seq<SpecBasis>, mult: bool) -> int
    decreases lims.len(),
{
    if lims.len() == 0 {
        -1
    } else {
        let r = first_extreme(lims.drop_last(), mult);
        if r >= 0 {
            r
        } else if is_extreme(lims.last(), mult) {
            lims.len() - 1
        } else {
            -1
        }
    }
}

/// The values of a sequence of options, each assumed present.
pub open spec fn unwrap_all(s: Seq<Option<SpecBasis>>) -> Seq<SpecBasis>
    decreases s.len(),
{
    if s.len() == 0 {
        Seq::empty()
    } else {
        unwrap_all(s.drop_last()).push(s.last()->0)
    }
}

/// `unwrap_all` takes each value.
pub proof fn lemma_unwrap_all(s: Seq<Option<SpecBasis>>)
    ensures
        unwrap_all(s).len() == s.len(),
        forall|i: int| 0 <= i < s.len() ==> #[trigger] unwrap_all(s)[i] == s[i]->0,
    decreases s.len(),
{
    if s.len() > 0 {
        lemma_unwrap_all(s.drop_last());
    }
}

/// The limit of a sum, difference or product with coefficient `c`, given the limits of
/// its terms: undefined if one is; the first infinite limit (or zero factor) decides;
/// otherwise the product or sum of the limits times `c`. A difference has no rule and
/// fails (`None`).
pub open spec fn terms_limit(op: BasisOperator, c: Fraction, lims: Seq<Option<SpecBasis>>) -> Option<Option<SpecBasis>> {
    if exists|i: int| 0 <= i < lims.len() && (#[trigger] lims[i]) is None {
        Some(None)
    } else {
        let ls = unwrap_all(lims);
        let k = first_extreme(ls, op == BasisOperator::Mult);
        if 0 <= k < ls.len() {
            Some(Some(ls[k]))
        } else if op == BasisOperator::Mult {
            Some(Some(mul_frac_spec(mult_spec(BUDGET as nat, ls), c)))
        } else if op == BasisOperator::Add {
            Some(Some(mul_frac_spec(add_node_spec(ls), c)))
        } else {
            None
        }
    }
}

/// The limit of c·a/b given the limits of a (`bl`) and b (`dl`, which must exist): a
/// zero denominator is undefined, an infinite one gives 0; then an undefined numerator is
/// undefined, a numerator limit -∞ or 0 is the limit; otherwise the number
/// c·coef(a limit)/coef(b limit).
pub open spec fn div_limit(c: Fraction, bl: Option<SpecBasis>, dl: Option<SpecBasis>) -> Option<Option<SpecBasis>> {
    match dl {
        None => None,
        Some(d) => if d.is_num(0) {
            Some(None)
        } else if d.is_inf(1) || d.is_inf(-1i32) {
            Some(Some(SpecBasis::integer(0)))
        } else {
            match bl {
                None => Some(None),
                Some(b) => if b.is_inf(-1i32) || b.is_num(0) {
                    Some(bl)
                } else {
                    Some(
                        Some(
                            SpecBasis::num(
                                c.times_spec(b.coef().n, b.coef().d).times_spec(d.coef().d, d.coef().n),
                            ),
                        ),
                    )
                },
            }
        },
    }
}

/// The limit of c·op(g) for a one-operand function, given the limit `bl` of g (the
/// argument of arccos and arcsin is `g`). A power of a zero limit with a negative
/// exponent is undefined, of an infinite one raised, otherwise c; e of ±∞ is ∞ and 0,
/// otherwise c; log of -∞ is undefined, of ∞ is ∞, of 0 is -∞, otherwise c; cos and
/// sin towards ±∞ are undefined, their liminf and limsup are c (the amplitude), at 0 sin
/// of a zero limit is 0 and otherwise c (the limit of the argument must exist there);
/// arccos and arcsin by `arc_limit`; an integral 0; an inverse function cannot be taken.
pub open spec fn unary_limit(card: LimitCard, op: BasisOperator, c: Fraction, g: SpecBasis, bl: Option<SpecBasis>) -> Option<Option<SpecBasis>> {
    match op {
        BasisOperator::Pow(p) => match bl {
            None => Some(None),
            Some(b) => if b.is_num(0) && p.n < 0 {
                Some(None)
            } else if b.is_inf(1) || b.is_inf(-1i32) {
                Some(Some(pow_spec(BUDGET as nat, p.n, p.d, b)))
            } else {
                Some(Some(SpecBasis::num(c)))
            },
        },
        BasisOperator::E => match bl {
            None => Some(None),
            Some(b) => if b.is_inf(1) {
                Some(Some(SpecBasis::inf(1)))
            } else if b.is_inf(-1i32) {
                Some(Some(SpecBasis::integer(0)))
            } else {
                Some(Some(SpecBasis::num(c)))
            },
        },
        BasisOperator::Log => match bl {
            None => Some(None),
            Some(b) => if b.is_inf(-1i32) {
                Some(None)
            } else if b.is_inf(1) {
                Some(Some(SpecBasis::inf(1)))
            } else if b.is_num(0) {
                Some(Some(SpecBasis::inf(-1i32)))
            } else {
                Some(Some(SpecBasis::num(c)))
            },
        },
        BasisOperator::Cos | BasisOperator::Sin => if card == LimitCard::LimPosInf || card
            == LimitCard::LimNegInf {
            Some(None)
        } else if card == LimitCard::Limsup || card == LimitCard::Liminf {
            Some(Some(SpecBasis::num(c)))
        } else {
            match bl {
                None => None,
                Some(b) => if b.is_num(0) && op == BasisOperator::Sin {
                    Some(Some(SpecBasis::integer(0)))
                } else {
                    Some(Some(SpecBasis::num(c)))
                },
            }
        },
        BasisOperator::Acos | BasisOperator::Asin => Some(Some(arc_limit(card, g, x_limit(card)))),
        BasisOperator::Int => Some(Some(SpecBasis::integer(0))),
        _ => None,
    }
}

/// The limit of a tree for the limit card `card`: `Some(l)` with `l` the limit, or none
/// where it is not defined (`Some(None)`); `None` where the limit cannot be taken at
/// all: a node without operands, a difference whose terms have finite limits, a
/// quotient whose denominator's limit cannot be taken, a cosine or sine at 0 whose
/// argument's limit is undefined, an inverse function. The limit of the first operand
/// of a node is always taken first.
pub open spec fn limit_spec(card: LimitCard, b: SpecBasis) -> Option<Option<SpecBasis>>
    decreases b, 1nat,
{
    match b {
        SpecBasis::Leaf(_, e) => if e == BasisElement::X {
            Some(Some(x_limit(card)))
        } else {
            Some(Some(b))
        },
        SpecBasis::Node(c, op, ops) => if ops.len() == 0 {
            None
        } else {
            match limit_spec(card, ops[0]) {
                None => None,
                Some(bl) => if op == BasisOperator::Add || op == BasisOperator::Minus || op
                    == BasisOperator::Mult {
                    match limit_all(card, ops) {
                        None => None,
                        Some(lims) => terms_limit(op, c, lims),
                    }
                } else if op == BasisOperator::Div {
                    if ops.len() < 2 {
                        None
                    } else {
                        match limit_spec(card, ops[1]) {
                            None => None,
                            Some(dl) => div_limit(c, bl, dl),
                        }
                    }
                } else {
                    unary_limit(card, op, c, ops[0], bl)
                },
            }
        },
    }
}

/// The limits of the trees of `s`, unless one cannot be taken.
pub open spec fn limit_all(card: LimitCard, s: Seq<SpecBasis>) -> Option<Seq<Option<SpecBasis>>>
    decreases s, 0nat,
{
    if s.len() == 0 {
        Some(Seq::empty())
    } else {
        match (limit_all(card, s.drop_last()), limit_spec(card, s.last())) {
            (Some(ls), Some(l)) => Some(ls.push(l)),
            _ => None,
        }
    }
}

/// The views of a sequence of optional bases.
pub open spec fn opts_view(v: Seq<Option<Basis>>) -> Seq<Option<SpecBasis>> {
    Seq::new(v.len(), |i: int| opt_view(v[i]))
}

/// The view of the result of a limit step.
pub open spec fn outcome_view(r: Option<Option<Basis>>) -> Option<Option<SpecBasis>> {
    match r {
        Some(o) => Some(opt_view(o)),
        None => None,
    }
}

/// Whether a limit step's value, if any, is well formed.
pub open spec fn outcome_wf(r: Option<Option<Basis>>) -> bool {
    r matches Some(Some(x)) ==> x@.wf()
}

/// The limit of x (see `x_limit`).
fn x_limit_exec(card: LimitCard) -> (r: Basis)
    ensures
        r@ == x_limit(card),
        r@.wf(),
{
    match card {
        LimitCard::Lim0 => Basis::of_num(0),
        LimitCard::LimNegInf => Basis::inf(-1),
        _ => Basis::inf(1),
    }
}

/// The limit of arccos or arcsin of `operator` (see `arc_limit`).
fn limit_arccos_arcsin(limit_card: &LimitCard, operator: &Basis, operand_limit: Basis) -> (r: Option<Basis>)
    ensures
        r matches Some(x) && x@ == arc_limit(*limit_card, operator@, operand_limit@) && x@.wf(),
{
    // max(arccos) = PI, max(arcsin) = PI/2
    if *limit_card == LimitCard::Limsup {
        return Some(Basis::of_num(1));
    } else if *limit_card == LimitCard::Liminf {
        // min(arccos) = 0
        if operator.is_node(BasisOperator::Cos) {
            return Some(Basis::of_num(0));
        }
        // min(arcsin) = -PI/2
        if operator.is_node(BasisOperator::Sin) {
            return Some(Basis::of_num(1));
        }
    }
    if operand_limit.is_num(0) {
        // arccos(0) = PI/2
        if operator.is_node(BasisOperator::Cos) {
            return Some(Basis::of_num(1));
        }
        // arcsin(0) = 0
        if operator.is_node(BasisOperator::Sin) {
            return Some(Basis::of_num(0));
        }
    }
    // arccos(-INF)
    if operand_limit.is_inf(-1) && operator.is_node(BasisOperator::Cos) {
        return Some(Basis::of_num(0));
    }
    // arccos(INF) | arccos(n) | arcsin(INF | -INF) | arcsin(n) ≃ n → 1
    Some(Basis::of_num(1))
}

/// The limit of an integral: not known.
fn integral_limit(basis: &Basis) -> (r: Option<Basis>)
    ensures
        r is None,
{
    None
}

/// The limit of a sum, difference or product from the limits of its terms (see
/// `terms_limit`).
fn terms_limit_exec(op: BasisOperator, c: Fraction, lims: &Vec<Option<Basis>>) -> (r: Option<Option<Basis>>)
    requires
        forall|i: int| 0 <= i < lims@.len() ==> ((#[trigger] lims@[i]) matches Some(x) ==> x@.wf()),
    ensures
        outcome_view(r) == terms_limit(op, c, opts_view(lims@)),
        outcome_wf(r),
{
    let ghost lv = opts_view(lims@);
    let mut i: usize = 0;
    while i < lims.len()
        invariant
            i <= lims@.len(),
            lv == opts_view(lims@),
            forall|t: int| 0 <= t < i ==> (#[trigger] lims@[t]) is Some,
        decreases lims.len() - i,
    {
        if lims[i].is_none() {
            assert(lv[i as int] is None);
            return Some(None);
        }
        i += 1;
    }
    // all limits exist
    let mut ls: Vec<Basis> = Vec::new();
    let mut j: usize = 0;
    proof {
        lemma_models(ls@);
    }
    while j < lims.len()
        invariant
            j <= lims@.len(),
            lv == opts_view(lims@),
            forall|t: int| 0 <= t < lims@.len() ==> (#[trigger] lims@[t]) is Some,
            forall|t: int| 0 <= t < lims@.len() ==> ((#[trigger] lims@[t]) matches Some(x) ==> x@.wf()),
            models(ls@) == unwrap_all(lv.take(j as int)),
            all_wf(models(ls@)),
        decreases lims.len() - j,
    {
        let x = match &lims[j] {
            Some(b) => b.deep_clone(),
            None => Basis::of_num(0),
        };
        proof {
            assert(lv.take(j + 1).drop_last() =~= lv.take(j as int));
            assert(lv.take(j + 1).last() == lv[j as int]);
            lemma_models_push(ls@, x);
            lemma_models(ls@.push(x));
            lemma_models(ls@);
        }
        ls.push(x);
        j += 1;
    }
    proof {
        assert(lv.take(lims.len() as int) =~= lv);
        assert(!(exists|t: int| 0 <= t < lv.len() && (#[trigger] lv[t]) is None));
        lemma_models(ls@);
    }
    let mult = op.same(&BasisOperator::Mult);
    // short circuit 0 or INF or -INF
    match find_extreme(&ls, mult) {
        Some(k) => {
            proof {
                lemma_models(ls@);
                assert(models(ls@)[k as int].wf());
            }
            return Some(Some(ls[k].deep_clone()));
        },
        None => {},
    }
    if mult {
        Some(Some(mult_node(BUDGET, &ls).scale_frac(c)))
    } else if op.same(&BasisOperator::Add) {
        Some(Some(AddBasisNode(ls).scale_frac(c)))
    } else {
        None
    }
}

/// The first position of a deciding limit (see `first_extreme`).
fn find_extreme(ls: &Vec<Basis>, mult: bool) -> (r: Option<usize>)
    ensures
        match r {
            Some(k) => k == first_extreme(models(ls@), mult) && k < ls@.len(),
            None => first_extreme(models(ls@), mult) == -1,
        },
{
    let ghost us = models(ls@);
    proof {
        lemma_models(ls@);
    }
    let mut k: usize = 0;
    proof {
        assert(us.take(0) =~= Seq::<SpecBasis>::empty());
    }
    while k < ls.len()
        invariant
            k <= ls@.len(),
            us == models(ls@),
            us.len() == ls@.len(),
            forall|t: int| 0 <= t < ls@.len() ==> #[trigger] us[t] == ls@[t]@,
            first_extreme(us.take(k as int), mult) == -1,
        decreases ls.len() - k,
    {
        proof {
            assert(us.take(k + 1).drop_last() =~= us.take(k as int));
            assert(us.take(k + 1).last() == us[k as int]);
        }
        if ls[k].is_inf(1) || ls[k].is_inf(-1) || (mult && ls[k].is_num(0)) {
            proof {
                lemma_first_extreme_prefix(us, k as int + 1, mult);
            }
            return Some(k);
        }
        k += 1;
    }
    proof {
        assert(us.take(ls.len() as int) =~= us);
    }
    None
}

/// A deciding limit found in a prefix stays the first one for the whole sequence.
proof fn lemma_first_extreme_prefix(s: Seq<SpecBasis>, k: int, mult: bool)
    requires
        0 < k <= s.len(),
        first_extreme(s.take(k - 1), mult) == -1,
        is_extreme(s[k - 1], mult),
    ensures
        first_extreme(s, mult) == k - 1,
    decreases s.len() - k,
{
    assert(s.take(k).drop_last() =~= s.take(k - 1));
    assert(s.take(k).last() == s[k - 1]);
    assert(first_extreme(s.take(k), mult) == k - 1);
    lemma_first_extreme_grow(s, k, mult);
}

/// Once the first deciding limit is found in a prefix, longer prefixes keep it.
proof fn lemma_first_extreme_grow(s: Seq<SpecBasis>, k: int, mult: bool)
    requires
        0 <= k <= s.len(),
        first_extreme(s.take(k), mult) >= 0,
    ensures
        first_extreme(s, mult) == first_extreme(s.take(k), mult),
    decreases s.len() - k,
{
    if k < s.len() {
        assert(s.take(k + 1).drop_last() =~= s.take(k));
        lemma_first_extreme_grow(s, k + 1, mult);
    } else {
        assert(s.take(k) =~= s);
    }
}

/// The limit of a quotient from the limits of its sides (see `div_limit`).
fn div_limit_exec(c: Fraction, bl: Option<Basis>, dl: Option<Basis>) -> (r: Option<Option<Basis>>)
    requires
        bl matches Some(x) ==> x@.wf(),
    ensures
        outcome_view(r) == div_limit(c, opt_view(bl), opt_view(dl)),
        outcome_wf(r),
{
    match dl {
        None => None,
        Some(d) => {
            if d.is_num(0) {
                // invalid limit, (1/0)
                return Some(None);
            } else if d.is_inf(1) || d.is_inf(-1) {
                return Some(Some(Basis::of_num(0)));
            }
            match bl {
                None => Some(None),
                Some(b) => {
                    if b.is_inf(-1) || b.is_num(0) {
                        return Some(Some(b));
                    }
                    let bc = b.coefficient();
                    let dc = d.coefficient();
                    Some(Some(Basis::of_frac(c.times(bc.n, bc.d).times(dc.d, dc.n))))
                },
            }
        },
    }
}

/// The limit of a one-operand function from the limit of its argument (see
/// `unary_limit`).
fn unary_limit_exec(card: LimitCard, op: BasisOperator, c: Fraction, g: &Basis, bl: Option<Basis>) -> (r: Option<Option<Basis>>)
    requires
        bl matches Some(x) ==> x@.wf(),
    ensures
        outcome_view(r) == unary_limit(card, op, c, g@, opt_view(bl)),
        outcome_wf(r),
{
    match op {
        BasisOperator::Pow(p) => match bl {
            None => Some(None),
            Some(b) => {
                if b.is_num(0) && p.n < 0 {
                    // invalid limit (1/0)
                    Some(None)
                } else if b.is_inf(1) || b.is_inf(-1) {
                    Some(Some(pow_node(BUDGET, p.n, p.d, &b)))
                } else {
                    // should be coefficient * e^(some constant)
                    Some(Some(Basis::of_frac(c)))
                }
            },
        },
        BasisOperator::E => match bl {
            None => Some(None),
            Some(b) => {
                if b.is_inf(1) {
                    Some(Some(Basis::inf(1)))
                } else if b.is_inf(-1) {
                    Some(Some(Basis::of_num(0)))
                } else {
                    Some(Some(Basis::of_frac(c)))
                }
            },
        },
        BasisOperator::Log => match bl {
            None => Some(None),
            Some(b) => {
                if b.is_inf(-1) {
                    // invalid limit (log(-INF))
                    Some(None)
                } else if b.is_inf(1) {
                    Some(Some(Basis::inf(1)))
                } else if b.is_num(0) {
                    Some(Some(Basis::inf(-1)))
                } else {
                    Some(Some(Basis::of_frac(c)))
                }
            },
        },
        BasisOperator::Cos | BasisOperator::Sin => {
            if card == LimitCard::LimPosInf || card == LimitCard::LimNegInf {
                // invalid limit (oscillating function)
                Some(None)
            } else if card == LimitCard::Limsup || card == LimitCard::Liminf {
                // the extreme value of the amplitude
                Some(Some(Basis::of_frac(c)))
            } else {
                match bl {
                    None => None,
                    Some(b) => {
                        if b.is_num(0) && op.same(&BasisOperator::Sin) {
                            Some(Some(Basis::of_num(0)))
                        } else {
                            Some(Some(Basis::of_frac(c)))
                        }
                    },
                }
            }
        },
        BasisOperator::Acos | BasisOperator::Asin => {
            // find nested limit
            let operand_limit = x_limit_exec(card);
            Some(limit_arccos_arcsin(&card, g, operand_limit))
        },
        BasisOperator::Int => {
            // assume that the limits of integration are from 0 to x for INF, x to 0 for -INF
            let _res = integral_limit(g);
            Some(Some(Basis::of_num(0)))
        },
        _ => None,
    }
}

/// The limits of the operands of a node (see `limit_all`).
fn limit_terms(card: LimitCard, basis: &Basis) -> (r: Option<Vec<Option<Basis>>>)
    requires
        basis@.wf(),
        basis@ is Node,
    ensures
        match limit_all(card, basis@->Node_2) {
            Some(ls) => r matches Some(v) && opts_view(v@) == ls && (forall|i: int|
                0 <= i < v@.len() ==> ((#[trigger] v@[i]) matches Some(x) ==> x@.wf())),
            None => r is None,
        },
    decreases basis@, 0nat,
{
    match basis {
        Basis::BasisNode(node) => {
            let ops = &node.operands;
            let ghost s = models(ops@);
            proof {
                lemma_models(ops@);
            }
            let mut ls: Vec<Option<Basis>> = Vec::new();
            let mut i: usize = 0;
            proof {
                assert(s.take(0) =~= Seq::<SpecBasis>::empty());
                assert(opts_view(ls@) =~= Seq::<Option<SpecBasis>>::empty());
            }
            while i < ops.len()
                invariant
                    *basis == Basis::BasisNode(*node),
                    ops == &node.operands,
                    basis@.wf(),
                    s == models(ops@),
                    s.len() == ops@.len(),
                    forall|t: int| 0 <= t < ops@.len() ==> #[trigger] s[t] == ops@[t]@,
                    i <= ops.len(),
                    limit_all(card, s.take(i as int)) == Some(opts_view(ls@)),
                    forall|t: int| 0 <= t < ls@.len() ==> ((#[trigger] ls@[t]) matches Some(x) ==> x@.wf()),
                decreases ops.len() - i,
            {
                proof {
                    lemma_operand_decreases(*basis, i as int);
                    assert(s.take(i + 1).drop_last() =~= s.take(i as int));
                    assert(s.take(i + 1).last() == s[i as int]);
                }
                match limit_node(card, &ops[i]) {
                    Some(l) => {
                        let ghost before = ls@;
                        ls.push(l);
                        proof {
                            assert(opts_view(ls@) =~= opts_view(before).push(opt_view(l)));
                        }
                    },
                    None => {
                        proof {
                            lemma_limit_all_none(card, s, i + 1);
                        }
                        return None;
                    },
                }
                i += 1;
            }
            proof {
                assert(s.take(ops.len() as int) =~= s);
            }
            Some(ls)
        },
        _ => None,
    }
}

/// Once `limit_all` fails on a prefix, it fails on every longer prefix.
proof fn lemma_limit_all_none(card: LimitCard, s: Seq<SpecBasis>, k: int)
    requires
        0 <= k <= s.len(),
        limit_all(card, s.take(k)) is None,
    ensures
        limit_all(card, s) is None,
    decreases s.len() - k,
{
    if k < s.len() {
        assert(s.take(k + 1).drop_last() =~= s.take(k));
        lemma_limit_all_none(card, s, k + 1);
    } else {
        assert(s.take(k) =~= s);
    }
}

/// The limit of a basis (see `limit_spec`).
pub(crate) fn limit_node(card: LimitCard, basis: &Basis) -> (r: Option<Option<Basis>>)
    requires
        basis@.wf(),
    ensures
        outcome_view(r) == limit_spec(card, basis@),
        outcome_wf(r),
    decreases basis@, 1nat,
{
    match basis {
        Basis::BasisLeaf(leaf) => {
            if leaf.element == BasisElement::X {
                Some(Some(x_limit_exec(card)))
            } else {
                Some(Some(basis.deep_clone()))
            }
        },
        Basis::BasisNode(node) => {
            let ops = &node.operands;
            let c = node.coefficient;
            proof {
                lemma_models(ops@);
            }
            if ops.len() == 0 {
                return None;
            }
            proof {
                lemma_operand_decreases(*basis, 0);
            }
            let base_limit = match limit_node(card, &ops[0]) {
                Some(l) => l,
                None => {
                    return None;
                },
            };
            let op = node.operator;
            if op.same(&BasisOperator::Add) || op.same(&BasisOperator::Minus) || op.same(&BasisOperator::Mult) {
                match limit_terms(card, basis) {
                    Some(lims) => terms_limit_exec(op, c, &lims),
                    None => None,
                }
            } else if op.same(&BasisOperator::Div) {
                proof {
                    assert(models(ops@).len() >= 2);
                    lemma_operand_decreases(*basis, 1);
                }
                match limit_node(card, &ops[1]) {
                    Some(denominator_limit) => div_limit_exec(c, base_limit, denominator_limit),
                    None => None,
                }
            } else {
                unary_limit_exec(card, op, c, &ops[0], base_limit)
            }
        },
    }
}

/// The limit of `basis` for `limit_card`, `None` where it is not defined (see
/// `limit_spec`, which also says where it cannot be taken at all).
pub fn limit(limit_card: &LimitCard, basis: &Basis) -> (r: Option<Basis>)
    requires
        basis@.wf(),
        limit_spec(*limit_card, basis@) is Some,
    ensures
        Some(opt_view(r)) == limit_spec(*limit_card, basis@),
        r matches Some(x) ==> x@.wf(),
{
    match limit_node(*limit_card, basis) {
        Some(l) => l,
        None => None,
    }
}


/// The limit of a logarithm follows that of its argument: where the argument tends to 0
/// the logarithm tends to negative infinity, where it tends to infinity so does the
/// logarithm, and where it tends to negative infinity the limit is not defined.
pub proof fn lemma_limit_of_log(card: LimitCard, c: Fraction, g: SpecBasis, l: SpecBasis)
    requires
        limit_spec(card, g) == Some(Some(l)),
    ensures
        l.is_num(0) ==> limit_spec(card, SpecBasis::Node(c, BasisOperator::Log, seq![g]))
            == Some(Some(SpecBasis::inf(-1i32))),
        l.is_inf(1) ==> limit_spec(card, SpecBasis::Node(c, BasisOperator::Log, seq![g]))
            == Some(Some(SpecBasis::inf(1))),
        l.is_inf(-1i32) ==> limit_spec(card, SpecBasis::Node(c, BasisOperator::Log, seq![g]))
            == Some(None::<SpecBasis>),
{
    assert(seq![g][0] == g);
}

/// The limit of an exponential follows that of its argument: where the argument tends to
/// infinity so does e^g, and where it tends to negative infinity e^g tends to 0.
pub proof fn lemma_limit_of_exp(card: LimitCard, c: Fraction, g: SpecBasis, l: SpecBasis)
    requires
        limit_spec(card, g) == Some(Some(l)),
    ensures
        l.is_inf(1) ==> limit_spec(card, SpecBasis::Node(c, BasisOperator::E, seq![g]))
            == Some(Some(SpecBasis::inf(1))),
        l.is_inf(-1i32) ==> limit_spec(card, SpecBasis::Node(c, BasisOperator::E, seq![g]))
            == Some(Some(SpecBasis::integer(0))),
{
    assert(seq![g][0] == g);
}

} // verus!
