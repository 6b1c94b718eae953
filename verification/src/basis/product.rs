use crate::basis::builders::{add_node_spec, any_inf, has_inf, AddBasisNode};
use crate::basis::tally::{final_coef, final_exponents, final_tables, frac_is, has_zero};
use crate::basis::equality::basis_eq;
use crate::basis::structs::{
    all_wf, extend_clones, lemma_models, lemma_models_push, lemma_operand_decreases,
    lemma_with_frac_wf, models, push_clone, Basis, BasisElement, BasisLeaf, BasisNode,
    BasisOperator, SpecBasis,
};
use crate::math::fraction::{neg_wrap, wrap32, Fraction};
use vstd::prelude::*;

verus! {

broadcast use vstd::std_specs::vec::group_vec_axioms;

/// The tree e^x.
pub open spec fn e_x() -> SpecBasis {
    SpecBasis::node(BasisOperator::E, seq![SpecBasis::x()])
}

/// The innermost base of a power and its exponent: a leaf is its own base with exponent
/// 1; a power passes to the base of its operand with the exponents multiplied; e^f has
/// base e^x and as exponent the coefficient of f; other trees have none.
pub open spec fn get_base_spec(b: SpecBasis) -> Option<(SpecBasis, i32, i32)>
    decreases b,
{
    match b {
        SpecBasis::Leaf(_, _) => Some((b, 1i32, 1i32)),
        SpecBasis::Node(_, op, ops) => match op {
            BasisOperator::Pow(f) => if ops.len() > 0 {
                match get_base_spec(ops[0]) {
                    Some(t) => Some((t.0, wrap32(t.1 * f.n), wrap32(t.2 * f.d))),
                    None => Some((ops[0], f.n, f.d)),
                }
            } else {
                None
            },
            BasisOperator::E => if ops.len() > 0 {
                Some((e_x(), ops[0].coef().n, ops[0].coef().d))
            } else {
                None
            },
            _ => None,
        },
    }
}

/// A tree times a fraction: its coefficient (see `with_frac`) multiplied by `f`.
pub open spec fn mul_frac_spec(b: SpecBasis, f: Fraction) -> SpecBasis {
    b.with_frac(b.coef().times_spec(f.n, f.d))
}

/// A tree times an integer: a sum or difference multiplies each operand and adds them
/// up again; any other tree has its coefficient multiplied.
pub open spec fn mul_int_spec(b: SpecBasis, i: i32) -> SpecBasis
    decreases b, 1nat,
{
    match b {
        SpecBasis::Node(_, op, ops) => if op == BasisOperator::Add || op == BasisOperator::Minus {
            add_node_spec(mul_int_all(ops, i))
        } else {
            mul_frac_spec(b, Fraction { n: i, d: 1 })
        },
        _ => mul_frac_spec(b, Fraction { n: i, d: 1 }),
    }
}

/// Each tree of `s` times the integer `i` (see `mul_int_spec`).
pub open spec fn mul_int_all(s: Seq<SpecBasis>, i: i32) -> Seq<SpecBasis>
    decreases s, 0nat,
{
    if s.len() == 0 {
        Seq::empty()
    } else {
        mul_int_all(s.drop_last(), i).push(mul_int_spec(s.last(), i))
    }
}

/// `mul_int_all` multiplies each element.
pub proof fn lemma_mul_int_all(s: Seq<SpecBasis>, i: i32)
    ensures
        mul_int_all(s, i).len() == s.len(),
        forall|t: int| 0 <= t < s.len() ==> #[trigger] mul_int_all(s, i)[t] == mul_int_spec(s[t], i),
    decreases s.len(),
{
    if s.len() > 0 {
        lemma_mul_int_all(s.drop_last(), i);
    }
}

/// One operand of a product taken into (coefficient, numerator, denominator): a product
/// gives its coefficient and operands, a quotient its two sides (unfolding products), a
/// number its coefficient, anything else itself as a factor of the numerator.
pub open spec fn nd_num_step(
    st: (Fraction, Seq<SpecBasis>, Seq<SpecBasis>),
    op: SpecBasis,
) -> (Fraction, Seq<SpecBasis>, Seq<SpecBasis>) {
    let c = st.0;
    let num = st.1;
    let den = st.2;
    if op.is_node(BasisOperator::Mult) {
        (c.times_spec(op.coef().n, op.coef().d), num + op->Node_2, den)
    } else if op.is_node(BasisOperator::Div) {
        let d0 = op->Node_2[0];
        let d1 = op->Node_2[1];
        let c1 = if d0.is_node(BasisOperator::Mult) {
            c.times_spec(d0.coef().n, d0.coef().d)
        } else {
            c
        };
        let num1 = if d0.is_node(BasisOperator::Mult) {
            num + d0->Node_2
        } else {
            num.push(d0)
        };
        let c2 = if d1.is_node(BasisOperator::Mult) {
            c1.times_spec(d1.coef().d, d1.coef().n)
        } else {
            c1
        };
        let den1 = if d1.is_node(BasisOperator::Mult) {
            den + d1->Node_2
        } else {
            den.push(d1)
        };
        (c2, num1, den1)
    } else if op is Leaf && op->Leaf_1 == BasisElement::Num {
        (c.times_spec(op.coef().n, op.coef().d), num, den)
    } else {
        (c, num.push(op), den)
    }
}

/// One divisor taken into (coefficient, numerator, denominator), as `nd_num_step` with
/// the sides exchanged (a number divisor divides the coefficient).
pub open spec fn nd_den_step(
    st: (Fraction, Seq<SpecBasis>, Seq<SpecBasis>),
    op: SpecBasis,
) -> (Fraction, Seq<SpecBasis>, Seq<SpecBasis>) {
    let c = st.0;
    let num = st.1;
    let den = st.2;
    if op.is_node(BasisOperator::Mult) {
        (c.times_spec(op.coef().d, op.coef().n), num, den + op->Node_2)
    } else if op.is_node(BasisOperator::Div) {
        let d0 = op->Node_2[0];
        let d1 = op->Node_2[1];
        let c1 = if d0.is_node(BasisOperator::Mult) {
            c.times_spec(d0.coef().d, d0.coef().n)
        } else {
            c
        };
        let den1 = if d0.is_node(BasisOperator::Mult) {
            den + d0->Node_2
        } else {
            den.push(d0)
        };
        let c2 = if d1.is_node(BasisOperator::Mult) {
            c1.times_spec(d1.coef().n, d1.coef().d)
        } else {
            c1
        };
        let num1 = if d1.is_node(BasisOperator::Mult) {
            num + d1->Node_2
        } else {
            num.push(d1)
        };
        (c2, num1, den1)
    } else if op is Leaf && op->Leaf_1 == BasisElement::Num {
        (c.times_spec(op.coef().d, op.coef().n), num, den)
    } else {
        (c, num, den.push(op))
    }
}

/// The operands of `s` taken into the state one after the other as factors.
pub open spec fn fold_num(
    st: (Fraction, Seq<SpecBasis>, Seq<SpecBasis>),
    s: Seq<SpecBasis>,
) -> (Fraction, Seq<SpecBasis>, Seq<SpecBasis>)
    decreases s.len(),
{
    if s.len() == 0 {
        st
    } else {
        nd_num_step(fold_num(st, s.drop_last()), s.last())
    }
}

/// The operands of `s` taken into the state one after the other as divisors.
pub open spec fn fold_den(
    st: (Fraction, Seq<SpecBasis>, Seq<SpecBasis>),
    s: Seq<SpecBasis>,
) -> (Fraction, Seq<SpecBasis>, Seq<SpecBasis>)
    decreases s.len(),
{
    if s.len() == 0 {
        st
    } else {
        nd_den_step(fold_den(st, s.drop_last()), s.last())
    }
}

/// Coefficient, factors and divisors of `num` divided by `den`, nested products and
/// quotients unfolded one level.
pub open spec fn build_nd(num: Seq<SpecBasis>, den: Seq<SpecBasis>) -> (
    Fraction,
    Seq<SpecBasis>,
    Seq<SpecBasis>,
) {
    fold_den(fold_num((Fraction { n: 1, d: 1 }, Seq::empty(), Seq::empty()), num), den)
}

/// Takes one side of a quotient, or a product, into a list: a product multiplies the
/// coefficient by its own (divides it, when `inv`) and gives its operands; anything
/// else is pushed as it is.
fn take_side(c: &mut Fraction, list: &mut Vec<Basis>, side: &Basis, inv: bool)
    requires
        side@.wf(),
        all_wf(models(old(list)@)),
    ensures
        *final(c) == (if side@.is_node(BasisOperator::Mult) {
            if inv {
                old(c).times_spec(side@.coef().d, side@.coef().n)
            } else {
                old(c).times_spec(side@.coef().n, side@.coef().d)
            }
        } else {
            *old(c)
        }),
        models(final(list)@) == (if side@.is_node(BasisOperator::Mult) {
            models(old(list)@) + side@->Node_2
        } else {
            models(old(list)@).push(side@)
        }),
        all_wf(models(final(list)@)),
{
    proof {
        lemma_models(list@);
    }
    match side {
        Basis::BasisNode(node) => {
            if node.operator.same(&BasisOperator::Mult) {
                let k = node.coefficient;
                *c = if inv {
                    c.times(k.d, k.n)
                } else {
                    c.times(k.n, k.d)
                };
                proof {
                    lemma_models(node.operands@);
                }
                extend_clones(list, &node.operands);
                proof {
                    lemma_models(list@);
                    assert(all_wf(models(list@)));
                }
                return;
            }
        },
        _ => {},
    }
    push_clone(list, side);
    proof {
        lemma_models(list@);
        assert(all_wf(models(list@)));
    }
}

/// Takes one factor into (coefficient, numerator, denominator) (see `nd_num_step`).
fn num_step(c: &mut Fraction, num: &mut Vec<Basis>, den: &mut Vec<Basis>, op: &Basis)
    requires
        op@.wf(),
        all_wf(models(old(num)@)),
        all_wf(models(old(den)@)),
    ensures
        (*final(c), models(final(num)@), models(final(den)@)) == nd_num_step(
            (*old(c), models(old(num)@), models(old(den)@)),
            op@,
        ),
        all_wf(models(final(num)@)),
        all_wf(models(final(den)@)),
{
    if op.is_node(BasisOperator::Mult) {
        take_side(c, num, op, false);
    } else if op.is_node(BasisOperator::Div) {
        match op {
            Basis::BasisNode(node) => {
                proof {
                    lemma_operand_decreases(*op, 0);
                    lemma_models(node.operands@);
                    assert(models(node.operands@).len() >= 2);
                    lemma_operand_decreases(*op, 1);
                }
                take_side(c, num, &node.operands[0], false);
                take_side(c, den, &node.operands[1], true);
            },
            _ => {},
        }
    } else if op.is_frac(op.coefficient()) {
        let k = op.coefficient();
        *c = c.times(k.n, k.d);
    } else {
        push_clone(num, op);
        proof {
            lemma_models(old(num)@);
            lemma_models(num@);
            assert(all_wf(models(num@)));
        }
    }
}

/// Takes one divisor into (coefficient, numerator, denominator) (see `nd_den_step`).
fn den_step(c: &mut Fraction, num: &mut Vec<Basis>, den: &mut Vec<Basis>, op: &Basis)
    requires
        op@.wf(),
        all_wf(models(old(num)@)),
        all_wf(models(old(den)@)),
    ensures
        (*final(c), models(final(num)@), models(final(den)@)) == nd_den_step(
            (*old(c), models(old(num)@), models(old(den)@)),
            op@,
        ),
        all_wf(models(final(num)@)),
        all_wf(models(final(den)@)),
{
    if op.is_node(BasisOperator::Mult) {
        take_side(c, den, op, true);
    } else if op.is_node(BasisOperator::Div) {
        match op {
            Basis::BasisNode(node) => {
                proof {
                    lemma_operand_decreases(*op, 0);
                    lemma_models(node.operands@);
                    assert(models(node.operands@).len() >= 2);
                    lemma_operand_decreases(*op, 1);
                }
                take_side(c, den, &node.operands[0], true);
                take_side(c, num, &node.operands[1], false);
            },
            _ => {},
        }
    } else if op.is_frac(op.coefficient()) {
        let k = op.coefficient();
        *c = c.times(k.d, k.n);
    } else {
        push_clone(den, op);
        proof {
            lemma_models(old(den)@);
            lemma_models(den@);
            assert(all_wf(models(den@)));
        }
    }
}

/// Coefficient, factors and divisors of `in_numerator` over `in_denominator`, nested
/// products and quotients unfolded one level (see `build_nd`).
pub(crate) fn build_numerator_denominator(in_numerator: &Vec<Basis>, in_denominator: &Vec<Basis>) -> (r: (
    Fraction,
    Vec<Basis>,
    Vec<Basis>,
))
    requires
        all_wf(models(in_numerator@)),
        all_wf(models(in_denominator@)),
    ensures
        (r.0, models(r.1@), models(r.2@)) == build_nd(models(in_numerator@), models(in_denominator@)),
        all_wf(models(r.1@)),
        all_wf(models(r.2@)),
{
    let ghost ns = models(in_numerator@);
    let ghost ds = models(in_denominator@);
    let ghost st0 = (Fraction { n: 1, d: 1 }, Seq::<SpecBasis>::empty(), Seq::<SpecBasis>::empty());
    proof {
        lemma_models(in_numerator@);
        lemma_models(in_denominator@);
    }
    let mut c = Fraction { n: 1, d: 1 };
    let mut num: Vec<Basis> = Vec::new();
    let mut den: Vec<Basis> = Vec::new();
    proof {
        lemma_models(num@);
        assert(ns.take(0) =~= Seq::<SpecBasis>::empty());
        assert((c, models(num@), models(den@)) == st0);
    }
    let mut i: usize = 0;
    while i < in_numerator.len()
        invariant
            ns == models(in_numerator@),
            ns.len() == in_numerator@.len(),
            forall|t: int| 0 <= t < in_numerator@.len() ==> #[trigger] ns[t] == in_numerator@[t]@,
            all_wf(ns),
            i <= in_numerator.len(),
            (c, models(num@), models(den@)) == fold_num(st0, ns.take(i as int)),
            all_wf(models(num@)),
            all_wf(models(den@)),
        decreases in_numerator.len() - i,
    {
        proof {
            assert(ns.take(i + 1).drop_last() =~= ns.take(i as int));
            assert(ns.take(i + 1).last() == ns[i as int]);
            assert(ns[i as int].wf());
        }
        num_step(&mut c, &mut num, &mut den, &in_numerator[i]);
        i += 1;
    }
    proof {
        assert(ns.take(in_numerator.len() as int) =~= ns);
        assert(ds.take(0) =~= Seq::<SpecBasis>::empty());
    }
    let ghost st1 = fold_num(st0, ns);
    let mut i: usize = 0;
    while i < in_denominator.len()
        invariant
            ds == models(in_denominator@),
            ds.len() == in_denominator@.len(),
            forall|t: int| 0 <= t < in_denominator@.len() ==> #[trigger] ds[t] == in_denominator@[t]@,
            all_wf(ds),
            i <= in_denominator.len(),
            (c, models(num@), models(den@)) == fold_den(st1, ds.take(i as int)),
            all_wf(models(num@)),
            all_wf(models(den@)),
        decreases in_denominator.len() - i,
    {
        proof {
            assert(ds.take(i + 1).drop_last() =~= ds.take(i as int));
            assert(ds.take(i + 1).last() == ds[i as int]);
            assert(ds[i as int].wf());
        }
        den_step(&mut c, &mut num, &mut den, &in_denominator[i]);
        i += 1;
    }
    proof {
        assert(ds.take(in_denominator.len() as int) =~= ds);
    }
    (c, num, den)
}

impl Basis {
    /// The basis times the fraction `f` (see `mul_frac_spec`).
    pub fn scale_frac(&self, f: Fraction) -> (r: Basis)
        requires
            self@.wf(),
        ensures
            r@ == mul_frac_spec(self@, f),
            r@.wf(),
    {
        proof {
            lemma_with_frac_wf(self@, self@.coef().times_spec(f.n, f.d));
        }
        self.with_frac(self.coefficient().times(f.n, f.d))
    }

    /// The basis times the integer `i` (see `mul_int_spec`).
    pub fn scale_int(&self, i: i32) -> (r: Basis)
        requires
            self@.wf(),
        ensures
            r@ == mul_int_spec(self@, i),
            r@.wf(),
        decreases self@,
    {
        match self {
            Basis::BasisNode(node) => {
                if node.operator.same(&BasisOperator::Add) || node.operator.same(&BasisOperator::Minus) {
                    let ops = &node.operands;
                    let ghost sops = models(ops@);
                    proof {
                        lemma_models(ops@);
                    }
                    let mut out: Vec<Basis> = Vec::new();
                    let mut j: usize = 0;
                    while j < ops.len()
                        invariant
                            *self == Basis::BasisNode(*node),
                            ops == &node.operands,
                            self@.wf(),
                            sops == models(ops@),
                            sops.len() == ops@.len(),
                            forall|t: int| 0 <= t < ops@.len() ==> #[trigger] sops[t] == ops@[t]@,
                            j <= ops.len(),
                            out@.len() == j,
                            forall|t: int| 0 <= t < j ==> #[trigger] out@[t]@ == mul_int_spec(sops[t], i),
                            forall|t: int| 0 <= t < j ==> (#[trigger] out@[t])@.wf(),
                        decreases ops.len() - j,
                    {
                        proof {
                            lemma_operand_decreases(*self, j as int);
                        }
                        let t = ops[j].scale_int(i);
                        out.push(t);
                        j += 1;
                    }
                    proof {
                        lemma_models(out@);
                        lemma_mul_int_all(sops, i);
                        assert(models(out@) =~= mul_int_all(sops, i));
                        assert(all_wf(models(out@)));
                        assert(self@ == SpecBasis::Node(node.coefficient, node.operator, sops));
                    }
                    return AddBasisNode(out);
                }
            },
            _ => {},
        }
        self.scale_frac(Fraction { n: i, d: 1 })
    }
}

/// The innermost base of a power and its exponent (see `get_base_spec`).
pub(crate) fn get_base(basis: &Basis) -> (r: Option<(Basis, i32, i32)>)
    requires
        basis@.wf(),
    ensures
        match get_base_spec(basis@) {
            Some(t) => r matches Some(u) && u.0@ == t.0 && u.1 == t.1 && u.2 == t.2 && t.0.wf(),
            None => r is None,
        },
    decreases basis@,
{
    match basis {
        Basis::BasisLeaf(_) => Some((basis.deep_clone(), 1, 1)),
        Basis::BasisNode(node) => {
            proof {
                lemma_models(node.operands@);
            }
            match node.operator {
                BasisOperator::Pow(f) => {
                    proof {
                        lemma_operand_decreases(*basis, 0);
                    }
                    let inner_base = get_base(&node.operands[0]);
                    match inner_base {
                        Some(t) => {
                            let n = crate::math::fraction::wide_mul(t.1, f.n);
                            let d = crate::math::fraction::wide_mul(t.2, f.d);
                            Some((t.0, crate::math::fraction::trunc32(n), crate::math::fraction::trunc32(d)))
                        },
                        None => Some((node.operands[0].deep_clone(), f.n, f.d)),
                    }
                },
                BasisOperator::E => {
                    proof {
                        lemma_operand_decreases(*basis, 0);
                    }
                    let c = node.operands[0].coefficient();
                    let e = Basis::unary(BasisOperator::E, Basis::x());
                    proof {
                        assert(seq![SpecBasis::x()][0].wf());
                        assert(e@.wf());
                    }
                    Some((e, c.n, c.d))
                },
                _ => None,
            }
        },
    }
}

/// How many nested simplification steps a product, quotient or power may take; a
/// step that finds the budget spent returns its node as written.
pub const BUDGET: u32 = 0xffff_ffff;

/// The entries of an exponent table as factors: a key whose exponent n/d has n ≠ d is
/// raised to n/d (with budget `f - 1`), the others stay as they are.
pub open spec fn raise_all(f: nat, keys: Seq<SpecBasis>, vals: Seq<Fraction>) -> Seq<SpecBasis>
    decreases f, 0nat, keys.len(),
{
    if f == 0 || keys.len() == 0 || vals.len() != keys.len() {
        Seq::empty()
    } else {
        let v = vals.last();
        raise_all(f, keys.drop_last(), vals.drop_last()).push(
            if v.n != v.d {
                pow_spec((f - 1) as nat, v.n, v.d, keys.last())
            } else {
                keys.last()
            },
        )
    }
}

/// Each tree of `s` raised to n/d with budget `f - 1`.
pub open spec fn pow_all(f: nat, n: i32, d: i32, s: Seq<SpecBasis>) -> Seq<SpecBasis>
    decreases f, 0nat, s.len(),
{
    if f == 0 || s.len() == 0 {
        Seq::empty()
    } else {
        pow_all(f, n, d, s.drop_last()).push(pow_spec((f - 1) as nat, n, d, s.last()))
    }
}

/// The product of the coefficient `c`, the factors `num` and the divisors `den`: zero
/// when a factor or `c` is zero; infinity (for a zero divisor, which is not defined,
/// positive infinity); zero for an infinite divisor; otherwise the exponents of equal
/// bases are summed and cancelled, negative ones moved across, and the result is a
/// single factor, a product, or a quotient of products.
pub open spec fn assemble_spec(f: nat, c: Fraction, num: Seq<SpecBasis>, den: Seq<SpecBasis>) -> SpecBasis
    decreases f, 1nat, 0nat,
{
    if f == 0 {
        SpecBasis::Node(c, BasisOperator::Mult, num)
    } else if has_zero(num) || frac_is(c, 0) {
        SpecBasis::integer(0)
    } else if has_zero(den) {
        SpecBasis::inf(1)
    } else if has_inf(num, -1i32) {
        SpecBasis::inf(-1i32)
    } else if has_inf(num, 1) {
        SpecBasis::inf(1)
    } else if has_inf(den, -1i32) || has_inf(den, 1) {
        SpecBasis::integer(0)
    } else {
        let t = final_tables(c, num, den);
        combine_spec(f, final_coef(c, num, den), raise_all(f, t.0, t.1), raise_all(f, t.2, t.3))
    }
}

/// One side of a quotient: the factors `fs` times `k`: a product of several, the single
/// one scaled, or the number `k`.
pub open spec fn side_spec(k: i32, fs: Seq<SpecBasis>) -> SpecBasis {
    if fs.len() > 1 {
        SpecBasis::Node(Fraction { n: k, d: 1 }, BasisOperator::Mult, fs)
    } else if fs.len() == 1 {
        mul_int_spec(fs[0], k)
    } else {
        SpecBasis::integer(k)
    }
}

/// One side of a quotient (see `side_spec`).
fn side(k: i32, fs: Vec<Basis>) -> (r: Basis)
    requires
        all_wf(models(fs@)),
    ensures
        r@ == side_spec(k, models(fs@)),
        r@.wf(),
{
    proof {
        lemma_models(fs@);
    }
    if fs.len() > 1 {
        make_node(Fraction { n: k, d: 1 }, BasisOperator::Mult, fs)
    } else if fs.len() == 1 {
        assert(models(fs@)[0].wf());
        fs[0].scale_int(k)
    } else {
        Basis::of_num(k)
    }
}

/// The final factors `fnum` and divisors `fden` of a product with coefficient `c2` put
/// together: one factor scaled; one divisor raised to -1 and scaled; otherwise a
/// quotient whose sides (a product of several, or the single one) carry the numerator
/// and the denominator of `c2`, or a plain
/// number or product when nothing divides.
pub open spec fn combine_spec(f: nat, c2: Fraction, fnum: Seq<SpecBasis>, fden: Seq<SpecBasis>) -> SpecBasis
    decreases f, 0nat, 0nat,
{
    if f == 0 {
        SpecBasis::Node(c2, BasisOperator::Mult, fnum)
    } else if fnum.len() == 1 && fden.len() == 0 {
        mul_frac_spec(fnum[0], c2)
    } else if fden.len() == 1 && fnum.len() == 0 {
        mul_frac_spec(pow_spec((f - 1) as nat, -1i32, 1i32, fden[0]), c2)
    } else if fden.len() > 0 {
        SpecBasis::node(BasisOperator::Div, seq![side_spec(c2.n, fnum), side_spec(c2.d, fden)])
    } else if fnum.len() == 0 {
        SpecBasis::num(c2)
    } else {
        SpecBasis::Node(c2, BasisOperator::Mult, fnum)
    }
}

/// The product of `ops` with budget `f`: their coefficients, factors and divisors
/// gathered (see `build_nd`) and assembled.
pub open spec fn mult_spec(f: nat, ops: Seq<SpecBasis>) -> SpecBasis
    decreases f, 2nat, 0nat,
{
    if f == 0 {
        SpecBasis::node(BasisOperator::Mult, ops)
    } else {
        let t = build_nd(ops, Seq::empty());
        assemble_spec(f, t.0, t.1, t.2)
    }
}

/// The factors and divisors of `a / b`: a quotient contributes its two sides, anything
/// else itself (a product is unfolded, with its coefficient, when the sides are gathered).
pub open spec fn div_lists(a: SpecBasis, b: SpecBasis) -> (Seq<SpecBasis>, Seq<SpecBasis>) {
    let nl = if a.is_node(BasisOperator::Div) {
        seq![a->Node_2[0]]
    } else {
        seq![a]
    };
    let dl = if a.is_node(BasisOperator::Div) {
        seq![a->Node_2[1]]
    } else {
        Seq::empty()
    };
    if b.is_node(BasisOperator::Div) {
        (nl.push(b->Node_2[1]), dl.push(b->Node_2[0]))
    } else {
        (nl, dl.push(b))
    }
}

/// `a / b` with budget `f`: zero over anything is zero; a number over `b` is the number
/// times `b ^ -1`; anything over a number is scaled; equal bases (up to coefficient)
/// leave the quotient of their coefficients; infinity over anything keeps its sign;
/// anything over infinity is zero; otherwise the product of the sides is assembled.
pub open spec fn div_spec(f: nat, a: SpecBasis, b: SpecBasis) -> SpecBasis
    decreases f, 2nat, 0nat,
{
    if f == 0 {
        SpecBasis::node(BasisOperator::Div, seq![a, b])
    } else if a.is_num(0) {
        SpecBasis::integer(0)
    } else if a.is_frac(a.coef()) {
        mul_frac_spec(pow_spec((f - 1) as nat, -1i32, 1i32, b), a.coef())
    } else if b.is_frac(b.coef()) {
        mul_frac_spec(a, Fraction { n: b.coef().d, d: b.coef().n })
    } else if basis_eq(a.with_int(1), b.with_int(1)) {
        SpecBasis::num(a.coef().times_spec(b.coef().d, b.coef().n))
    } else if a.is_inf(1) || a.is_inf(-1i32) {
        SpecBasis::inf(a.coef().sign_spec())
    } else if b.is_inf(1) || b.is_inf(-1i32) {
        SpecBasis::integer(0)
    } else {
        let l = div_lists(a, b);
        let t = build_nd(l.0, l.1);
        assemble_spec(f, t.0, t.1, t.2)
    }
}

/// Whether `p` has an odd numerator and an odd denominator, as the remainders modulo 2
/// that the power rule tests read them (a negative number is not odd there).
pub open spec fn odd_power(p: Fraction) -> bool {
    p.n > 0 && p.n % 2 == 1 && p.d > 0 && p.d % 2 == 1
}

/// `base ^ (n/d)` with budget `f`, the exponent reduced first: a zero power is 1, a
/// unit power and the bases 0 and 1 leave the base; infinity stays infinite (negative
/// infinity to an odd power stays negative); a power of x multiplies the exponents, a
/// power whose exponent the new one cancels gives its base, `e^g` becomes `e^(g·p)`, a
/// quotient to a negative power is flipped, a product is raised factor by factor;
/// anything else becomes a power node of its base with coefficient 1. The coefficient c
/// of the base comes out as c raised to the numerator of the power.
pub open spec fn pow_spec(f: nat, n: i32, d: i32, base: SpecBasis) -> SpecBasis
    decreases f, 2nat, 0nat,
{
    if f == 0 {
        SpecBasis::node(BasisOperator::Pow(Fraction { n, d }), seq![base])
    } else {
        let p = Fraction { n, d }.reduce_spec();
        let plain = SpecBasis::Node(
            base.coef().pow_spec(p.n),
            BasisOperator::Pow(p),
            seq![base.set_coef(Fraction { n: 1, d: 1 })],
        );
        if p.n == 0 {
            SpecBasis::integer(1)
        } else if frac_is(p, 1) {
            base
        } else if base.is_num(0) || base.is_num(1) {
            base
        } else if base.is_inf(1) {
            SpecBasis::inf(1)
        } else if base.is_inf(-1i32) {
            if odd_power(p) {
                SpecBasis::inf(-1i32)
            } else {
                SpecBasis::inf(1)
            }
        } else {
            match base {
                SpecBasis::Node(ic, op, iops) => match op {
                    BasisOperator::Pow(ip) => if iops[0].is_x() {
                        let p2 = p.times_spec(ip.n, ip.d);
                        if frac_is(p2, 1) {
                            SpecBasis::x()
                        } else {
                            SpecBasis::Node(ic.pow_spec(p.n), BasisOperator::Pow(p2), seq![SpecBasis::x()])
                        }
                    } else if frac_is(p.times_spec(ip.n, ip.d), 1) {
                        iops[0]
                    } else {
                        plain
                    },
                    BasisOperator::E => mul_frac_spec(
                        SpecBasis::node(BasisOperator::E, seq![mul_frac_spec(iops[0], p)]),
                        ic.pow_spec(p.n),
                    ),
                    BasisOperator::Div => if p.compare_spec(Fraction { n: 0, d: 1 }) < 0 {
                        let q = p.times_spec(-1i32, 1);
                        pow_spec((f - 1) as nat, q.n, q.d, div_spec((f - 1) as nat, iops[1], iops[0]))
                    } else {
                        plain
                    },
                    BasisOperator::Mult => mult_spec((f - 1) as nat, pow_all(f, p.n, p.d, iops)),
                    _ => plain,
                },
                _ => plain,
            }
        }
    }
}

/// Whether some basis of `v` is zero (see `has_zero`).
pub(crate) fn any_zero(v: &Vec<Basis>) -> (r: bool)
    ensures
        r == has_zero(models(v@)),
{
    proof {
        lemma_models(v@);
    }
    let mut j: usize = 0;
    while j < v.len()
        invariant
            j <= v@.len(),
            models(v@).len() == v@.len(),
            forall|t: int| 0 <= t < v@.len() ==> #[trigger] models(v@)[t] == v@[t]@,
            forall|t: int|
                0 <= t < j ==> !((#[trigger] models(v@)[t]).is_num(0) || frac_is(models(v@)[t].coef(), 0)),
        decreases v.len() - j,
    {
        if v[j].is_num(0) || v[j].coefficient().eq_int(0) {
            assert(models(v@)[j as int].is_num(0) || frac_is(models(v@)[j as int].coef(), 0));
            return true;
        }
        j += 1;
    }
    false
}

/// The entries of an exponent table as factors (see `raise_all`).
fn raise_entries(f: u32, keys: &Vec<Basis>, vals: &Vec<Fraction>) -> (r: Vec<Basis>)
    requires
        f > 0,
        keys@.len() == vals@.len(),
        all_wf(models(keys@)),
    ensures
        models(r@) == raise_all(f as nat, models(keys@), vals@),
        all_wf(models(r@)),
    decreases f, 0int,
{
    let ghost ks = models(keys@);
    proof {
        lemma_models(keys@);
    }
    let mut out: Vec<Basis> = Vec::new();
    let mut i: usize = 0;
    proof {
        lemma_models(out@);
        assert(ks.take(0) =~= Seq::<SpecBasis>::empty());
    }
    while i < keys.len()
        invariant
            f > 0,
            ks == models(keys@),
            ks.len() == keys@.len(),
            keys@.len() == vals@.len(),
            forall|t: int| 0 <= t < keys@.len() ==> #[trigger] ks[t] == keys@[t]@,
            all_wf(ks),
            i <= keys.len(),
            models(out@) == raise_all(f as nat, ks.take(i as int), vals@.take(i as int)),
            all_wf(models(out@)),
        decreases keys.len() - i,
    {
        proof {
            assert(ks.take(i + 1).drop_last() =~= ks.take(i as int));
            assert(vals@.take(i + 1).drop_last() =~= vals@.take(i as int));
            assert(ks.take(i + 1).last() == ks[i as int]);
            assert(vals@.take(i + 1).last() == vals@[i as int]);
            assert(ks[i as int].wf());
        }
        let v = vals[i];
        let t = if v.n != v.d {
            pow_node(f - 1, v.n, v.d, &keys[i])
        } else {
            keys[i].deep_clone()
        };
        proof {
            lemma_models_push(out@, t);
            lemma_models(out@);
            lemma_models(out@.push(t));
        }
        out.push(t);
        i += 1;
    }
    proof {
        assert(ks.take(keys.len() as int) =~= ks);
        assert(vals@.take(keys.len() as int) =~= vals@);
    }
    out
}

/// Builds a node from its parts.
fn make_node(coefficient: Fraction, operator: BasisOperator, operands: Vec<Basis>) -> (r: Basis)
    ensures
        r@ == SpecBasis::Node(coefficient, operator, models(operands@)),
{
    Basis::BasisNode(BasisNode { coefficient, operator, operands })
}

/// The product of a coefficient, factors and divisors (see `assemble_spec`).
fn assemble_mult(f: u32, coefficient: Fraction, numerator: Vec<Basis>, denominator: Vec<Basis>) -> (r: Basis)
    requires
        f > 0,
        all_wf(models(numerator@)),
        all_wf(models(denominator@)),
    ensures
        r@ == assemble_spec(f as nat, coefficient, models(numerator@), models(denominator@)),
        r@.wf(),
    decreases f, 1int,
{
    // 0 * n = 0
    if any_zero(&numerator) || coefficient.eq_int(0) {
        return Basis::of_num(0);
    }
    // n / 0 is not defined: infinity
    else if any_zero(&denominator) {
        return Basis::inf(1);
    }
    // -INF * x = -INF | x * -INF = -INF
    if any_inf(&numerator, -1) {
        return Basis::inf(-1);
    }
    // INF * x = INF | x * INF = INF
    else if any_inf(&numerator, 1) {
        return Basis::inf(1);
    }
    // n / INF = 0
    else if any_inf(&denominator, -1) || any_inf(&denominator, 1) {
        return Basis::of_num(0);
    }
    let (c2, nk, nv, dk, dv) = final_exponents(coefficient, &numerator, &denominator);
    let fnum = raise_entries(f, &nk, &nv);
    let fden = raise_entries(f, &dk, &dv);
    combine(f, c2, fnum, fden)
}

/// The quotient of the factors `fnum` over `fden`, with the numerator and denominator
/// of `c2` on the sides (see `side_spec`).
fn quotient(c2: Fraction, fnum: Vec<Basis>, fden: Vec<Basis>) -> (r: Basis)
    requires
        all_wf(models(fnum@)),
        all_wf(models(fden@)),
    ensures
        r@ == SpecBasis::node(
            BasisOperator::Div,
            seq![side_spec(c2.n, models(fnum@)), side_spec(c2.d, models(fden@))],
        ),
        r@.wf(),
{
    let top = side(c2.n, fnum);
    let bottom = side(c2.d, fden);
    let mut ops: Vec<Basis> = Vec::new();
    ops.push(top);
    ops.push(bottom);
    proof {
        lemma_models(ops@);
        assert(models(ops@) =~= seq![top@, bottom@]);
    }
    let r = Basis::node(BasisOperator::Div, ops);
    proof {
        assert(models(ops@)[0].wf());
        assert(models(ops@)[1].wf());
    }
    r
}

/// Puts final factors and divisors together (see `combine_spec`).
#[verifier::rlimit(60)]
fn combine(f: u32, c2: Fraction, fnum: Vec<Basis>, fden: Vec<Basis>) -> (r: Basis)
    requires
        f > 0,
        all_wf(models(fnum@)),
        all_wf(models(fden@)),
    ensures
        r@ == combine_spec(f as nat, c2, models(fnum@), models(fden@)),
        r@.wf(),
    decreases f, 0int,
{
    proof {
        lemma_models(fnum@);
        lemma_models(fden@);
    }
    if fnum.len() == 1 && fden.len() == 0 {
        assert(models(fnum@)[0].wf());
        return fnum[0].scale_frac(c2);
    }
    if fden.len() == 1 && fnum.len() == 0 {
        assert(models(fden@)[0].wf());
        let p = pow_node(f - 1, -1, 1, &fden[0]);
        return p.scale_frac(c2);
    }
    if fden.len() > 0 {
        return quotient(c2, fnum, fden);
    }
    if fnum.len() == 0 {
        return Basis::of_frac(c2);
    }
    make_node(c2, BasisOperator::Mult, fnum)
}

/// The product of `operands` with budget `f` (see `mult_spec`).
pub(crate) fn mult_node(f: u32, operands: &Vec<Basis>) -> (r: Basis)
    requires
        all_wf(models(operands@)),
    ensures
        r@ == mult_spec(f as nat, models(operands@)),
        r@.wf(),
    decreases f, 2int,
{
    if f == 0 {
        let mut ops: Vec<Basis> = Vec::new();
        extend_clones(&mut ops, operands);
        proof {
            lemma_models(ops@);
            assert(models(ops@) =~= models(operands@));
        }
        return Basis::node(BasisOperator::Mult, ops);
    }
    let empty: Vec<Basis> = Vec::new();
    proof {
        lemma_models(empty@);
        assert(models(empty@) =~= Seq::<SpecBasis>::empty());
    }
    let (c, num, den) = build_numerator_denominator(operands, &empty);
    assemble_mult(f, c, num, den)
}

/// The factors and divisors of `a / b` (see `div_lists`).
pub(crate) fn div_parts(a: &Basis, b: &Basis) -> (r: (Vec<Basis>, Vec<Basis>))
    requires
        a@.wf(),
        b@.wf(),
    ensures
        (models(r.0@), models(r.1@)) == div_lists(a@, b@),
        all_wf(models(r.0@)),
        all_wf(models(r.1@)),
{
    let mut nl: Vec<Basis> = Vec::new();
    let mut dl: Vec<Basis> = Vec::new();
    proof {
        lemma_models(nl@);
    }
    let mut done = false;
    match a {
        Basis::BasisNode(node) => {
            proof {
                lemma_models(node.operands@);
            }
            if node.operator.same(&BasisOperator::Div) {
                proof {
                    assert(models(node.operands@).len() >= 2);
                    lemma_operand_decreases(*a, 0);
                    lemma_operand_decreases(*a, 1);
                }
                push_clone(&mut nl, &node.operands[0]);
                push_clone(&mut dl, &node.operands[1]);
                done = true;
            }
        },
        _ => {},
    }
    if !done {
        push_clone(&mut nl, a);
    }
    proof {
        lemma_models(nl@);
        lemma_models(dl@);
        assert(models(nl@) =~= (if a@.is_node(BasisOperator::Div) {
            seq![a@->Node_2[0]]
        } else {
            seq![a@]
        }));
        assert(models(dl@) =~= (if a@.is_node(BasisOperator::Div) {
            seq![a@->Node_2[1]]
        } else {
            Seq::<SpecBasis>::empty()
        }));
        assert(all_wf(models(nl@)));
        assert(all_wf(models(dl@)));
    }
    let mut done = false;
    match b {
        Basis::BasisNode(node) => {
            proof {
                lemma_models(node.operands@);
            }
            if node.operator.same(&BasisOperator::Div) {
                proof {
                    assert(models(node.operands@).len() >= 2);
                    lemma_operand_decreases(*b, 0);
                    lemma_operand_decreases(*b, 1);
                }
                push_clone(&mut nl, &node.operands[1]);
                push_clone(&mut dl, &node.operands[0]);
                done = true;
            }
        },
        _ => {},
    }
    if !done {
        push_clone(&mut dl, b);
    }
    proof {
        lemma_models(nl@);
        lemma_models(dl@);
        assert(all_wf(models(nl@)));
        assert(all_wf(models(dl@)));
    }
    (nl, dl)
}

/// `a / b` with budget `f` (see `div_spec`).
pub(crate) fn div_node(f: u32, a: &Basis, b: &Basis) -> (r: Basis)
    requires
        a@.wf(),
        b@.wf(),
    ensures
        r@ == div_spec(f as nat, a@, b@),
        r@.wf(),
    decreases f, 2int,
{
    if f == 0 {
        let mut ops: Vec<Basis> = Vec::new();
        ops.push(a.deep_clone());
        ops.push(b.deep_clone());
        proof {
            lemma_models(ops@);
            assert(models(ops@) =~= seq![a@, b@]);
            assert(models(ops@)[0].wf());
            assert(models(ops@)[1].wf());
        }
        return Basis::node(BasisOperator::Div, ops);
    }
    let ac = a.coefficient();
    let bc = b.coefficient();
    // 0 / n = 0
    if a.is_num(0) {
        return Basis::of_num(0);
    }
    // a / n = an^-1
    else if a.is_frac(ac) {
        let p = pow_node(f - 1, -1, 1, b);
        return p.scale_frac(ac);
    }
    // n / a = (1/a)n
    else if b.is_frac(bc) {
        return a.scale_frac(Fraction { n: bc.d, d: bc.n });
    }
    // an / bn = a/b
    else if a.with_coefficient(1).equals(&b.with_coefficient(1)) {
        return Basis::of_frac(ac.times(bc.d, bc.n));
    }
    // INF / x = INF
    if a.is_inf(1) || a.is_inf(-1) {
        return Basis::inf(ac.sign());
    }
    // x / INF = 0
    else if b.is_inf(1) || b.is_inf(-1) {
        return Basis::of_num(0);
    }
    let (nl, dl) = div_parts(a, b);
    let (c, num, den) = build_numerator_denominator(&nl, &dl);
    assemble_mult(f, c, num, den)
}

/// Each basis of `ops` raised to n/d with budget `f - 1` (see `pow_all`).
fn pow_each(f: u32, n: i32, d: i32, ops: &Vec<Basis>) -> (r: Vec<Basis>)
    requires
        f > 0,
        all_wf(models(ops@)),
    ensures
        models(r@) == pow_all(f as nat, n, d, models(ops@)),
        all_wf(models(r@)),
    decreases f, 0int,
{
    let ghost ks = models(ops@);
    proof {
        lemma_models(ops@);
    }
    let mut out: Vec<Basis> = Vec::new();
    let mut i: usize = 0;
    proof {
        lemma_models(out@);
        assert(ks.take(0) =~= Seq::<SpecBasis>::empty());
    }
    while i < ops.len()
        invariant
            f > 0,
            ks == models(ops@),
            ks.len() == ops@.len(),
            forall|t: int| 0 <= t < ops@.len() ==> #[trigger] ks[t] == ops@[t]@,
            all_wf(ks),
            i <= ops.len(),
            models(out@) == pow_all(f as nat, n, d, ks.take(i as int)),
            all_wf(models(out@)),
        decreases ops.len() - i,
    {
        proof {
            assert(ks.take(i + 1).drop_last() =~= ks.take(i as int));
            assert(ks.take(i + 1).last() == ks[i as int]);
            assert(ks[i as int].wf());
        }
        let t = pow_node(f - 1, n, d, &ops[i]);
        proof {
            lemma_models_push(out@, t);
            lemma_models(out@);
            lemma_models(out@.push(t));
        }
        out.push(t);
        i += 1;
    }
    proof {
        assert(ks.take(ops.len() as int) =~= ks);
    }
    out
}

/// `base ^ (n/d)` with budget `f` (see `pow_spec`).
pub(crate) fn pow_node(f: u32, n: i32, d: i32, base: &Basis) -> (r: Basis)
    requires
        base@.wf(),
    ensures
        r@ == pow_spec(f as nat, n, d, base@),
        r@.wf(),
    decreases f, 2int,
{
    if f == 0 {
        let r = Basis::unary(BasisOperator::Pow(Fraction { n, d }), base.deep_clone());
        proof {
            assert(seq![base@][0].wf());
        }
        return r;
    }
    let p = Fraction { n, d }.reduce();
    let bc = base.coefficient();
    // x^0 = 1
    if p.n == 0 {
        return Basis::of_num(1);
    }
    // x^(n/n) = x
    else if p.eq_int(1) {
        return base.deep_clone();
    }
    // 0^n = 0, 1^n = 1
    else if base.is_num(0) || base.is_num(1) {
        return base.deep_clone();
    }
    // INF^x = INF
    else if base.is_inf(1) {
        return Basis::inf(1);
    }
    // (-INF)^x = INF | -INF
    else if base.is_inf(-1) {
        // odd power
        if p.n > 0 && p.n % 2 == 1 && p.d > 0 && p.d % 2 == 1 {
            return Basis::inf(-1);
        }
        // even power
        return Basis::inf(1);
    }
    match base {
        Basis::BasisNode(node) => {
            proof {
                lemma_models(node.operands@);
            }
            let ic = node.coefficient;
            match node.operator {
                BasisOperator::Pow(ip) => {
                    proof {
                        lemma_operand_decreases(*base, 0);
                    }
                    // a power of x: the exponents multiply
                    if node.operands[0].is_x() {
                        let p2 = p.times(ip.n, ip.d);
                        if p2.eq_int(1) {
                            return Basis::x();
                        }
                        let r = Basis::unary(BasisOperator::Pow(p2), Basis::x()).set_coefficient(ic.power(p.n));
                        proof {
                            assert(seq![SpecBasis::x()][0].wf());
                        }
                        return r;
                    } else if p.times(ip.n, ip.d).eq_int(1) {
                        return node.operands[0].deep_clone();
                    }
                },
                // (e^f(x))^n = e^(nf(x))
                BasisOperator::E => {
                    proof {
                        lemma_operand_decreases(*base, 0);
                    }
                    let inner = node.operands[0].scale_frac(p);
                    let e = Basis::unary(BasisOperator::E, inner);
                    proof {
                        assert(seq![inner@][0].wf());
                    }
                    return e.scale_frac(ic.power(p.n));
                },
                // (a/b)^-n = (b/a)^n
                BasisOperator::Div => {
                    if p.lt_int(0) {
                        proof {
                            assert(models(node.operands@).len() >= 2);
                            lemma_operand_decreases(*base, 0);
                            lemma_operand_decreases(*base, 1);
                        }
                        let q = p.times(-1, 1);
                        let flipped = div_node(f - 1, &node.operands[1], &node.operands[0]);
                        return pow_node(f - 1, q.n, q.d, &flipped);
                    }
                },
                // (ab)^n = a^n * b^n
                BasisOperator::Mult => {
                    let raised = pow_each(f, p.n, p.d, &node.operands);
                    return mult_node(f - 1, &raised);
                },
                _ => {},
            }
        },
        _ => {},
    }
    let unit = base.set_coefficient(Fraction { n: 1, d: 1 });
    let r = Basis::unary(BasisOperator::Pow(p), unit).set_coefficient(bc.power(p.n));
    proof {
        assert(seq![unit@][0] == unit@);
        assert(unit@.wf());
    }
    r
}

} // verus!
