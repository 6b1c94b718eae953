use crate::basis::structs::{
    all_wf, arity_ok, extend_clones, lemma_models, lemma_models_push, lemma_operand_decreases,
    lemma_with_frac_wf, models, push_clone, Basis, BasisElement, BasisLeaf, BasisNode,
    BasisOperator, SpecBasis,
};
use crate::basis::equality::basis_eq;
use crate::basis::product::{
    any_zero, build_nd, build_numerator_denominator, div_lists, div_node, div_parts, div_spec,
    mult_node, mult_spec, pow_node, pow_spec, BUDGET,
};
use crate::basis::tally::{frac_is, has_zero};
use crate::math::fraction::{abs_int, fits32, pow_wrap, Fraction};
use crate::math::gcd::{lemma_simplify_lowest_terms, lemma_simplify_same_value};
use vstd::prelude::*;

verus! {

broadcast use vstd::std_specs::vec::group_vec_axioms;

/// The negation of each tree of `s`.
pub open spec fn negate_all(s: Seq<SpecBasis>) -> Seq<SpecBasis> {
    Seq::new(s.len(), |i: int| s[i].negate())
}

/// The addends of a sum of `ops`: the operands of a sum are taken in; of a difference,
/// the first operand and the negations of the others; any other basis as it is.
pub open spec fn flatten_addends(ops: Seq<SpecBasis>) -> Seq<SpecBasis>
    decreases ops.len(),
{
    if ops.len() == 0 {
        Seq::empty()
    } else {
        let prev = flatten_addends(ops.drop_last());
        let op = ops.last();
        if op.is_node(BasisOperator::Add) {
            prev + op->Node_2
        } else if op.is_node(BasisOperator::Minus) {
            prev.push(op->Node_2[0]) + negate_all(op->Node_2.drop_first())
        } else {
            prev.push(op)
        }
    }
}

/// Whether some tree of `s` is infinity with sign `i`.
pub open spec fn has_inf(s: Seq<SpecBasis>, i: i32) -> bool {
    exists|j: int| 0 <= j < s.len() && (#[trigger] s[j]).is_inf(i)
}

/// The last position of `key` in `keys`, or -1.
pub open spec fn find_key(keys: Seq<SpecBasis>, key: SpecBasis) -> int
    decreases keys.len(),
{
    if keys.len() == 0 {
        -1
    } else if keys.last() == key {
        keys.len() - 1
    } else {
        find_key(keys.drop_last(), key)
    }
}

/// Like terms of `addends` collected: each distinct tree with coefficient 1, beside the
/// sum of the coefficients of the addends that have it, in order of first appearance.
pub open spec fn collect_terms(addends: Seq<SpecBasis>) -> (Seq<SpecBasis>, Seq<Fraction>)
    decreases addends.len(),
{
    if addends.len() == 0 {
        (Seq::empty(), Seq::empty())
    } else {
        let prev = collect_terms(addends.drop_last());
        let a = addends.last();
        let key = a.with_int(1);
        let c = a.coef();
        let idx = find_key(prev.0, key);
        if idx < 0 {
            (prev.0.push(key), prev.1.push(Fraction { n: 0, d: 1 }.plus_spec(c.n, c.d)))
        } else {
            (prev.0, prev.1.update(idx, prev.1[idx].plus_spec(c.n, c.d)))
        }
    }
}

/// The collected terms with their summed coefficients, dropping zero terms.
pub open spec fn final_terms(keys: Seq<SpecBasis>, vals: Seq<Fraction>, n: nat) -> Seq<SpecBasis>
    decreases n,
{
    if n == 0 {
        Seq::empty()
    } else {
        let prev = final_terms(keys, vals, (n - 1) as nat);
        let k = keys[n - 1];
        let v = vals[n - 1];
        if k.is_num(0) || (v.d == 1 && v.n == 0) {
            prev
        } else {
            prev.push(k.set_coef(v))
        }
    }
}

/// The sum of `ops`: infinity if an addend is infinite (positive first), otherwise the
/// like terms combined; 0 when none is left, the term itself when one is left.
pub open spec fn add_node_spec(ops: Seq<SpecBasis>) -> SpecBasis {
    let addends = flatten_addends(ops);
    if has_inf(addends, 1) {
        SpecBasis::inf(1)
    } else if has_inf(addends, -1i32) {
        SpecBasis::inf(-1i32)
    } else {
        let terms = collect_terms(addends);
        let finals = final_terms(terms.0, terms.1, terms.0.len());
        if finals.len() == 0 {
            SpecBasis::integer(0)
        } else if finals.len() == 1 {
            finals[0]
        } else {
            SpecBasis::node(BasisOperator::Add, finals)
        }
    }
}

/// The difference of `ops`: the first operand plus the negations of the others.
pub open spec fn minus_node_spec(ops: Seq<SpecBasis>) -> SpecBasis {
    if ops.len() == 0 {
        add_node_spec(Seq::empty())
    } else {
        add_node_spec(seq![ops[0]] + negate_all(ops.skip(1)))
    }
}

/// Flattening well formed trees gives well formed addends.
pub proof fn lemma_flatten_wf(ops: Seq<SpecBasis>)
    requires
        all_wf(ops),
    ensures
        all_wf(flatten_addends(ops)),
    decreases ops.len(),
{
    if ops.len() > 0 {
        lemma_flatten_wf(ops.drop_last());
        let prev = flatten_addends(ops.drop_last());
        let op = ops.last();
        assert(op.wf());
        if op.is_node(BasisOperator::Add) {
            let inner = op->Node_2;
            assert(all_wf(inner));
            assert(all_wf(prev + inner));
        } else if op.is_node(BasisOperator::Minus) {
            let inner = op->Node_2;
            assert(inner.len() >= 1);
            assert(inner[0].wf());
            assert forall|i: int| 0 <= i < inner.len() - 1 implies (#[trigger] negate_all(
                inner.drop_first(),
            )[i]).wf() by {
                assert(inner.drop_first()[i] == inner[i + 1]);
                assert(inner[i + 1].wf());
                lemma_with_frac_wf(inner[i + 1], inner[i + 1].coef().times_spec(-1i32, 1));
            }
            assert(all_wf(prev.push(inner[0]) + negate_all(inner.drop_first())));
        } else {
            assert(all_wf(prev.push(op)));
        }
    }
}

/// Appends the addends of `op` to `acc` (see `flatten_addends`).
fn push_addends(acc: &mut Vec<Basis>, op: &Basis)
    requires
        op@.wf(),
        all_wf(models(old(acc)@)),
    ensures
        models(final(acc)@) == models(old(acc)@) + (if op@.is_node(BasisOperator::Add) {
            op@->Node_2
        } else if op@.is_node(BasisOperator::Minus) {
            seq![op@->Node_2[0]] + negate_all(op@->Node_2.drop_first())
        } else {
            seq![op@]
        }),
        all_wf(models(final(acc)@)),
{
    proof {
        lemma_models(acc@);
    }
    match op {
        Basis::BasisNode(node) => {
            proof {
                lemma_models(node.operands@);
            }
            if node.operator.same(&BasisOperator::Add) {
                extend_clones(acc, &node.operands);
                proof {
                    lemma_models(acc@);
                    assert(all_wf(models(acc@)));
                }
                return;
            } else if node.operator.same(&BasisOperator::Minus) {
                let ghost start = models(acc@);
                let ghost inner = op@->Node_2;
                push_clone(acc, &node.operands[0]);
                let mut j: usize = 1;
                while j < node.operands.len()
                    invariant
                        *op == Basis::BasisNode(*node),
                        inner == models(node.operands@),
                        inner.len() == node.operands@.len(),
                        forall|t: int| 0 <= t < inner.len() ==> #[trigger] inner[t] == node.operands@[t]@,
                        all_wf(inner),
                        inner.len() >= 1,
                        1 <= j <= node.operands.len(),
                        models(acc@) == start.push(inner[0]) + negate_all(inner.subrange(1, j as int)),
                    decreases node.operands.len() - j,
                {
                    let ng = node.operands[j].negated();
                    proof {
                        lemma_models_push(acc@, ng);
                        assert(negate_all(inner.subrange(1, j + 1)) =~= negate_all(inner.subrange(1, j as int)).push(inner[j as int].negate()));
                    }
                    acc.push(ng);
                    j += 1;
                }
                proof {
                    assert(inner.subrange(1, inner.len() as int) =~= inner.drop_first());
                    lemma_models(acc@);
                    assert forall|i: int| 0 <= i < inner.len() - 1 implies (#[trigger] negate_all(
                        inner.drop_first(),
                    )[i]).wf() by {
                        assert(inner.drop_first()[i] == inner[i + 1]);
                        assert(inner[i + 1].wf());
                        lemma_with_frac_wf(inner[i + 1], inner[i + 1].coef().times_spec(-1i32, 1));
                    }
                    assert(all_wf(models(acc@)));
                }
                return;
            }
        },
        _ => {},
    }
    push_clone(acc, op);
    proof {
        lemma_models(acc@);
        assert(all_wf(models(acc@)));
    }
}

/// `find_key` is -1 or a position holding `key`.
pub proof fn lemma_find_key(keys: Seq<SpecBasis>, key: SpecBasis)
    ensures
        -1 <= find_key(keys, key) < keys.len(),
        find_key(keys, key) >= 0 ==> keys[find_key(keys, key)] == key,
    decreases keys.len(),
{
    if keys.len() > 0 && keys.last() != key {
        lemma_find_key(keys.drop_last(), key);
    }
}

/// The last position of `key` in `keys` (see `find_key`).
pub(crate) fn find_term(keys: &Vec<Basis>, key: &Basis) -> (r: Option<usize>)
    ensures
        r matches Some(j) ==> j as int == find_key(models(keys@), key@) && j < keys@.len(),
        r is None ==> find_key(models(keys@), key@) == -1,
{
    let ghost ks = models(keys@);
    proof {
        lemma_models(keys@);
    }
    let mut j: usize = keys.len();
    proof {
        assert(ks.take(j as int) =~= ks);
    }
    while j > 0
        invariant
            j <= keys@.len(),
            ks == models(keys@),
            ks.len() == keys@.len(),
            forall|t: int| 0 <= t < keys@.len() ==> #[trigger] ks[t] == keys@[t]@,
            find_key(ks, key@) == find_key(ks.take(j as int), key@),
        decreases j,
    {
        proof {
            assert(ks.take(j as int).last() == ks[j - 1]);
            assert(ks.take(j as int).drop_last() =~= ks.take(j - 1));
        }
        if keys[j - 1].same(key) {
            return Some(j - 1);
        }
        j -= 1;
    }
    None
}

/// Whether some basis of `v` is infinity with sign `i`.
pub(crate) fn any_inf(v: &Vec<Basis>, i: i32) -> (r: bool)
    requires
        i == 1 || i == -1,
    ensures
        r == has_inf(models(v@), i),
{
    proof {
        lemma_models(v@);
    }
    let mut j: usize = 0;
    while j < v.len()
        invariant
            i == 1 || i == -1,
            j <= v@.len(),
            models(v@).len() == v@.len(),
            forall|t: int| 0 <= t < v@.len() ==> #[trigger] models(v@)[t] == v@[t]@,
            forall|t: int| 0 <= t < j ==> !(#[trigger] models(v@)[t]).is_inf(i),
        decreases v.len() - j,
    {
        if v[j].is_inf(i) {
            assert(models(v@)[j as int].is_inf(i));
            return true;
        }
        j += 1;
    }
    false
}

/// The like terms of `addends` (see `collect_terms`).
fn collect(addends: &Vec<Basis>) -> (r: (Vec<Basis>, Vec<Fraction>))
    requires
        all_wf(models(addends@)),
    ensures
        (models(r.0@), r.1@) == collect_terms(models(addends@)),
        r.0@.len() == r.1@.len(),
        all_wf(models(r.0@)),
{
    let ghost ads = models(addends@);
    proof {
        lemma_models(addends@);
    }
    let mut keys: Vec<Basis> = Vec::new();
    let mut vals: Vec<Fraction> = Vec::new();
    let mut i: usize = 0;
    while i < addends.len()
        invariant
            ads == models(addends@),
            ads.len() == addends@.len(),
            forall|t: int| 0 <= t < addends@.len() ==> #[trigger] ads[t] == addends@[t]@,
            all_wf(ads),
            i <= addends.len(),
            (models(keys@), vals@) == collect_terms(ads.take(i as int)),
            keys@.len() == vals@.len(),
            all_wf(models(keys@)),
        decreases addends.len() - i,
    {
        proof {
            assert(ads.take(i + 1).drop_last() =~= ads.take(i as int));
            assert(ads.take(i + 1).last() == ads[i as int]);
            lemma_models(keys@);
            assert(ads[i as int].wf());
        }
        let addend = &addends[i];
        let key = addend.with_coefficient(1);
        let c = addend.coefficient();
        proof {
            lemma_with_frac_wf(addend@, Fraction { n: 1, d: 1 });
            lemma_find_key(models(keys@), key@);
        }
        match find_term(&keys, &key) {
            Some(j) => {
                let v = vals[j].plus(c.n, c.d);
                vals.set(j, v);
            },
            None => {
                let v = Fraction { n: 0, d: 1 }.plus(c.n, c.d);
                proof {
                    lemma_models_push(keys@, key);
                    lemma_models(keys@.push(key));
                }
                keys.push(key);
                vals.push(v);
            },
        }
        i += 1;
        proof {
            lemma_models(keys@);
        }
    }
    proof {
        assert(ads.take(addends.len() as int) =~= ads);
    }
    (keys, vals)
}

/// The collected terms that are not zero, each with its summed coefficient.
fn finals(keys: &Vec<Basis>, vals: &Vec<Fraction>) -> (r: Vec<Basis>)
    requires
        keys@.len() == vals@.len(),
        all_wf(models(keys@)),
    ensures
        models(r@) == final_terms(models(keys@), vals@, keys@.len() as nat),
        all_wf(models(r@)),
{
    let ghost ks = models(keys@);
    proof {
        lemma_models(keys@);
    }
    let mut out: Vec<Basis> = Vec::new();
    let mut i: usize = 0;
    while i < keys.len()
        invariant
            ks == models(keys@),
            ks.len() == keys@.len(),
            keys@.len() == vals@.len(),
            forall|t: int| 0 <= t < keys@.len() ==> #[trigger] ks[t] == keys@[t]@,
            all_wf(ks),
            i <= keys.len(),
            models(out@) == final_terms(ks, vals@, i as nat),
            all_wf(models(out@)),
        decreases keys.len() - i,
    {
        let k = &keys[i];
        let v = vals[i];
        if !(k.is_num(0) || v.eq_int(0)) {
            let t = k.set_coefficient(v);
            proof {
                assert(ks[i as int].wf());
                lemma_models_push(out@, t);
                lemma_models(out@);
                lemma_models(out@.push(t));
                assert(t@.wf());
            }
            out.push(t);
        }
        i += 1;
    }
    out
}

/// The sum of `operands`: nested sums and differences are flattened, an infinite
/// addend decides the result, like terms are combined and zero terms dropped.
#[allow(non_snake_case)]
pub fn AddBasisNode(operands: Vec<Basis>) -> (r: Basis)
    requires
        all_wf(models(operands@)),
    ensures
        r@ == add_node_spec(models(operands@)),
        r@.wf(),
{
    let ghost ops = models(operands@);
    proof {
        lemma_models(operands@);
    }
    let mut addends: Vec<Basis> = Vec::new();
    let mut i: usize = 0;
    while i < operands.len()
        invariant
            ops == models(operands@),
            ops.len() == operands@.len(),
            forall|t: int| 0 <= t < operands@.len() ==> #[trigger] ops[t] == operands@[t]@,
            all_wf(ops),
            i <= operands.len(),
            models(addends@) == flatten_addends(ops.take(i as int)),
            all_wf(models(addends@)),
        decreases operands.len() - i,
    {
        proof {
            assert(ops.take(i + 1).drop_last() =~= ops.take(i as int));
            assert(ops.take(i + 1).last() == ops[i as int]);
            assert(ops[i as int].wf());
        }
        push_addends(&mut addends, &operands[i]);
        i += 1;
    }
    proof {
        assert(ops.take(operands.len() as int) =~= ops);
    }
    // INF + x = INF | x + INF = INF
    if any_inf(&addends, 1) {
        return Basis::inf(1);
    }
    // -INF + x = -INF | x + -INF = -INF
    else if any_inf(&addends, -1) {
        return Basis::inf(-1);
    }
    // combine like terms
    let (keys, vals) = collect(&addends);
    let final_operands = finals(&keys, &vals);
    proof {
        lemma_models(final_operands@);
        lemma_models(keys@);
        assert(!has_inf(flatten_addends(ops), 1));
        assert(!has_inf(flatten_addends(ops), -1i32));
    }
    if final_operands.len() == 0 {
        return Basis::of_num(0);
    }
    if final_operands.len() == 1 {
        assert(models(final_operands@)[0].wf());
        return final_operands[0].deep_clone();
    }
    Basis::node(BasisOperator::Add, final_operands)
}

/// The difference of `operands`: the first plus the negations of the others.
#[allow(non_snake_case)]
pub fn MinusBasisNode(operands: Vec<Basis>) -> (r: Basis)
    requires
        all_wf(models(operands@)),
    ensures
        r@ == minus_node_spec(models(operands@)),
        r@.wf(),
{
    let ghost ops = models(operands@);
    proof {
        lemma_models(operands@);
    }
    let mut all: Vec<Basis> = Vec::new();
    let mut i: usize = 0;
    while i < operands.len()
        invariant
            ops == models(operands@),
            ops.len() == operands@.len(),
            forall|t: int| 0 <= t < operands@.len() ==> #[trigger] ops[t] == operands@[t]@,
            all_wf(ops),
            i <= operands.len(),
            models(all@) == ops.take(if i == 0 { 0 } else { 1 }) + negate_all(
                ops.subrange(if i == 0 { 0 } else { 1 }, i as int),
            ),
            all_wf(models(all@)),
        decreases operands.len() - i,
    {
        let b = if i == 0 {
            operands[i].deep_clone()
        } else {
            operands[i].negated()
        };
        proof {
            assert(ops[i as int].wf());
            lemma_with_frac_wf(ops[i as int], ops[i as int].coef().times_spec(-1i32, 1));
            lemma_models_push(all@, b);
            lemma_models(all@);
            lemma_models(all@.push(b));
            if i == 0 {
                assert(ops.take(1) =~= seq![ops[0]]);
                assert(negate_all(ops.subrange(1, 1)) =~= Seq::<SpecBasis>::empty());
            } else {
                assert(negate_all(ops.subrange(1, i + 1)) =~= negate_all(ops.subrange(1, i as int)).push(ops[i as int].negate()));
            }
        }
        all.push(b);
        i += 1;
    }
    proof {
        if ops.len() == 0 {
            assert(models(all@) =~= Seq::<SpecBasis>::empty());
        } else {
            assert(ops.skip(1) =~= ops.subrange(1, ops.len() as int));
            assert(ops.take(1) =~= seq![ops[0]]);
        }
    }
    AddBasisNode(all)
}

/// An operand that is not a sum or difference is one of the addends.
proof fn lemma_flatten_keeps(ops: Seq<SpecBasis>, i: int)
    requires
        0 <= i < ops.len(),
        !ops[i].is_node(BasisOperator::Add),
        !ops[i].is_node(BasisOperator::Minus),
    ensures
        exists|j: int| 0 <= j < flatten_addends(ops).len() && flatten_addends(ops)[j] == ops[i],
    decreases ops.len(),
{
    let prev = flatten_addends(ops.drop_last());
    if i == ops.len() - 1 {
        assert(flatten_addends(ops) == prev.push(ops[i]));
        assert(flatten_addends(ops)[prev.len() as int] == ops[i]);
    } else {
        lemma_flatten_keeps(ops.drop_last(), i);
        let j = choose|j: int| 0 <= j < prev.len() && prev[j] == ops.drop_last()[i];
        let op = ops.last();
        if op.is_node(BasisOperator::Add) {
            assert(flatten_addends(ops)[j] == prev[j]);
        } else if op.is_node(BasisOperator::Minus) {
            assert(flatten_addends(ops)[j] == prev[j]);
        } else {
            assert(flatten_addends(ops)[j] == prev[j]);
        }
    }
}

/// Infinity absorbs a sum: with positive infinity among the operands the sum is
/// positive infinity.
pub proof fn lemma_add_absorbs_infinity(ops: Seq<SpecBasis>, i: int)
    requires
        0 <= i < ops.len(),
        ops[i].is_inf(1),
    ensures
        add_node_spec(ops) == SpecBasis::inf(1),
{
    lemma_flatten_keeps(ops, i);
    let j = choose|j: int| 0 <= j < flatten_addends(ops).len() && flatten_addends(ops)[j] == ops[i];
    assert(flatten_addends(ops)[j].is_inf(1));
    assert(has_inf(flatten_addends(ops), 1));
}

/// Negative infinity absorbs a sum whose addends hold no positive infinity.
pub proof fn lemma_add_absorbs_negative_infinity(ops: Seq<SpecBasis>, i: int)
    requires
        0 <= i < ops.len(),
        ops[i].is_inf(-1i32),
        !has_inf(flatten_addends(ops), 1),
    ensures
        add_node_spec(ops) == SpecBasis::inf(-1i32),
{
    lemma_flatten_keeps(ops, i);
    let j = choose|j: int| 0 <= j < flatten_addends(ops).len() && flatten_addends(ops)[j] == ops[i];
    assert(flatten_addends(ops)[j].is_inf(-1i32));
    assert(has_inf(flatten_addends(ops), -1i32));
}

/// One to any power is one.
proof fn lemma_one_pow(e: nat)
    ensures
        pow_wrap(1, e) == 1,
    decreases e,
{
    if e > 0 {
        lemma_one_pow((e - 1) as nat);
    }
}

/// (x^a)^b = x^(a·b) for nonzero exponents.
proof fn lemma_power_of_power_of_x_nonzero(n1: i32, d1: i32, n2: i32, d2: i32)
    requires
        n1 != 0,
        n2 != 0,
        d1 != 0,
        d2 != 0,
        n1 != i32::MIN,
        n2 != i32::MIN,
        d1 != i32::MIN,
        d2 != i32::MIN,
        fits32(n1 * n2),
        n1 * n2 != i32::MIN,
        fits32(d1 * d2),
        d1 * d2 != i32::MIN,
    ensures
        pow_spec(BUDGET as nat, n2, d2, pow_spec(BUDGET as nat, n1, d1, SpecBasis::x()))
            == pow_spec(BUDGET as nat, (n1 * n2) as i32, (d1 * d2) as i32, SpecBasis::x()),
{
    let one = Fraction { n: 1, d: 1 };
    let x = SpecBasis::x();
    let a = Fraction { n: n1, d: d1 };
    let b = Fraction { n: n2, d: d2 };
    let ab = Fraction { n: (n1 * n2) as i32, d: (d1 * d2) as i32 };
    assert(ab.n == n1 * n2 && ab.d == d1 * d2);
    assert(ab.n != 0 && ab.d != 0) by (nonlinear_arith)
        requires
            ab.n == n1 * n2,
            ab.d == d1 * d2,
            n1 != 0,
            n2 != 0,
            d1 != 0,
            d2 != 0,
    ;
    lemma_simplify_lowest_terms(a);
    lemma_simplify_lowest_terms(b);
    lemma_simplify_lowest_terms(ab);
    let p1 = a.reduce_spec();
    let p2 = b.reduce_spec();
    let q = ab.reduce_spec();
    assert(p1.n != 0 && p2.n != 0 && q.n != 0) by (nonlinear_arith)
        requires
            p1.n * d1 == n1 * p1.d,
            p2.n * d2 == n2 * p2.d,
            q.n * ab.d == ab.n * q.d,
            p1.d > 0,
            p2.d > 0,
            q.d > 0,
            n1 != 0,
            n2 != 0,
            ab.n != 0,
    ;
    lemma_one_pow(abs_int(p1.n as int) as nat);
    lemma_one_pow(abs_int(p2.n as int) as nat);
    lemma_one_pow(abs_int(q.n as int) as nat);
    assert(one.pow_spec(p1.n) == one && one.pow_spec(p2.n) == one && one.pow_spec(q.n) == one);
    assert(x.set_coef(one) == x);
    let node1 = SpecBasis::Node(one, BasisOperator::Pow(p1), seq![x]);
    let rhs = if frac_is(q, 1) {
        x
    } else {
        SpecBasis::Node(one, BasisOperator::Pow(q), seq![x])
    };
    assert(pow_spec(BUDGET as nat, ab.n, ab.d, x) == rhs);
    if frac_is(p1, 1) {
        // x^1 is x: both sides are x to the power b
        assert(pow_spec(BUDGET as nat, n1, d1, x) == x);
        assert(n1 == d1) by (nonlinear_arith)
            requires
                p1.n * d1 == n1 * p1.d,
                p1.n == 1,
                p1.d == 1,
        ;
        assert(n2 * ab.d == ab.n * d2) by (nonlinear_arith)
            requires
                ab.n == n1 * n2,
                ab.d == d1 * d2,
                n1 == d1,
        ;
        lemma_simplify_same_value(b, ab);
    } else {
        assert(pow_spec(BUDGET as nat, n1, d1, x) == node1);
        if frac_is(p2, 1) {
            // a power 1 leaves x^a as it is
            assert(n2 == d2) by (nonlinear_arith)
                requires
                    p2.n * d2 == n2 * p2.d,
                    p2.n == 1,
                    p2.d == 1,
            ;
            assert(n1 * ab.d == ab.n * d1) by (nonlinear_arith)
                requires
                    ab.n == n1 * n2,
                    ab.d == d1 * d2,
                    n2 == d2,
            ;
            lemma_simplify_same_value(a, ab);
        } else {
            // the exponents multiply
            let m = Fraction { n: (p2.n * p1.n) as i32, d: (p2.d * p1.d) as i32 };
            assert(abs_int(p2.n * p1.n) <= abs_int(n1 * n2) && p2.d * p1.d <= abs_int(d1 * d2))
                by (nonlinear_arith)
                requires
                    abs_int(p1.n as int) <= abs_int(n1 as int),
                    abs_int(p2.n as int) <= abs_int(n2 as int),
                    0 < p1.d <= abs_int(d1 as int),
                    0 < p2.d <= abs_int(d2 as int),
            ;
            assert(m.n == p2.n * p1.n && m.d == p2.d * p1.d);
            assert(p2.times_spec(p1.n, p1.d) == m.reduce_spec());
            assert(m.d > 0) by (nonlinear_arith)
                requires
                    m.d == p2.d * p1.d,
                    p1.d > 0,
                    p2.d > 0,
            ;
            let u = p1.n * d1;
            let v = p2.n * d2;
            assert(m.n * ab.d == u * v) by (nonlinear_arith)
                requires
                    m.n == p2.n * p1.n,
                    ab.d == d1 * d2,
                    u == p1.n * d1,
                    v == p2.n * d2,
            ;
            assert(u * v == ab.n * m.d) by (nonlinear_arith)
                requires
                    u == n1 * p1.d,
                    v == n2 * p2.d,
                    ab.n == n1 * n2,
                    m.d == p2.d * p1.d,
            ;
            lemma_simplify_same_value(m, ab);
        }
    }
}

/// A power of a power of x multiplies the exponents: (x^a)^b = x^(a·b), for exponents
/// with nonzero denominators whose products stay within 32 bits.
pub proof fn lemma_power_of_power_of_x(n1: i32, d1: i32, n2: i32, d2: i32)
    requires
        d1 != 0,
        d2 != 0,
        n1 != i32::MIN,
        n2 != i32::MIN,
        d1 != i32::MIN,
        d2 != i32::MIN,
        fits32(n1 * n2),
        n1 * n2 != i32::MIN,
        fits32(d1 * d2),
        d1 * d2 != i32::MIN,
    ensures
        pow_spec(BUDGET as nat, n2, d2, pow_spec(BUDGET as nat, n1, d1, SpecBasis::x()))
            == pow_spec(BUDGET as nat, (n1 * n2) as i32, (d1 * d2) as i32, SpecBasis::x()),
{
    if n1 != 0 && n2 != 0 {
        lemma_power_of_power_of_x_nonzero(n1, d1, n2, d2);
    } else {
        // a zero exponent gives 1 on both sides
        let a = Fraction { n: n1, d: d1 };
        let b = Fraction { n: n2, d: d2 };
        let ab = Fraction { n: (n1 * n2) as i32, d: (d1 * d2) as i32 };
        assert(ab.n == n1 * n2 && ab.d == d1 * d2);
        assert(ab.n == 0 && ab.d != 0) by (nonlinear_arith)
            requires
                ab.n == n1 * n2,
                ab.d == d1 * d2,
                n1 == 0 || n2 == 0,
                d1 != 0,
                d2 != 0,
        ;
        lemma_simplify_lowest_terms(a);
        lemma_simplify_lowest_terms(b);
        lemma_simplify_lowest_terms(ab);
        let p1 = a.reduce_spec();
        let p2 = b.reduce_spec();
        let q = ab.reduce_spec();
        assert(q.n == 0) by (nonlinear_arith)
            requires
                q.n * ab.d == ab.n * q.d,
                ab.n == 0,
                ab.d != 0,
        ;
        assert(pow_spec(BUDGET as nat, ab.n, ab.d, SpecBasis::x()) == SpecBasis::integer(1));
        if n2 == 0 {
            assert(p2.n == 0) by (nonlinear_arith)
                requires
                    p2.n * d2 == n2 * p2.d,
                    n2 == 0,
                    d2 != 0,
            ;
        } else {
            assert(p1.n == 0) by (nonlinear_arith)
                requires
                    p1.n * d1 == n1 * p1.d,
                    n1 == 0,
                    d1 != 0,
            ;
            assert(pow_spec(BUDGET as nat, n1, d1, SpecBasis::x()) == SpecBasis::integer(1));
        }
    }
}

/// The logarithm undoes the exponential: log(e^f) = f, for every f that is not a sum or
/// a difference, except where the sum with log(1) = 0 loses f's coefficient: a
/// coefficient 0 on anything but a number, and on a number a zero denominator or a
/// numerator 0 over a denominator other than 1.
pub proof fn lemma_log_of_exp(f: SpecBasis)
    requires
        !f.is_node(BasisOperator::Add),
        !f.is_node(BasisOperator::Minus),
        f is Leaf && f->Leaf_1 == BasisElement::Num ==> f.coef().d != 0 && (f.coef().n != 0
            || f.coef().d == 1),
        !(f is Leaf && f->Leaf_1 == BasisElement::Num) ==> !(f.coef().n == 0 && f.coef().d == 1),
    ensures
        log_node_spec(SpecBasis::node(BasisOperator::E, seq![f])) == f,
{
    assert(log_number_spec(Fraction { n: 1, d: 1 }) == SpecBasis::integer(0));
    lemma_add_zero(f);
}

/// Adding 0 to a term that is not a sum or a difference leaves it as it is, except
/// where the sum loses its coefficient: a coefficient 0 on anything but a number, and on
/// a number a zero denominator or a numerator 0 over a denominator other than 1.
pub proof fn lemma_add_zero(f: SpecBasis)
    requires
        !f.is_node(BasisOperator::Add),
        !f.is_node(BasisOperator::Minus),
        f is Leaf && f->Leaf_1 == BasisElement::Num ==> f.coef().d != 0 && (f.coef().n != 0
            || f.coef().d == 1),
        !(f is Leaf && f->Leaf_1 == BasisElement::Num) ==> !(f.coef().n == 0 && f.coef().d == 1),
    ensures
        add_node_spec(seq![f, SpecBasis::integer(0)]) == f,
{
    let zero = SpecBasis::integer(0);
    let one = SpecBasis::integer(1);
    let fzero = Fraction { n: 0, d: 1 };
    let ops = seq![f, zero];
    // the addends are f and 0
    assert(ops.drop_last() =~= seq![f]);
    assert(seq![f].drop_last() =~= Seq::<SpecBasis>::empty());
    reveal_with_fuel(flatten_addends, 3);
    let addends = flatten_addends(ops);
    assert(flatten_addends(seq![f]) =~= seq![f]);
    assert(addends =~= ops);
    if f.is_inf(1) {
        // infinity absorbs the sum
        assert(addends[0].is_inf(1));
        assert(has_inf(addends, 1));
    } else if f.is_inf(-1i32) {
        assert(!has_inf(addends, 1));
        assert(addends[0].is_inf(-1i32));
        assert(has_inf(addends, -1i32));
    } else {
        assert(!has_inf(addends, 1));
        assert(!has_inf(addends, -1i32));
        // f and 0 are collected as two terms, or as one where f is a number
        reveal_with_fuel(collect_terms, 3);
        reveal_with_fuel(find_key, 2);
        let c = f.coef();
        let key = f.with_int(1);
        assert(key == f.set_coef(Fraction { n: 1, d: 1 }));
        assert(fzero.plus_spec(c.n, c.d) == c);
        assert(collect_terms(seq![f]) == (seq![key], seq![c]));
        assert(zero.with_int(1) == one);
        let terms = collect_terms(ops);
        reveal_with_fuel(final_terms, 3);
        if key == one {
            assert(find_key(seq![key], one) == 0);
            assert(c.plus_spec(0, 1) == c);
            assert(seq![c].update(0, c) =~= seq![c]);
            assert(terms == (seq![key], seq![c]));
            assert(final_terms(terms.0, terms.1, 0) =~= Seq::<SpecBasis>::empty());
            if c == fzero {
                assert(final_terms(terms.0, terms.1, 1) =~= Seq::<SpecBasis>::empty());
            } else {
                assert(final_terms(terms.0, terms.1, 1) =~= seq![f]);
            }
        } else {
            assert(find_key(seq![key], one) == -1);
            assert(terms.0 =~= seq![key, one]);
            assert(terms.1 =~= seq![c, fzero]);
            assert(final_terms(terms.0, terms.1, 0) =~= Seq::<SpecBasis>::empty());
            assert(final_terms(terms.0, terms.1, 1) =~= seq![f]);
            assert(final_terms(terms.0, terms.1, 2) =~= seq![f]);
        }
    }
}

/// Whether `p` is an x leaf or a node other than a sum or difference, with a coefficient
/// that is a number other than zero.
pub open spec fn plain_term(p: SpecBasis) -> bool {
    &&& match p {
        SpecBasis::Leaf(_, e) => e == BasisElement::X,
        SpecBasis::Node(_, op, _) => op != BasisOperator::Add && op != BasisOperator::Minus,
    }
    &&& p.coef().n != 0
    &&& p.coef().d != 0
}

/// Two plain unlike terms add up to the sum node of the two, and adding 0 to that sum
/// leaves it as it is.
pub proof fn lemma_add_two_unlike_terms(p: SpecBasis, q: SpecBasis)
    requires
        plain_term(p),
        plain_term(q),
        p.with_int(1) != q.with_int(1),
    ensures
        add_node_spec(seq![p, q]) == SpecBasis::node(BasisOperator::Add, seq![p, q]),
        add_node_spec(seq![SpecBasis::node(BasisOperator::Add, seq![p, q]), SpecBasis::integer(0)])
            == SpecBasis::node(BasisOperator::Add, seq![p, q]),
{
    let one = SpecBasis::integer(1);
    let zero = SpecBasis::integer(0);
    let fzero = Fraction { n: 0, d: 1 };
    let kp = p.with_int(1);
    let kq = q.with_int(1);
    let cp = p.coef();
    let cq = q.coef();
    reveal_with_fuel(flatten_addends, 3);
    reveal_with_fuel(collect_terms, 4);
    reveal_with_fuel(find_key, 3);
    reveal_with_fuel(final_terms, 4);
    assert(kp.set_coef(cp) == p);
    assert(kq.set_coef(cq) == q);
    assert(kp != one && kq != one);
    // p + q
    let ops = seq![p, q];
    assert(ops.drop_last() =~= seq![p]);
    assert(seq![p].drop_last() =~= Seq::<SpecBasis>::empty());
    assert(flatten_addends(seq![p]) =~= seq![p]);
    assert(flatten_addends(ops) =~= ops);
    assert(!has_inf(ops, 1) && !has_inf(ops, -1i32));
    assert(collect_terms(seq![p]) == (seq![kp], seq![cp]));
    assert(find_key(seq![kp], kq) == -1);
    assert(collect_terms(ops) == (seq![kp, kq], seq![cp, cq]));
    let keys = seq![kp, kq];
    let vals = seq![cp, cq];
    assert(final_terms(keys, vals, 0) =~= Seq::<SpecBasis>::empty());
    assert(final_terms(keys, vals, 1) =~= seq![p]);
    assert(final_terms(keys, vals, 2) =~= seq![p, q]);
    // (p + q) + 0
    let s = SpecBasis::node(BasisOperator::Add, seq![p, q]);
    let ops2 = seq![s, zero];
    assert(ops2.drop_last() =~= seq![s]);
    assert(seq![s].drop_last() =~= Seq::<SpecBasis>::empty());
    assert(flatten_addends(seq![s]) =~= seq![p, q]);
    let addends = seq![p, q, zero];
    assert(flatten_addends(ops2) =~= addends);
    assert(!has_inf(addends, 1) && !has_inf(addends, -1i32));
    assert(addends.drop_last() =~= ops);
    assert(zero.with_int(1) == one);
    assert(find_key(keys, one) == -1);
    assert(collect_terms(addends) == (seq![kp, kq, one], seq![cp, cq, fzero]));
    let keys2 = seq![kp, kq, one];
    let vals2 = seq![cp, cq, fzero];
    assert(final_terms(keys2, vals2, 0) =~= Seq::<SpecBasis>::empty());
    assert(final_terms(keys2, vals2, 1) =~= seq![p]);
    assert(final_terms(keys2, vals2, 2) =~= seq![p, q]);
    assert(final_terms(keys2, vals2, 3) =~= seq![p, q]);
}

/// Whether assembling a product with coefficient `c`, factors `num` and divisors `den`
/// divides by zero: no factor is zero, but a divisor is.
pub open spec fn assemble_divides_by_zero(c: Fraction, num: Seq<SpecBasis>, den: Seq<SpecBasis>) -> bool {
    !(has_zero(num) || frac_is(c, 0)) && has_zero(den)
}

/// Whether the product of `ops` divides by zero at its own level.
pub open spec fn mult_divides_by_zero(ops: Seq<SpecBasis>) -> bool {
    let t = build_nd(ops, Seq::empty());
    assemble_divides_by_zero(t.0, t.1, t.2)
}

/// Whether `a / b` reaches the general case, where the sides are multiplied out.
pub open spec fn div_is_general(a: SpecBasis, b: SpecBasis) -> bool {
    &&& !a.is_num(0)
    &&& !a.is_frac(a.coef())
    &&& !b.is_frac(b.coef())
    &&& !basis_eq(a.with_int(1), b.with_int(1))
    &&& !(a.is_inf(1) || a.is_inf(-1i32))
    &&& !(b.is_inf(1) || b.is_inf(-1i32))
}

/// Whether `a / b` divides by zero at its own level.
pub open spec fn div_divides_by_zero(a: SpecBasis, b: SpecBasis) -> bool {
    let l = div_lists(a, b);
    let t = build_nd(l.0, l.1);
    div_is_general(a, b) && assemble_divides_by_zero(t.0, t.1, t.2)
}

/// Whether the product of `operands` divides by zero at its own level (see
/// `mult_divides_by_zero`).
pub fn mult_divides_by_zero_exec(operands: &Vec<Basis>) -> (r: bool)
    requires
        all_wf(models(operands@)),
    ensures
        r == mult_divides_by_zero(models(operands@)),
{
    let empty: Vec<Basis> = Vec::new();
    proof {
        lemma_models(empty@);
        assert(models(empty@) =~= Seq::<SpecBasis>::empty());
    }
    let (c, num, den) = build_numerator_denominator(operands, &empty);
    !(any_zero(&num) || c.eq_int(0)) && any_zero(&den)
}

/// Whether `a / b` divides by zero at its own level (see `div_divides_by_zero`).
pub fn div_divides_by_zero_exec(a: &Basis, b: &Basis) -> (r: bool)
    requires
        a@.wf(),
        b@.wf(),
    ensures
        r == div_divides_by_zero(a@, b@),
{
    let ac = a.coefficient();
    let bc = b.coefficient();
    if a.is_num(0) || a.is_frac(ac) || b.is_frac(bc) || a.with_coefficient(1).equals(&b.with_coefficient(1))
        || a.is_inf(1) || a.is_inf(-1) || b.is_inf(1) || b.is_inf(-1) {
        return false;
    }
    let (nl, dl) = div_parts(a, b);
    let (c, num, den) = build_numerator_denominator(&nl, &dl);
    !(any_zero(&num) || c.eq_int(0)) && any_zero(&den)
}

/// The product of `operands`: nested products and quotients are unfolded, numbers go
/// into the coefficient, equal bases have their exponents combined (see `mult_spec`).
/// A divisor that is zero is refused.
#[allow(non_snake_case)]
pub fn MultBasisNode(operands: Vec<Basis>) -> (r: Basis)
    requires
        all_wf(models(operands@)),
        !mult_divides_by_zero(models(operands@)),
    ensures
        r@ == mult_spec(BUDGET as nat, models(operands@)),
        r@.wf(),
{
    mult_node(BUDGET, &operands)
}

/// The quotient `numerator / denominator` (see `div_spec`). A divisor that is zero is
/// refused.
#[allow(non_snake_case)]
pub fn DivBasisNode(numerator: &Basis, denominator: &Basis) -> (r: Basis)
    requires
        numerator@.wf(),
        denominator@.wf(),
        !div_divides_by_zero(numerator@, denominator@),
    ensures
        r@ == div_spec(BUDGET as nat, numerator@, denominator@),
        r@.wf(),
{
    div_node(BUDGET, numerator, denominator)
}

/// `base` to the rational power n/d (see `pow_spec`); the exponent must reduce.
#[allow(non_snake_case)]
pub fn PowBasisNode(n: i32, d: i32, base: &Basis) -> (r: Basis)
    requires
        base@.wf(),
        (Fraction { n, d }).simplify_ok(),
    ensures
        r@ == pow_spec(BUDGET as nat, n, d, base@),
        r@.wf(),
{
    pow_node(BUDGET, n, d, base)
}

/// `base` to the power n/2.
#[allow(non_snake_case)]
pub fn SqrtBasisNode(n: i32, base: &Basis) -> (r: Basis)
    requires
        base@.wf(),
        n != i32::MIN,
    ensures
        r@ == pow_spec(BUDGET as nat, n, 2, base@),
        r@.wf(),
{
    PowBasisNode(n, 2, base)
}

/// The logarithm of the number `c`: 0 for 1, negative infinity for 0, otherwise a log
/// node of the number.
pub open spec fn log_number_spec(c: Fraction) -> SpecBasis {
    if frac_is(c, 1) {
        SpecBasis::integer(0)
    } else if frac_is(c, 0) {
        SpecBasis::inf(-1i32)
    } else {
        SpecBasis::node(BasisOperator::Log, seq![SpecBasis::num(c)])
    }
}

/// A log node of `b`: log(1) = 0; log(c·e^g) = g + log(c); log of infinity is infinity;
/// log(0) is negative infinity; otherwise a log node.
pub open spec fn log_node_spec(b: SpecBasis) -> SpecBasis {
    if b.is_num(1) {
        SpecBasis::integer(0)
    } else if b.is_node(BasisOperator::E) {
        add_node_spec(seq![b->Node_2[0], log_number_spec(b.coef())])
    } else if b.is_inf(1) {
        SpecBasis::inf(1)
    } else if b.is_num(0) {
        SpecBasis::inf(-1i32)
    } else {
        SpecBasis::node(BasisOperator::Log, seq![b])
    }
}

/// A node of the one-operand function `op` applied to `operand`.
fn unary_node(op: BasisOperator, operand: &Basis) -> (r: Basis)
    requires
        operand@.wf(),
        arity_ok(op, 1),
    ensures
        r@ == SpecBasis::node(op, seq![operand@]),
        r@.wf(),
{
    let r = Basis::unary(op, operand.deep_clone());
    proof {
        assert(seq![operand@][0].wf());
    }
    r
}

/// The logarithm of a number (see `log_number_spec`).
fn log_number(c: Fraction) -> (r: Basis)
    ensures
        r@ == log_number_spec(c),
        r@.wf(),
{
    if c.eq_int(1) {
        Basis::of_num(0)
    } else if c.eq_int(0) {
        Basis::inf(-1)
    } else {
        unary_node(BasisOperator::Log, &Basis::of_frac(c))
    }
}

/// A log node of `base`, simplified where that is direct (see `log_node_spec`).
#[allow(non_snake_case)]
pub fn LogBasisNode(base: &Basis) -> (r: Basis)
    requires
        base@.wf(),
    ensures
        r@ == log_node_spec(base@),
        r@.wf(),
{
    // log(1) = 0
    if base.is_num(1) {
        return Basis::of_num(0);
    }
    // log(e^x) = x
    if base.is_node(BasisOperator::E) {
        match base {
            Basis::BasisNode(node) => {
                proof {
                    lemma_models(node.operands@);
                    lemma_operand_decreases(*base, 0);
                }
                let mut ops: Vec<Basis> = Vec::new();
                ops.push(node.operands[0].deep_clone());
                let l = log_number(node.coefficient);
                ops.push(l);
                proof {
                    lemma_models(ops@);
                    assert(models(ops@) =~= seq![base@->Node_2[0], log_number_spec(base@.coef())]);
                }
                return AddBasisNode(ops);
            },
            _ => {},
        }
    }
    // log(INF) = INF
    if base.is_inf(1) {
        return Basis::inf(1);
    }
    // lim|x→0, log(x) = -INF
    else if base.is_num(0) {
        return Basis::inf(-1);
    }
    unary_node(BasisOperator::Log, base)
}

/// The exponential of `operand`.
#[allow(non_snake_case)]
pub fn EBasisNode(operand: &Basis) -> (r: Basis)
    requires
        operand@.wf(),
    ensures
        r@ == SpecBasis::node(BasisOperator::E, seq![operand@]),
        r@.wf(),
{
    unary_node(BasisOperator::E, operand)
}

/// The cosine of `operand`.
#[allow(non_snake_case)]
pub fn CosBasisNode(operand: &Basis) -> (r: Basis)
    requires
        operand@.wf(),
    ensures
        r@ == SpecBasis::node(BasisOperator::Cos, seq![operand@]),
        r@.wf(),
{
    unary_node(BasisOperator::Cos, operand)
}

/// The sine of `operand`.
#[allow(non_snake_case)]
pub fn SinBasisNode(operand: &Basis) -> (r: Basis)
    requires
        operand@.wf(),
    ensures
        r@ == SpecBasis::node(BasisOperator::Sin, seq![operand@]),
        r@.wf(),
{
    unary_node(BasisOperator::Sin, operand)
}

/// The arc cosine of `operand`.
#[allow(non_snake_case)]
pub fn ACosBasisNode(operand: &Basis) -> (r: Basis)
    requires
        operand@.wf(),
    ensures
        r@ == SpecBasis::node(BasisOperator::Acos, seq![operand@]),
        r@.wf(),
{
    unary_node(BasisOperator::Acos, operand)
}

/// The arc sine of `operand`.
#[allow(non_snake_case)]
pub fn ASinBasisNode(operand: &Basis) -> (r: Basis)
    requires
        operand@.wf(),
    ensures
        r@ == SpecBasis::node(BasisOperator::Asin, seq![operand@]),
        r@.wf(),
{
    unary_node(BasisOperator::Asin, operand)
}

/// The integral node of `integrand`.
#[allow(non_snake_case)]
pub fn IntBasisNode(integrand: &Basis) -> (r: Basis)
    requires
        integrand@.wf(),
    ensures
        r@ == SpecBasis::node(BasisOperator::Int, seq![integrand@]),
        r@.wf(),
{
    unary_node(BasisOperator::Int, integrand)
}

/// The inverse function of `b`: e^x and log(x) invert each other (whatever their
/// coefficients); anything else becomes an inverse node.
pub open spec fn inv_node_spec(b: SpecBasis) -> SpecBasis {
    if b.is_node(BasisOperator::E) && b->Node_2[0].is_x() {
        log_node_spec(SpecBasis::x())
    } else if b.is_node(BasisOperator::Log) && b->Node_2[0].is_x() {
        SpecBasis::node(BasisOperator::E, seq![SpecBasis::x()])
    } else {
        SpecBasis::node(BasisOperator::Inv, seq![b])
    }
}

/// The inverse function of `base` (see `inv_node_spec`).
#[allow(non_snake_case)]
pub fn InvBasisNode(base: &Basis) -> (r: Basis)
    requires
        base@.wf(),
    ensures
        r@ == inv_node_spec(base@),
        r@.wf(),
{
    match base {
        Basis::BasisNode(node) => {
            proof {
                lemma_models(node.operands@);
            }
            if node.operator.same(&BasisOperator::E) || node.operator.same(&BasisOperator::Log) {
                proof {
                    lemma_operand_decreases(*base, 0);
                }
                if node.operands[0].is_x() {
                    if node.operator.same(&BasisOperator::E) {
                        // assumes basic case of e^x
                        return LogBasisNode(&Basis::x());
                    } else {
                        // assumes basic case of log(x)
                        return EBasisNode(&Basis::x());
                    }
                }
            }
        },
        _ => {},
    }
    unary_node(BasisOperator::Inv, base)
}

} // verus!
