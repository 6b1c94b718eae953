use crate::basis::product::mul_frac_spec;
use crate::basis::structs::{
    all_wf, lemma_models, lemma_models_push, lemma_normal_scale_by_one, lemma_operand_decreases, models, normal,
    Basis, BasisElement, BasisNode, BasisOperator, SpecBasis,
};
use crate::math::fraction::wrap32;
use vstd::prelude::*;

verus! {

broadcast use vstd::std_specs::vec::group_vec_axioms;

/// `f ∘ g`: each x leaf of `f`, with coefficient c, replaced by c·g.
pub open spec fn compose_spec(f: SpecBasis, g: SpecBasis) -> SpecBasis
    decreases f, 1nat,
{
    match f {
        SpecBasis::Leaf(c, e) => if e == BasisElement::X {
            mul_frac_spec(g, c)
        } else {
            f
        },
        SpecBasis::Node(c, op, ops) => SpecBasis::Node(c, op, compose_all(ops, g)),
    }
}

/// Each tree of `s` composed with `g`.
pub open spec fn compose_all(s: Seq<SpecBasis>, g: SpecBasis) -> Seq<SpecBasis>
    decreases s, 0nat,
{
    if s.len() == 0 {
        Seq::empty()
    } else {
        compose_all(s.drop_last(), g).push(compose_spec(s.last(), g))
    }
}

/// `compose_all` composes each element.
pub proof fn lemma_compose_all(s: Seq<SpecBasis>, g: SpecBasis)
    ensures
        compose_all(s, g).len() == s.len(),
        forall|t: int| 0 <= t < s.len() ==> #[trigger] compose_all(s, g)[t] == compose_spec(s[t], g),
    decreases s.len(),
{
    if s.len() > 0 {
        lemma_compose_all(s.drop_last(), g);
    }
}

/// The composition `f ∘ g` (see `compose_spec`).
pub fn function_composition(f: &Basis, g: &Basis) -> (r: Basis)
    requires
        f@.wf(),
        g@.wf(),
    ensures
        r@ == compose_spec(f@, g@),
        r@.wf(),
    decreases f@,
{
    match f {
        Basis::BasisLeaf(leaf) => {
            if leaf.element == BasisElement::X {
                g.scale_frac(leaf.coefficient)
            } else {
                f.deep_clone()
            }
        },
        Basis::BasisNode(node) => {
            let ops = &node.operands;
            let ghost s = models(ops@);
            proof {
                lemma_models(ops@);
                lemma_compose_all(s, g@);
            }
            let mut out: Vec<Basis> = Vec::new();
            let mut i: usize = 0;
            while i < ops.len()
                invariant
                    *f == Basis::BasisNode(*node),
                    ops == &node.operands,
                    f@.wf(),
                    g@.wf(),
                    s == models(ops@),
                    s.len() == ops@.len(),
                    forall|t: int| 0 <= t < ops@.len() ==> #[trigger] s[t] == ops@[t]@,
                    compose_all(s, g@).len() == s.len(),
                    forall|t: int| 0 <= t < s.len() ==> #[trigger] compose_all(s, g@)[t] == compose_spec(s[t], g@),
                    i <= ops.len(),
                    models(out@) == compose_all(s, g@).take(i as int),
                    all_wf(models(out@)),
                decreases ops.len() - i,
            {
                proof {
                    lemma_operand_decreases(*f, i as int);
                }
                let t = function_composition(&ops[i], g);
                proof {
                    lemma_models_push(out@, t);
                    lemma_models(out@.push(t));
                    lemma_models(out@);
                    assert(compose_all(s, g@).take(i + 1) =~= compose_all(s, g@).take(i as int).push(t@));
                }
                out.push(t);
                i += 1;
            }
            proof {
                assert(compose_all(s, g@).take(ops.len() as int) =~= compose_all(s, g@));
                assert(f@ == SpecBasis::Node(node.coefficient, node.operator, s));
                lemma_models(out@);
                assert(forall|t: int| 0 <= t < s.len() ==> (#[trigger] models(out@)[t]).wf());
            }
            Basis::BasisNode(BasisNode { coefficient: node.coefficient, operator: node.operator, operands: out })
        },
    }
}

/// x is a left identity of composition: x ∘ g is g, for g with its coefficients in
/// lowest terms (see `normal`).
pub proof fn lemma_x_composes_to_identity(g: SpecBasis)
    requires
        normal(g),
    ensures
        compose_spec(SpecBasis::x(), g) == g,
{
    lemma_normal_scale_by_one(g);
}

/// x is a right identity of composition: f ∘ x is f, for f with its coefficients in
/// lowest terms (see `normal`).
pub proof fn lemma_composing_with_x_is_identity(f: SpecBasis)
    requires
        normal(f),
    ensures
        compose_spec(f, SpecBasis::x()) == f,
    decreases f,
{
    match f {
        SpecBasis::Leaf(c, e) => {
            if e == BasisElement::X {
                assert(wrap32(1 * c.n) == c.n);
                assert(wrap32(1 * c.d) == c.d);
            }
        },
        SpecBasis::Node(c, op, ops) => {
            lemma_compose_all(ops, SpecBasis::x());
            assert forall|i: int| 0 <= i < ops.len() implies #[trigger] compose_all(ops, SpecBasis::x())[i] == ops[i] by {
                assert(decreases_to!(f => ops[i]));
                lemma_composing_with_x_is_identity(ops[i]);
            }
            assert(compose_all(ops, SpecBasis::x()) =~= ops);
        },
    }
}

} // verus!
