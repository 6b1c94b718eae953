use crate::basis::display::{
    int_str, leaf_str, op_str, push_int, push_leaf, push_op, push_str, string_of,
};
use crate::basis::structs::{
    lemma_models, lemma_operand_decreases, models, Basis, BasisElement, BasisLeaf, BasisNode,
    BasisOperator, SpecBasis,
};
use crate::math::fraction::Fraction;
use crate::util::ToLatex;
use vstd::prelude::*;

verus! {

broadcast use vstd::std_specs::vec::group_vec_axioms;

/// The LaTeX form of an operator: powers as superscripts, e as `e^`, log as `\ln` or
/// `\log` (as `ln` says), the functions by their commands, the inverse as f^{-1}, the
/// integral as `\int`; sums, differences, products and quotients by their symbols.
pub open spec fn op_latex(op: BasisOperator, ln: bool) -> Seq<char> {
    match op {
        BasisOperator::Pow(f) => if f.d == 1 {
            "^{"@ + int_str(f.n as int) + "}"@
        } else {
            "^{"@ + int_str(f.n as int) + "/"@ + int_str(f.d as int) + "}"@
        },
        BasisOperator::E => "e^"@,
        BasisOperator::Log => if ln {
            "\\ln"@
        } else {
            "\\log"@
        },
        BasisOperator::Cos => "\\cos"@,
        BasisOperator::Sin => "\\sin"@,
        BasisOperator::Acos => "\\arccos"@,
        BasisOperator::Asin => "\\arcsin"@,
        BasisOperator::Inv => "f^{\\text{-}1}"@,
        BasisOperator::Int => "\\int"@,
        _ => op_str(op),
    }
}

/// The LaTeX form of a leaf: infinity as `\infty` when its coefficient is above 1 and
/// as `-\infty` otherwise; numbers and x as they are written.
pub open spec fn leaf_latex(c: Fraction, e: BasisElement) -> Seq<char> {
    match e {
        BasisElement::Inf => if c.compare_spec(Fraction { n: 1, d: 1 }) > 0 {
            "\\infty"@
        } else {
            "-\\infty"@
        },
        _ => leaf_str(c, e),
    }
}

/// The LaTeX form of a basis (node coefficients are not shown): e^{g}; operands joined
/// by the symbol of a sum, difference or product; \frac{a}{b}; a power of -1 as
/// \frac{1}{g}, other powers as a superscript after the base (in parentheses unless it
/// is a leaf); other functions as the command applied to the argument in parentheses.
pub open spec fn latex_str(b: SpecBasis, ln: bool) -> Seq<char>
    decreases b, 0nat,
{
    match b {
        SpecBasis::Leaf(c, e) => leaf_latex(c, e),
        SpecBasis::Node(_, op, ops) => {
            let s0 = if ops.len() > 0 {
                latex_str(ops[0], ln)
            } else {
                Seq::empty()
            };
            let s1 = if ops.len() > 1 {
                latex_str(ops[1], ln)
            } else {
                Seq::empty()
            };
            match op {
                BasisOperator::E => op_latex(op, ln) + "{"@ + s0 + "}"@,
                BasisOperator::Add | BasisOperator::Minus | BasisOperator::Mult => latex_join(
                    ops,
                    op_latex(op, ln),
                    ln,
                ),
                BasisOperator::Div => "\\frac{"@ + s0 + "}{"@ + s1 + "}"@,
                BasisOperator::Pow(f) => if f.d == 1 && f.n == -1 {
                    "\\frac{1}{"@ + s0 + "}"@
                } else if ops.len() > 0 && ops[0] is Leaf {
                    s0 + op_latex(op, ln)
                } else {
                    "("@ + s0 + ")"@ + op_latex(op, ln)
                },
                _ => op_latex(op, ln) + "("@ + s0 + ")"@,
            }
        },
    }
}

/// The LaTeX forms of `ops` joined by " sym " (an operand after an empty text starts the
/// text afresh).
pub open spec fn latex_join(ops: Seq<SpecBasis>, sym: Seq<char>, ln: bool) -> Seq<char>
    decreases ops, 1nat,
{
    if ops.len() == 0 {
        Seq::empty()
    } else {
        let acc = latex_join(ops.drop_last(), sym, ln);
        if acc.len() == 0 {
            latex_str(ops.last(), ln)
        } else {
            acc + seq![' '] + sym + seq![' '] + latex_str(ops.last(), ln)
        }
    }
}

/// Appends the LaTeX form of an operator (see `op_latex`).
fn push_op_latex(out: &mut Vec<char>, op: BasisOperator, ln: bool)
    ensures
        final(out)@ == old(out)@ + op_latex(op, ln),
{
    let ghost start = out@;
    match op {
        BasisOperator::Pow(f) => {
            push_str(out, "^{");
            push_int(out, f.n);
            if f.d != 1 {
                push_str(out, "/");
                push_int(out, f.d);
            }
            push_str(out, "}");
        },
        BasisOperator::E => push_str(out, "e^"),
        BasisOperator::Log => {
            if ln {
                push_str(out, "\\ln");
            } else {
                push_str(out, "\\log");
            }
        },
        BasisOperator::Cos => push_str(out, "\\cos"),
        BasisOperator::Sin => push_str(out, "\\sin"),
        BasisOperator::Acos => push_str(out, "\\arccos"),
        BasisOperator::Asin => push_str(out, "\\arcsin"),
        BasisOperator::Inv => push_str(out, "f^{\\text{-}1}"),
        BasisOperator::Int => push_str(out, "\\int"),
        _ => push_op(out, op),
    }
    proof {
        assert(out@ =~= start + op_latex(op, ln));
    }
}

/// Appends the LaTeX form of a leaf (see `leaf_latex`).
fn push_leaf_latex(out: &mut Vec<char>, c: Fraction, e: BasisElement)
    ensures
        final(out)@ == old(out)@ + leaf_latex(c, e),
{
    match e {
        BasisElement::Inf => {
            if c.compare(&Fraction { n: 1, d: 1 }) > 0 {
                push_str(out, "\\infty");
            } else {
                push_str(out, "-\\infty");
            }
        },
        _ => push_leaf(out, c, e),
    }
}

/// Appends the LaTeX form of operand `i` of a node, if it has one.
fn push_operand_latex(out: &mut Vec<char>, b: &Basis, node: &BasisNode, i: usize, ln: bool)
    requires
        *b == Basis::BasisNode(*node),
    ensures
        final(out)@ == old(out)@ + (if i < node.operands@.len() {
            latex_str(models(node.operands@)[i as int], ln)
        } else {
            Seq::<char>::empty()
        }),
    decreases b@, 1nat,
{
    proof {
        lemma_models(node.operands@);
    }
    if i < node.operands.len() {
        proof {
            lemma_operand_decreases(*b, i as int);
        }
        push_latex(out, &node.operands[i], ln);
    } else {
        proof {
            assert(old(out)@ + Seq::<char>::empty() =~= old(out)@);
        }
    }
}

/// Appends the operands of a sum, difference or product joined by its symbol (see
/// `latex_join`).
fn push_latex_join(out: &mut Vec<char>, b: &Basis, node: &BasisNode, ln: bool)
    requires
        *b == Basis::BasisNode(*node),
    ensures
        final(out)@ == old(out)@ + latex_join(models(node.operands@), op_latex(node.operator, ln), ln),
    decreases b@, 2nat,
{
    let ghost mid = out@;
    let mid_len = out.len();
    let ops = &node.operands;
    let op = node.operator;
    proof {
        lemma_models(ops@);
    }
    let ghost sops = models(ops@);
    let mut i: usize = 0;
    while i < ops.len()
        invariant
            *b == Basis::BasisNode(*node),
            ops == &node.operands,
            op == node.operator,
            sops == models(ops@),
            sops.len() == ops@.len(),
            forall|t: int| 0 <= t < ops@.len() ==> #[trigger] sops[t] == ops@[t]@,
            i <= ops.len(),
            out@ == mid + latex_join(sops.take(i as int), op_latex(op, ln), ln),
            mid_len == mid.len(),
        decreases ops.len() - i,
    {
        proof {
            lemma_operand_decreases(*b, i as int);
            assert(sops.take(i + 1).drop_last() =~= sops.take(i as int));
            assert(sops.take(i + 1).last() == sops[i as int]);
        }
        if out.len() == mid_len {
            push_latex(out, &ops[i], ln);
        } else {
            out.push(' ');
            push_op_latex(out, op, ln);
            out.push(' ');
            push_latex(out, &ops[i], ln);
        }
        proof {
            assert(out@ =~= mid + latex_join(sops.take(i + 1), op_latex(op, ln), ln));
        }
        i += 1;
    }
    proof {
        assert(sops.take(ops.len() as int) =~= sops);
    }
}

/// Appends the LaTeX form of an exponential node.
fn push_e_latex(out: &mut Vec<char>, b: &Basis, node: &BasisNode, ln: bool)
    requires
        *b == Basis::BasisNode(*node),
        node.operator == BasisOperator::E,
    ensures
        final(out)@ == old(out)@ + latex_str(b@, ln),
    decreases b@, 2nat,
{
    let ghost start = out@;
    push_op_latex(out, node.operator, ln);
    push_str(out, "{");
    push_operand_latex(out, b, node, 0, ln);
    push_str(out, "}");
    proof {
        lemma_models(node.operands@);
        assert(out@ =~= start + latex_str(b@, ln));
    }
}

/// Appends the LaTeX form of a quotient node.
fn push_div_latex(out: &mut Vec<char>, b: &Basis, node: &BasisNode, ln: bool)
    requires
        *b == Basis::BasisNode(*node),
        node.operator == BasisOperator::Div,
    ensures
        final(out)@ == old(out)@ + latex_str(b@, ln),
    decreases b@, 2nat,
{
    let ghost start = out@;
    push_str(out, "\\frac{");
    push_operand_latex(out, b, node, 0, ln);
    push_str(out, "}{");
    push_operand_latex(out, b, node, 1, ln);
    push_str(out, "}");
    proof {
        lemma_models(node.operands@);
        assert(out@ =~= start + latex_str(b@, ln));
    }
}

/// Appends the LaTeX form of a power node.
fn push_pow_latex(out: &mut Vec<char>, b: &Basis, node: &BasisNode, ln: bool)
    requires
        *b == Basis::BasisNode(*node),
        node.operator is Pow,
    ensures
        final(out)@ == old(out)@ + latex_str(b@, ln),
    decreases b@, 2nat,
{
    let ghost start = out@;
    let op = node.operator;
    proof {
        lemma_models(node.operands@);
    }
    let f = match op {
        BasisOperator::Pow(f) => f,
        _ => Fraction { n: 1, d: 1 },
    };
    if f.d == 1 && f.n == -1 {
        push_str(out, "\\frac{1}{");
        push_operand_latex(out, b, node, 0, ln);
        push_str(out, "}");
    } else if node.operands.len() > 0 && matches!(node.operands[0], Basis::BasisLeaf(_)) {
        push_operand_latex(out, b, node, 0, ln);
        push_op_latex(out, op, ln);
    } else {
        push_str(out, "(");
        push_operand_latex(out, b, node, 0, ln);
        push_str(out, ")");
        push_op_latex(out, op, ln);
    }
    proof {
        assert(out@ =~= start + latex_str(b@, ln));
    }
}

/// Appends the LaTeX form of a node of a one-operand function other than e and powers.
fn push_named_latex(out: &mut Vec<char>, b: &Basis, node: &BasisNode, ln: bool)
    requires
        *b == Basis::BasisNode(*node),
        !(node.operator is Pow),
        !(node.operator == BasisOperator::E || node.operator == BasisOperator::Div
            || node.operator == BasisOperator::Add || node.operator == BasisOperator::Minus
            || node.operator == BasisOperator::Mult),
    ensures
        final(out)@ == old(out)@ + latex_str(b@, ln),
    decreases b@, 2nat,
{
    let ghost start = out@;
    push_op_latex(out, node.operator, ln);
    push_str(out, "(");
    push_operand_latex(out, b, node, 0, ln);
    push_str(out, ")");
    proof {
        lemma_models(node.operands@);
        assert(out@ =~= start + latex_str(b@, ln));
    }
}

/// Appends the LaTeX form of a basis (see `latex_str`).
fn push_latex(out: &mut Vec<char>, b: &Basis, ln: bool)
    ensures
        final(out)@ == old(out)@ + latex_str(b@, ln),
    decreases b@, 3nat,
{
    match b {
        Basis::BasisLeaf(leaf) => push_leaf_latex(out, leaf.coefficient, leaf.element),
        Basis::BasisNode(node) => {
            proof {
                lemma_models(node.operands@);
            }
            match node.operator {
                BasisOperator::E => push_e_latex(out, b, node, ln),
                BasisOperator::Add | BasisOperator::Minus | BasisOperator::Mult => {
                    let ghost start = out@;
                    push_latex_join(out, b, node, ln);
                    proof {
                        assert(out@ =~= start + latex_str(b@, ln));
                    }
                },
                BasisOperator::Div => push_div_latex(out, b, node, ln),
                BasisOperator::Pow(_) => push_pow_latex(out, b, node, ln),
                _ => push_named_latex(out, b, node, ln),
            }
        },
    }
}

impl Basis {
    /// The LaTeX form of the basis, log written as `\ln` when `ln` holds (see
    /// `latex_str`).
    pub fn latex(&self, ln: bool) -> (r: String)
        ensures
            r@ == latex_str(self@, ln),
    {
        let mut out: Vec<char> = Vec::new();
        push_latex(&mut out, self, ln);
        proof {
            assert(out@ =~= latex_str(self@, ln));
        }
        string_of(&out)
    }
}

/// LaTeX form of a basis (see `latex_str`).
impl ToLatex for Basis {
    fn to_latex(&self, ln: bool) -> (r: String)
        ensures
            r@ == latex_str(self@, ln),
    {
        self.latex(ln)
    }
}

/// LaTeX form of a leaf (see `leaf_latex`).
impl ToLatex for BasisLeaf {
    fn to_latex(&self, ln: bool) -> (r: String)
        ensures
            r@ == leaf_latex(self.coefficient, self.element),
    {
        let mut out: Vec<char> = Vec::new();
        push_leaf_latex(&mut out, self.coefficient, self.element);
        proof {
            assert(out@ =~= leaf_latex(self.coefficient, self.element));
        }
        string_of(&out)
    }
}

/// LaTeX form of an operator (see `op_latex`).
impl ToLatex for BasisOperator {
    fn to_latex(&self, ln: bool) -> (r: String)
        ensures
            r@ == op_latex(*self, ln),
    {
        let mut out: Vec<char> = Vec::new();
        push_op_latex(&mut out, *self, ln);
        proof {
            assert(out@ =~= op_latex(*self, ln));
        }
        string_of(&out)
    }
}

} // verus!
