use crate::basis::structs::{
    lemma_models, lemma_operand_decreases, models, Basis, BasisElement, BasisNode, BasisOperator,
    SpecBasis,
};
use crate::math::fraction::Fraction;
use vstd::prelude::*;

verus! {

broadcast use vstd::std_specs::vec::group_vec_axioms;

/// The decimal digit for `d` (0 to 9).
pub open spec fn digit_char(d: int) -> char {
    if d == 0 {
        '0'
    } else if d == 1 {
        '1'
    } else if d == 2 {
        '2'
    } else if d == 3 {
        '3'
    } else if d == 4 {
        '4'
    } else if d == 5 {
        '5'
    } else if d == 6 {
        '6'
    } else if d == 7 {
        '7'
    } else if d == 8 {
        '8'
    } else {
        '9'
    }
}

/// Decimal digits of a natural number.
pub open spec fn nat_str(n: nat) -> Seq<char>
    decreases n,
{
    if n < 10 {
        seq![digit_char(n as int)]
    } else {
        nat_str(n / 10) + seq![digit_char((n % 10) as int)]
    }
}

/// Decimal representation of an integer, with a leading '-' when negative.
pub open spec fn int_str(i: int) -> Seq<char> {
    if i < 0 {
        seq!['-'] + nat_str((-i) as nat)
    } else {
        nat_str(i as nat)
    }
}

/// A fraction as "n", or "n/d" when the denominator is not 1.
pub open spec fn frac_str(f: Fraction) -> Seq<char> {
    if f.d == 1 {
        int_str(f.n as int)
    } else {
        int_str(f.n as int) + seq!['/'] + int_str(f.d as int)
    }
}

/// The symbol of an operator.
pub open spec fn op_str(op: BasisOperator) -> Seq<char> {
    match op {
        BasisOperator::Add => "+"@,
        BasisOperator::Minus => "-"@,
        BasisOperator::Mult => "*"@,
        BasisOperator::Div => "/"@,
        BasisOperator::Pow(f) => if f.d == 1 {
            seq!['^'] + int_str(f.n as int)
        } else {
            "^("@ + int_str(f.n as int) + seq!['/'] + int_str(f.d as int) + seq![')']
        },
        BasisOperator::E => "e"@,
        BasisOperator::Log => "log"@,
        BasisOperator::Cos => "cos"@,
        BasisOperator::Sin => "sin"@,
        BasisOperator::Acos => "acos"@,
        BasisOperator::Asin => "asin"@,
        BasisOperator::Inv => "Inv"@,
        BasisOperator::Int => "I"@,
    }
}

/// Whether a tree is a sum, difference, product or quotient node.
pub open spec fn is_compound(b: SpecBasis) -> bool {
    match b {
        SpecBasis::Node(_, op, _) => op == BasisOperator::Add || op == BasisOperator::Minus || op
            == BasisOperator::Mult || op == BasisOperator::Div,
        _ => false,
    }
}

/// The written form of a leaf.
pub open spec fn leaf_str(c: Fraction, e: BasisElement) -> Seq<char> {
    match e {
        BasisElement::X => (if c.d == 1 && c.n == 1 {
            Seq::<char>::empty()
        } else {
            frac_str(c)
        }) + seq!['x'],
        BasisElement::Num => frac_str(c),
        BasisElement::Inf => (if c.compare_spec(Fraction { n: 0, d: 1 }) > 0 {
            seq!['+']
        } else {
            seq!['-']
        }) + "INF"@,
    }
}

/// The coefficient written before a node that is not a sum, difference or quotient.
pub open spec fn coef_prefix(c: Fraction) -> Seq<char> {
    if c.d == 1 && c.n == 1 {
        Seq::empty()
    } else if c.d == 1 && c.n == -1 {
        seq!['-']
    } else if c.d == 1 {
        int_str(c.n as int)
    } else {
        seq!['('] + frac_str(c) + ") * "@
    }
}

/// The written form of a basis: a leaf as its coefficient and element, a function as
/// its name and argument, a power with a caret, a quotient as two parenthesized parts,
/// a sum, difference or product as its operands joined by the operator symbol.
pub open spec fn basis_str(b: SpecBasis) -> Seq<char>
    decreases b, 0nat,
{
    match b {
        SpecBasis::Leaf(c, e) => leaf_str(c, e),
        SpecBasis::Node(c, op, ops) => {
            let s0 = if ops.len() > 0 {
                basis_str(ops[0])
            } else {
                Seq::empty()
            };
            let s1 = if ops.len() > 1 {
                basis_str(ops[1])
            } else {
                Seq::empty()
            };
            let prefix = if op == BasisOperator::Add || op == BasisOperator::Minus || op
                == BasisOperator::Div {
                Seq::<char>::empty()
            } else {
                coef_prefix(c)
            };
            let body = if op == BasisOperator::Add || op == BasisOperator::Minus || op
                == BasisOperator::Mult {
                join_str(ops, op_str(op))
            } else {
                body_str(op, ops, s0, s1)
            };
            prefix + body
        },
    }
}

/// The written form of a node that is not a sum, difference or product, without its
/// coefficient, given the written forms `s0` and `s1` of its first two operands.
pub open spec fn body_str(op: BasisOperator, ops: Seq<SpecBasis>, s0: Seq<char>, s1: Seq<char>) -> Seq<char> {
    match op {
        BasisOperator::Div => seq!['('] + s0 + ")/("@ + s1 + seq![')'],
        BasisOperator::Pow(f) => {
            let exponent = if f.d == 1 {
                int_str(f.n as int)
            } else {
                seq!['('] + int_str(f.n as int) + seq!['/'] + int_str(f.d as int) + seq![')']
            };
            if ops.len() > 0 && is_compound(ops[0]) {
                seq!['('] + s0 + ")^"@ + exponent
            } else {
                s0 + seq!['^'] + exponent
            }
        },
        BasisOperator::E => if ops.len() > 0 && is_compound(ops[0]) {
            "e^("@ + s0 + seq![')']
        } else {
            "e^"@ + s0
        },
        BasisOperator::Log | BasisOperator::Cos | BasisOperator::Sin | BasisOperator::Acos
        | BasisOperator::Asin => op_str(op) + seq!['('] + s0 + seq![')'],
        BasisOperator::Inv => "f-1("@ + s0 + seq![')'],
        _ => "I("@ + s0 + seq![')'],
    }
}

/// The written form of `ops[i]`, or nothing when there is no such operand.
pub open spec fn first_str(ops: Seq<SpecBasis>, i: int) -> Seq<char> {
    if 0 <= i < ops.len() {
        basis_str(ops[i])
    } else {
        Seq::empty()
    }
}

/// The written forms of `ops` joined by " sym " (an operand whose preceding text is
/// empty starts the text afresh).
pub open spec fn join_str(ops: Seq<SpecBasis>, sym: Seq<char>) -> Seq<char>
    decreases ops, 1nat,
{
    if ops.len() == 0 {
        Seq::empty()
    } else {
        let acc = join_str(ops.drop_last(), sym);
        if acc.len() == 0 {
            basis_str(ops.last())
        } else {
            acc + seq![' '] + sym + seq![' '] + basis_str(ops.last())
        }
    }
}

/// Appends the characters of `s` to `out`.
pub(crate) fn push_str(out: &mut Vec<char>, s: &str)
    ensures
        final(out)@ == old(out)@ + s@,
{
    let ghost start = out@;
    let n = s.unicode_len();
    let mut i: usize = 0;
    while i < n
        invariant
            n == s@.len(),
            i <= n,
            out@ == start + s@.subrange(0, i as int),
        decreases n - i,
    {
        let c = s.get_char(i);
        out.push(c);
        proof {
            assert(s@.subrange(0, i + 1) =~= s@.subrange(0, i as int).push(c));
        }
        i += 1;
    }
    proof {
        assert(s@.subrange(0, n as int) =~= s@);
    }
}

/// The decimal digit of `d` (0 to 9).
fn digit(d: u32) -> (c: char)
    requires
        d < 10,
    ensures
        c == digit_char(d as int),
{
    if d == 0 {
        '0'
    } else if d == 1 {
        '1'
    } else if d == 2 {
        '2'
    } else if d == 3 {
        '3'
    } else if d == 4 {
        '4'
    } else if d == 5 {
        '5'
    } else if d == 6 {
        '6'
    } else if d == 7 {
        '7'
    } else if d == 8 {
        '8'
    } else {
        '9'
    }
}

/// Appends the decimal digits of `n`.
fn push_nat(out: &mut Vec<char>, n: u64)
    ensures
        final(out)@ == old(out)@ + nat_str(n as nat),
    decreases n,
{
    if n < 10 {
        out.push(digit(n as u32));
    } else {
        push_nat(out, n / 10);
        out.push(digit((n % 10) as u32));
    }
}

/// Appends the decimal representation of `i`.
pub fn push_int(out: &mut Vec<char>, i: i32)
    ensures
        final(out)@ == old(out)@ + int_str(i as int),
{
    if i < 0 {
        let ghost start = out@;
        out.push('-');
        let m: i64 = -(i as i64);
        push_nat(out, m as u64);
        proof {
            assert(out@ =~= start + (seq!['-'] + nat_str((-i) as nat)));
        }
    } else {
        push_nat(out, i as u64);
    }
}

/// Appends the written form of a fraction.
pub fn push_frac(out: &mut Vec<char>, f: Fraction)
    ensures
        final(out)@ == old(out)@ + frac_str(f),
{
    let ghost start = out@;
    push_int(out, f.n);
    if f.d != 1 {
        out.push('/');
        push_int(out, f.d);
        proof {
            assert(out@ =~= start + (int_str(f.n as int) + seq!['/'] + int_str(f.d as int)));
        }
    }
}

/// Appends the symbol of an operator.
pub(crate) fn push_op(out: &mut Vec<char>, op: BasisOperator)
    ensures
        final(out)@ == old(out)@ + op_str(op),
{
    let ghost start = out@;
    match op {
        BasisOperator::Add => push_str(out, "+"),
        BasisOperator::Minus => push_str(out, "-"),
        BasisOperator::Mult => push_str(out, "*"),
        BasisOperator::Div => push_str(out, "/"),
        BasisOperator::Pow(f) => {
            if f.d == 1 {
                out.push('^');
                push_int(out, f.n);
                proof {
                    assert(out@ =~= start + (seq!['^'] + int_str(f.n as int)));
                }
            } else {
                push_str(out, "^(");
                push_int(out, f.n);
                out.push('/');
                push_int(out, f.d);
                out.push(')');
                proof {
                    assert(out@ =~= start + ("^("@ + int_str(f.n as int) + seq!['/'] + int_str(
                        f.d as int,
                    ) + seq![')']));
                }
            }
        },
        BasisOperator::E => push_str(out, "e"),
        BasisOperator::Log => push_str(out, "log"),
        BasisOperator::Cos => push_str(out, "cos"),
        BasisOperator::Sin => push_str(out, "sin"),
        BasisOperator::Acos => push_str(out, "acos"),
        BasisOperator::Asin => push_str(out, "asin"),
        BasisOperator::Inv => push_str(out, "Inv"),
        BasisOperator::Int => push_str(out, "I"),
    }
}

/// Whether a basis is a sum, difference, product or quotient node.
pub fn compound(b: &Basis) -> (r: bool)
    ensures
        r == is_compound(b@),
{
    match b {
        Basis::BasisNode(node) => {
            let op = node.operator;
            matches!(op, BasisOperator::Add | BasisOperator::Minus | BasisOperator::Mult | BasisOperator::Div)
        },
        _ => false,
    }
}

/// Appends the written form of a leaf.
pub(crate) fn push_leaf(out: &mut Vec<char>, c: Fraction, e: BasisElement)
    ensures
        final(out)@ == old(out)@ + leaf_str(c, e),
{
    let ghost start = out@;
    match e {
        BasisElement::X => {
            if !(c.d == 1 && c.n == 1) {
                push_frac(out, c);
            }
            out.push('x');
        },
        BasisElement::Num => {
            push_frac(out, c);
        },
        BasisElement::Inf => {
            if c.compare(&Fraction { n: 0, d: 1 }) > 0 {
                out.push('+');
            } else {
                out.push('-');
            }
            push_str(out, "INF");
        },
    }
    proof {
        assert(out@ =~= start + leaf_str(c, e));
    }
}

/// Appends the coefficient written before a node (see `coef_prefix`).
fn push_prefix(out: &mut Vec<char>, c: Fraction)
    ensures
        final(out)@ == old(out)@ + coef_prefix(c),
{
    let ghost start = out@;
    if c.d == 1 && c.n == 1 {
    } else if c.d == 1 && c.n == -1 {
        out.push('-');
    } else if c.d == 1 {
        push_int(out, c.n);
    } else {
        out.push('(');
        push_frac(out, c);
        push_str(out, ") * ");
    }
    proof {
        assert(out@ =~= start + coef_prefix(c));
    }
}

/// Appends the written form of a quotient node: "(numerator)/(denominator)".
fn push_div_body(out: &mut Vec<char>, b: &Basis, node: &BasisNode)
    requires
        *b == Basis::BasisNode(*node),
        node.operator == BasisOperator::Div,
    ensures
        final(out)@ == old(out)@ + body_str(
            node.operator,
            models(node.operands@),
            first_str(models(node.operands@), 0),
            first_str(models(node.operands@), 1),
        ),
    decreases b@, 0nat,
{
    let ghost start = out@;
    let ops = &node.operands;
    let op = node.operator;
    proof {
        lemma_models(ops@);
    }
    let ghost sops = models(ops@);
    if ops.len() > 0 {
        proof {
            lemma_operand_decreases(*b, 0);
        }
    }
    out.push('(');
    if ops.len() > 0 {
        push_basis(out, &ops[0]);
    }
    push_str(out, ")/(");
    if ops.len() > 1 {
        proof {
            lemma_operand_decreases(*b, 1);
        }
        push_basis(out, &ops[1]);
    }
    out.push(')');
    proof {
        assert(out@ =~= start + body_str(op, sops, first_str(sops, 0), first_str(sops, 1)));
    }
}

/// Appends the written form of a power node: base, caret, exponent.
fn push_pow_body(out: &mut Vec<char>, b: &Basis, node: &BasisNode)
    requires
        *b == Basis::BasisNode(*node),
        node.operator is Pow,
    ensures
        final(out)@ == old(out)@ + body_str(
            node.operator,
            models(node.operands@),
            first_str(models(node.operands@), 0),
            first_str(models(node.operands@), 1),
        ),
    decreases b@, 0nat,
{
    let ghost start = out@;
    let ops = &node.operands;
    let op = node.operator;
    proof {
        lemma_models(ops@);
    }
    let ghost sops = models(ops@);
    if ops.len() > 0 {
        proof {
            lemma_operand_decreases(*b, 0);
        }
    }
    let f = match op {
        BasisOperator::Pow(f) => f,
        _ => Fraction { n: 1, d: 1 },
    };
    let paren = ops.len() > 0 && compound(&ops[0]);
    if paren {
        out.push('(');
    }
    if ops.len() > 0 {
        push_basis(out, &ops[0]);
    }
    if paren {
        out.push(')');
    }
    out.push('^');
    if f.d == 1 {
        push_int(out, f.n);
    } else {
        out.push('(');
        push_int(out, f.n);
        out.push('/');
        push_int(out, f.d);
        out.push(')');
    }
    proof {
        reveal_strlit(")^");
    }
    proof {
        assert(out@ =~= start + body_str(op, sops, first_str(sops, 0), first_str(sops, 1)));
    }
}

/// Appends the written form of an exponential node: "e^" and the exponent.
fn push_e_body(out: &mut Vec<char>, b: &Basis, node: &BasisNode)
    requires
        *b == Basis::BasisNode(*node),
        node.operator == BasisOperator::E,
    ensures
        final(out)@ == old(out)@ + body_str(
            node.operator,
            models(node.operands@),
            first_str(models(node.operands@), 0),
            first_str(models(node.operands@), 1),
        ),
    decreases b@, 0nat,
{
    let ghost start = out@;
    let ops = &node.operands;
    let op = node.operator;
    proof {
        lemma_models(ops@);
    }
    let ghost sops = models(ops@);
    if ops.len() > 0 {
        proof {
            lemma_operand_decreases(*b, 0);
        }
    }
    let paren = ops.len() > 0 && compound(&ops[0]);
    push_str(out, "e^");
    if paren {
        out.push('(');
    }
    if ops.len() > 0 {
        push_basis(out, &ops[0]);
    }
    if paren {
        out.push(')');
    }
    proof {
        reveal_strlit("e^(");
        reveal_strlit("e^");
    }
    proof {
        assert(out@ =~= start + body_str(op, sops, first_str(sops, 0), first_str(sops, 1)));
    }
}

/// Appends the written form of a function node: its name and its parenthesized argument.
fn push_named_body(out: &mut Vec<char>, b: &Basis, node: &BasisNode)
    requires
        *b == Basis::BasisNode(*node),
        !(node.operator == BasisOperator::Add || node.operator == BasisOperator::Minus || node.operator == BasisOperator::Mult || node.operator == BasisOperator::Div || node.operator == BasisOperator::E || node.operator is Pow),
    ensures
        final(out)@ == old(out)@ + body_str(
            node.operator,
            models(node.operands@),
            first_str(models(node.operands@), 0),
            first_str(models(node.operands@), 1),
        ),
    decreases b@, 0nat,
{
    let ghost start = out@;
    let ops = &node.operands;
    let op = node.operator;
    proof {
        lemma_models(ops@);
    }
    let ghost sops = models(ops@);
    if ops.len() > 0 {
        proof {
            lemma_operand_decreases(*b, 0);
        }
    }
    if matches!(op, BasisOperator::Inv) {
        push_str(out, "f-1(");
    } else if matches!(op, BasisOperator::Int) {
        push_str(out, "I(");
    } else {
        push_op(out, op);
        out.push('(');
    }
    if ops.len() > 0 {
        push_basis(out, &ops[0]);
    }
    out.push(')');
    proof {
        reveal_strlit("f-1(");
        reveal_strlit("I(");
    }
    proof {
        assert(out@ =~= start + body_str(op, sops, first_str(sops, 0), first_str(sops, 1)));
    }
}

/// Appends the written form of a node that is not a sum, difference or product,
/// without its coefficient (see `body_str`).
fn push_body(out: &mut Vec<char>, b: &Basis, node: &BasisNode)
    requires
        *b == Basis::BasisNode(*node),
        !(node.operator == BasisOperator::Add || node.operator == BasisOperator::Minus
            || node.operator == BasisOperator::Mult),
    ensures
        final(out)@ == old(out)@ + body_str(
            node.operator,
            models(node.operands@),
            first_str(models(node.operands@), 0),
            first_str(models(node.operands@), 1),
        ),
    decreases b@, 1nat,
{
    match node.operator {
        BasisOperator::Div => push_div_body(out, b, node),
        BasisOperator::Pow(_) => push_pow_body(out, b, node),
        BasisOperator::E => push_e_body(out, b, node),
        _ => push_named_body(out, b, node),
    }
}

/// Appends the operands of a sum, difference or product joined by its symbol (see
/// `join_str`).
fn push_join(out: &mut Vec<char>, b: &Basis, node: &BasisNode)
    requires
        *b == Basis::BasisNode(*node),
    ensures
        final(out)@ == old(out)@ + join_str(models(node.operands@), op_str(node.operator)),
    decreases b@, 1nat,
{
    let ghost mid = out@;
    let mid_len = out.len();
    let ops = &node.operands;
    let op = node.operator;
    proof {
        lemma_models(ops@);
    }
    let ghost sops = models(ops@);
    let mut i: usize = 0;
    while i < ops.len()
        invariant
            *b == Basis::BasisNode(*node),
            ops == &node.operands,
            op == node.operator,
            sops == models(ops@),
            sops.len() == ops@.len(),
            forall|t: int| 0 <= t < ops@.len() ==> #[trigger] sops[t] == ops@[t]@,
            i <= ops.len(),
            out@ == mid + join_str(sops.take(i as int), op_str(op)),
            mid_len == mid.len(),
        decreases ops.len() - i,
    {
        proof {
            lemma_operand_decreases(*b, i as int);
            assert(sops.take(i + 1).drop_last() =~= sops.take(i as int));
            assert(sops.take(i + 1).last() == sops[i as int]);
        }
        if out.len() == mid_len {
            push_basis(out, &ops[i]);
        } else {
            out.push(' ');
            push_op(out, op);
            out.push(' ');
            push_basis(out, &ops[i]);
        }
        proof {
            assert(out@ =~= mid + join_str(sops.take(i + 1), op_str(op)));
        }
        i += 1;
    }
    proof {
        assert(sops.take(ops.len() as int) =~= sops);
    }
}

/// Appends the written form of a basis (see `basis_str`).
pub fn push_basis(out: &mut Vec<char>, b: &Basis)
    ensures
        final(out)@ == old(out)@ + basis_str(b@),
    decreases b@, 2nat,
{
    let ghost start = out@;
    match b {
        Basis::BasisLeaf(leaf) => {
            push_leaf(out, leaf.coefficient, leaf.element);
        },
        Basis::BasisNode(node) => {
            let op = node.operator;
            proof {
                lemma_models(node.operands@);
            }
            if !matches!(op, BasisOperator::Add | BasisOperator::Minus | BasisOperator::Div) {
                push_prefix(out, node.coefficient);
            }
            let ghost mid = out@;
            if matches!(op, BasisOperator::Add | BasisOperator::Minus | BasisOperator::Mult) {
                push_join(out, b, node);
            } else {
                push_body(out, b, node);
            }
            proof {
                assert(out@ =~= start + basis_str(b@));
            }
        },
    }
}

/// The characters of `chars` gathered into a string (std's `FromIterator<char>` for
/// `String`, through `Iterator::collect`): the same characters in the same order.
#[verifier::external_body]
pub(crate) fn string_of(chars: &Vec<char>) -> (r: String)
    ensures
        r@ == chars@,
{
    chars.iter().collect()
}

impl Basis {
    /// The basis written out (see `basis_str`).
    pub fn to_string(&self) -> (r: String)
        ensures
            r@ == basis_str(self@),
    {
        let mut out: Vec<char> = Vec::new();
        push_basis(&mut out, self);
        proof {
            assert(out@ =~= basis_str(self@));
        }
        string_of(&out)
    }
}

} // verus!
