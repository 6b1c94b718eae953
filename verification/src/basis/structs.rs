use crate::cards::BasisCard;
use crate::math::fraction::{wrap32, Fraction};
use vstd::prelude::*;
use vstd::std_specs::cmp::PartialEqSpecImpl;
use vstd::std_specs::convert::FromSpecImpl;

verus! {

broadcast use vstd::std_specs::vec::group_vec_axioms;

/// Atomic elements of a leaf: a number, x, or infinity.
#[derive(Copy, Clone, Debug, Hash, PartialEq, Eq, Structural)]
pub enum BasisElement {
    Num,
    X,
    Inf,
}

/// Functions and operators of a node.
#[derive(Copy, Clone, Debug, Hash, Eq)]
pub enum BasisOperator {
    Add,
    Minus,
    Mult,
    Div,
    Pow(Fraction),
    E,
    Log,
    Cos,
    Sin,
    Acos,
    Asin,
    Inv,
    Int,
}

/// The most basic basis: a coefficient times an element.
#[derive(Clone, Debug, Hash, Eq)]
pub struct BasisLeaf {
    pub coefficient: Fraction,
    pub element: BasisElement,
}

/// A basis made of an operator applied to operands, times a coefficient.
#[derive(Debug, Hash)]
pub struct BasisNode {
    pub coefficient: Fraction,
    pub operator: BasisOperator,
    pub operands: Vec<Basis>,
}

/// A mathematical expression: a leaf or a node.
#[derive(Debug, Hash)]
pub enum Basis {
    BasisLeaf(BasisLeaf),
    BasisNode(BasisNode),
}

/// The mathematical value of a `Basis`: the same tree, with sequences for operand lists.
pub enum SpecBasis {
    Leaf(Fraction, BasisElement),
    Node(Fraction, BasisOperator, Seq<SpecBasis>),
}

impl Basis {
    /// The tree that the basis stands for.
    pub open spec fn model(&self) -> SpecBasis
        decreases self, 0nat,
    {
        match self {
            Basis::BasisLeaf(leaf) => SpecBasis::Leaf(leaf.coefficient, leaf.element),
            Basis::BasisNode(node) => SpecBasis::Node(
                node.coefficient,
                node.operator,
                models(node.operands@),
            ),
        }
    }
}

/// The trees that a sequence of bases stands for.
pub open spec fn models(s: Seq<Basis>) -> Seq<SpecBasis>
    decreases s, 1nat,
{
    if s.len() == 0 {
        Seq::empty()
    } else {
        models(s.drop_last()).push(s.last().model())
    }
}

impl View for Basis {
    type V = SpecBasis;

    open spec fn view(&self) -> SpecBasis {
        self.model()
    }
}

/// `models` maps each basis to its tree.
pub proof fn lemma_models(s: Seq<Basis>)
    ensures
        models(s).len() == s.len(),
        forall|i: int| 0 <= i < s.len() ==> #[trigger] models(s)[i] == s[i]@,
    decreases s.len(),
{
    if s.len() > 0 {
        lemma_models(s.drop_last());
    }
}

/// The operands of a node have smaller trees than the node.
pub proof fn lemma_operand_decreases(b: Basis, i: int)
    requires
        b is BasisNode,
        0 <= i < b->BasisNode_0.operands@.len(),
    ensures
        decreases_to!(b@ => b->BasisNode_0.operands@[i]@),
        b@.wf() ==> b->BasisNode_0.operands@[i]@.wf(),
        b@ == SpecBasis::Node(b->BasisNode_0.coefficient, b->BasisNode_0.operator, models(b->BasisNode_0.operands@)),
        models(b->BasisNode_0.operands@)[i] == b->BasisNode_0.operands@[i]@,
{
    let ops = b->BasisNode_0.operands@;
    lemma_models(ops);
    assert(b@->Node_2 == models(ops));
    assert(decreases_to!(b@ => b@->Node_2));
    assert(decreases_to!(models(ops) => models(ops)[i]));
    assert(models(ops)[i] == ops[i]@);
    if b@.wf() {
        assert(models(ops)[i].wf());
    }
}

impl SpecBasis {
    /// The coefficient of the tree's root.
    pub open spec fn coef(self) -> Fraction {
        match self {
            SpecBasis::Leaf(c, _) => c,
            SpecBasis::Node(c, _, _) => c,
        }
    }

    /// A number leaf whose coefficient is `f`.
    pub open spec fn is_frac(self, f: Fraction) -> bool {
        match self {
            SpecBasis::Leaf(c, e) => e == BasisElement::Num && c == f,
            _ => false,
        }
    }

    /// A number leaf equal to the integer `i`.
    pub open spec fn is_num(self, i: i32) -> bool {
        self.is_frac(Fraction { n: i, d: 1 })
    }

    /// An x leaf, whatever its coefficient.
    pub open spec fn is_x(self) -> bool {
        match self {
            SpecBasis::Leaf(_, e) => e == BasisElement::X,
            _ => false,
        }
    }

    /// An infinity leaf whose coefficient is the integer `i`.
    pub open spec fn is_inf(self, i: i32) -> bool {
        match self {
            SpecBasis::Leaf(c, e) => e == BasisElement::Inf && c.d == 1 && c.n == i,
            _ => false,
        }
    }

    /// A node with operator `op`.
    pub open spec fn is_node(self, op: BasisOperator) -> bool {
        match self {
            SpecBasis::Node(_, o, _) => o == op,
            _ => false,
        }
    }

    /// An x leaf with coefficient 1.
    pub open spec fn x() -> SpecBasis {
        SpecBasis::Leaf(Fraction { n: 1, d: 1 }, BasisElement::X)
    }

    /// A number leaf with coefficient `f`.
    pub open spec fn num(f: Fraction) -> SpecBasis {
        SpecBasis::Leaf(f, BasisElement::Num)
    }

    /// The integer `i` as a number leaf.
    pub open spec fn integer(i: i32) -> SpecBasis {
        SpecBasis::Leaf(Fraction { n: i, d: 1 }, BasisElement::Num)
    }

    /// Infinity with sign `i`.
    pub open spec fn inf(i: i32) -> SpecBasis {
        SpecBasis::Leaf(Fraction { n: i, d: 1 }, BasisElement::Inf)
    }

    /// A node with coefficient 1.
    pub open spec fn node(op: BasisOperator, ops: Seq<SpecBasis>) -> SpecBasis {
        SpecBasis::Node(Fraction { n: 1, d: 1 }, op, ops)
    }

    /// The tree with its coefficient set to `c`; a sum or difference instead keeps
    /// coefficient 1 and scales each operand's coefficient by `c`.
    pub open spec fn with_frac(self, c: Fraction) -> SpecBasis
        decreases self, 0nat,
    {
        match self {
            SpecBasis::Leaf(_, e) => SpecBasis::Leaf(c, e),
            SpecBasis::Node(k, op, ops) => if op == BasisOperator::Add || op
                == BasisOperator::Minus {
                SpecBasis::Node(Fraction { n: 1, d: 1 }, op, scale_all(ops, c))
            } else {
                SpecBasis::Node(c, op, ops)
            },
        }
    }

    /// The tree with the integer coefficient `i`.
    pub open spec fn with_int(self, i: i32) -> SpecBasis {
        self.with_frac(Fraction { n: i, d: 1 })
    }

    /// The tree with its coefficient negated.
    pub open spec fn negate(self) -> SpecBasis {
        self.with_frac(self.coef().times_spec(-1i32, 1))
    }

    /// Whether every node has the operands that its operator reads: two for a
    /// quotient, at least one for a difference and for each function; sums and
    /// products may be empty.
    pub open spec fn wf(self) -> bool
        decreases self,
    {
        match self {
            SpecBasis::Leaf(_, _) => true,
            SpecBasis::Node(_, op, ops) => {
                &&& arity_ok(op, ops.len())
                &&& forall|i: int| 0 <= i < ops.len() ==> (#[trigger] ops[i]).wf()
            },
        }
    }
}

/// Whether a node with operator `op` may have `len` operands: sums and products any
/// number, differences at least one, quotients exactly two, every function exactly one.
pub open spec fn arity_ok(op: BasisOperator, len: nat) -> bool {
    match op {
        BasisOperator::Add | BasisOperator::Mult => true,
        BasisOperator::Minus => len >= 1,
        BasisOperator::Div => len == 2,
        _ => len == 1,
    }
}

/// Whether every tree of the sequence is well formed.
pub open spec fn all_wf(s: Seq<SpecBasis>) -> bool {
    forall|i: int| 0 <= i < s.len() ==> (#[trigger] s[i]).wf()
}

/// Each tree of `s` with its coefficient multiplied by `c`.
pub open spec fn scale_all(s: Seq<SpecBasis>, c: Fraction) -> Seq<SpecBasis>
    decreases s, 1nat,
{
    if s.len() == 0 {
        Seq::empty()
    } else {
        let op = s.last();
        scale_all(s.drop_last(), c).push(op.with_frac(op.coef().times_spec(c.n, c.d)))
    }
}

/// `scale_all` scales each element.
pub proof fn lemma_scale_all(s: Seq<SpecBasis>, c: Fraction)
    ensures
        scale_all(s, c).len() == s.len(),
        forall|i: int|
            0 <= i < s.len() ==> #[trigger] scale_all(s, c)[i] == s[i].with_frac(
                s[i].coef().times_spec(c.n, c.d),
            ),
    decreases s.len(),
{
    if s.len() > 0 {
        lemma_scale_all(s.drop_last(), c);
    }
}

/// The basis that a basis card stands for.
pub open spec fn card_basis(card: BasisCard) -> SpecBasis {
    match card {
        BasisCard::Zero => SpecBasis::integer(0),
        BasisCard::One => SpecBasis::integer(1),
        BasisCard::X => SpecBasis::x(),
        BasisCard::X2 => SpecBasis::node(
            BasisOperator::Pow(Fraction { n: 2, d: 1 }),
            seq![SpecBasis::x()],
        ),
        BasisCard::Cos => SpecBasis::node(BasisOperator::Cos, seq![SpecBasis::x()]),
        BasisCard::Sin => SpecBasis::node(BasisOperator::Sin, seq![SpecBasis::x()]),
        BasisCard::E => SpecBasis::node(BasisOperator::E, seq![SpecBasis::x()]),
    }
}

impl BasisOperator {
    /// Whether two operators are equal (powers by numerator and denominator).
    pub fn same(&self, other: &BasisOperator) -> (r: bool)
        ensures
            r == (*self == *other),
    {
        match self {
            BasisOperator::Add => matches!(other, BasisOperator::Add),
            BasisOperator::Minus => matches!(other, BasisOperator::Minus),
            BasisOperator::Mult => matches!(other, BasisOperator::Mult),
            BasisOperator::Div => matches!(other, BasisOperator::Div),
            BasisOperator::Pow(f) => match other {
                BasisOperator::Pow(g) => f.n == g.n && f.d == g.d,
                _ => false,
            },
            BasisOperator::E => matches!(other, BasisOperator::E),
            BasisOperator::Log => matches!(other, BasisOperator::Log),
            BasisOperator::Cos => matches!(other, BasisOperator::Cos),
            BasisOperator::Sin => matches!(other, BasisOperator::Sin),
            BasisOperator::Acos => matches!(other, BasisOperator::Acos),
            BasisOperator::Asin => matches!(other, BasisOperator::Asin),
            BasisOperator::Inv => matches!(other, BasisOperator::Inv),
            BasisOperator::Int => matches!(other, BasisOperator::Int),
        }
    }
}

impl PartialEq for BasisOperator {
    fn eq(&self, other: &BasisOperator) -> (r: bool) {
        self.same(other)
    }
}

impl PartialEqSpecImpl for BasisOperator {
    open spec fn obeys_eq_spec() -> bool {
        true
    }

    open spec fn eq_spec(&self, other: &BasisOperator) -> bool {
        *self == *other
    }
}

impl PartialEq for BasisLeaf {
    fn eq(&self, other: &BasisLeaf) -> (r: bool) {
        self.coefficient.n == other.coefficient.n && self.coefficient.d == other.coefficient.d
            && self.element == other.element
    }
}

impl PartialEqSpecImpl for BasisLeaf {
    open spec fn obeys_eq_spec() -> bool {
        true
    }

    open spec fn eq_spec(&self, other: &BasisLeaf) -> bool {
        *self == *other
    }
}

impl BasisLeaf {
    /// The leaf x with coefficient 1.
    pub fn x() -> (r: BasisLeaf)
        ensures
            r.coefficient == (Fraction { n: 1, d: 1 }),
            r.element == BasisElement::X,
    {
        BasisLeaf { coefficient: Fraction { n: 1, d: 1 }, element: BasisElement::X }
    }

    /// The leaf infinity with sign `i` (1 or -1).
    pub fn inf(i: i32) -> (r: BasisLeaf)
        requires
            i == 1 || i == -1,
        ensures
            r.coefficient == (Fraction { n: i, d: 1 }),
            r.element == BasisElement::Inf,
    {
        BasisLeaf { coefficient: Fraction { n: i, d: 1 }, element: BasisElement::Inf }
    }

    /// The leaf number 0.
    pub fn zero() -> (r: BasisLeaf)
        ensures
            r.coefficient == (Fraction { n: 0, d: 1 }),
            r.element == BasisElement::Num,
    {
        BasisLeaf { coefficient: Fraction { n: 0, d: 1 }, element: BasisElement::Num }
    }

    /// Whether two leaves have the same element, whatever their coefficients.
    pub fn like(&self, other: &BasisLeaf) -> (r: bool)
        ensures
            r == (self.element == other.element),
    {
        self.element == other.element
    }
}

impl Basis {
    /// The coefficient of the basis.
    pub fn coefficient(&self) -> (r: Fraction)
        ensures
            r == self@.coef(),
    {
        match self {
            Basis::BasisLeaf(basis_leaf) => basis_leaf.coefficient,
            Basis::BasisNode(basis_node) => basis_node.coefficient,
        }
    }

    /// A copy of the basis, node by node.
    pub fn deep_clone(&self) -> (r: Basis)
        ensures
            r@ == self@,
        decreases self@,
    {
        match self {
            Basis::BasisLeaf(leaf) => Basis::BasisLeaf(
                BasisLeaf { coefficient: leaf.coefficient, element: leaf.element },
            ),
            Basis::BasisNode(node) => {
                let ops = clone_all(&node.operands, Ghost(self@));
                Basis::BasisNode(
                    BasisNode { coefficient: node.coefficient, operator: node.operator, operands: ops },
                )
            },
        }
    }

    /// Whether two bases are the same tree.
    pub fn same(&self, other: &Basis) -> (r: bool)
        ensures
            r == (self@ == other@),
        decreases self@,
    {
        match (self, other) {
            (Basis::BasisLeaf(a), Basis::BasisLeaf(b)) => {
                a.coefficient.n == b.coefficient.n && a.coefficient.d == b.coefficient.d
                    && a.element == b.element
            },
            (Basis::BasisNode(a), Basis::BasisNode(b)) => {
                if !(a.coefficient.n == b.coefficient.n && a.coefficient.d == b.coefficient.d) {
                    return false;
                }
                if !a.operator.same(&b.operator) {
                    return false;
                }
                if a.operands.len() != b.operands.len() {
                    proof {
                        lemma_models(a.operands@);
                        lemma_models(b.operands@);
                    }
                    return false;
                }
                let mut i: usize = 0;
                proof {
                    lemma_models(a.operands@);
                    lemma_models(b.operands@);
                }
                while i < a.operands.len()
                    invariant
                        *self == Basis::BasisNode(*a),
                        *other == Basis::BasisNode(*b),
                        a.operands.len() == b.operands.len(),
                        i <= a.operands.len(),
                        models(a.operands@).len() == a.operands@.len(),
                        models(b.operands@).len() == b.operands@.len(),
                        forall|j: int|
                            0 <= j < a.operands@.len() ==> #[trigger] models(a.operands@)[j]
                                == a.operands@[j]@,
                        forall|j: int|
                            0 <= j < b.operands@.len() ==> #[trigger] models(b.operands@)[j]
                                == b.operands@[j]@,
                        forall|j: int| 0 <= j < i ==> a.operands@[j]@ == b.operands@[j]@,
                    decreases a.operands.len() - i,
                {
                    proof {
                        lemma_operand_decreases(*self, i as int);
                    }
                    if !a.operands[i].same(&b.operands[i]) {
                        assert(models(a.operands@)[i as int] != models(b.operands@)[i as int]);
                        return false;
                    }
                    i += 1;
                }
                assert(models(a.operands@) =~= models(b.operands@));
                true
            },
            _ => false,
        }
    }
}

/// Copies the basis node by node.
impl Clone for Basis {
    fn clone(&self) -> (r: Basis)
        ensures
            r@ == self@,
    {
        self.deep_clone()
    }
}

/// Copies the node with its operands.
impl Clone for BasisNode {
    fn clone(&self) -> (r: BasisNode)
        ensures
            r.coefficient == self.coefficient,
            r.operator == self.operator,
            models(r.operands@) == models(self.operands@),
    {
        let b = Basis::BasisNode(BasisNode { coefficient: self.coefficient, operator: self.operator, operands: Vec::new() });
        let ops = clone_all(&self.operands, Ghost(SpecBasis::Node(self.coefficient, self.operator, models(self.operands@))));
        BasisNode { coefficient: self.coefficient, operator: self.operator, operands: ops }
    }
}

/// A copy of each basis of `ops`, which are the operands of `parent`.
fn clone_all(ops: &Vec<Basis>, Ghost(parent): Ghost<SpecBasis>) -> (r: Vec<Basis>)
    requires
        parent is Node,
        parent->Node_2 == models(ops@),
    ensures
        models(r@) == models(ops@),
        r@.len() == ops@.len(),
    decreases parent, 1nat,
{
    let mut out: Vec<Basis> = Vec::new();
    let mut i: usize = 0;
    proof {
        lemma_models(ops@);
    }
    while i < ops.len()
        invariant
            parent is Node,
            parent->Node_2 == models(ops@),
            models(ops@).len() == ops@.len(),
            forall|j: int| 0 <= j < ops@.len() ==> #[trigger] models(ops@)[j] == ops@[j]@,
            i <= ops.len(),
            out@.len() == i,
            forall|j: int| 0 <= j < i ==> out@[j]@ == ops@[j]@,
        decreases ops.len() - i,
    {
        proof {
            assert(decreases_to!(parent => parent->Node_2));
            assert(models(ops@)[i as int] == ops@[i as int]@);
        }
        let c = ops[i].deep_clone();
        out.push(c);
        i += 1;
    }
    proof {
        lemma_models(out@);
        assert(models(out@) =~= models(ops@));
    }
    out
}

impl Basis {
    /// A copy of the basis with coefficient `coefficient`; a sum or difference keeps
    /// coefficient 1 and scales each operand's coefficient instead.
    pub fn with_frac(&self, coefficient: Fraction) -> (r: Basis)
        ensures
            r@ == self@.with_frac(coefficient),
        decreases self@,
    {
        match self {
            Basis::BasisLeaf(basis_leaf) => Basis::BasisLeaf(
                BasisLeaf { coefficient, element: basis_leaf.element },
            ),
            Basis::BasisNode(basis_node) => {
                if basis_node.operator.same(&BasisOperator::Add) || basis_node.operator.same(
                    &BasisOperator::Minus,
                ) {
                    let ops = &basis_node.operands;
                    let mut out: Vec<Basis> = Vec::new();
                    let mut i: usize = 0;
                    proof {
                        lemma_models(ops@);
                    }
                    while i < ops.len()
                        invariant
                            *self == Basis::BasisNode(*basis_node),
                            ops == &basis_node.operands,
                            models(ops@).len() == ops@.len(),
                            forall|j: int|
                                0 <= j < ops@.len() ==> #[trigger] models(ops@)[j] == ops@[j]@,
                            i <= ops.len(),
                            out@.len() == i,
                            forall|j: int|
                                0 <= j < i ==> #[trigger] out@[j]@ == ops@[j]@.with_frac(
                                    ops@[j]@.coef().times_spec(coefficient.n, coefficient.d),
                                ),
                        decreases ops.len() - i,
                    {
                        proof {
                            lemma_operand_decreases(*self, i as int);
                        }
                        let op = &ops[i];
                        let k = op.coefficient().times(coefficient.n, coefficient.d);
                        out.push(op.with_frac(k));
                        i += 1;
                    }
                    proof {
                        lemma_models(out@);
                        lemma_scale_all(models(ops@), coefficient);
                        assert(models(out@) =~= scale_all(models(ops@), coefficient));
                    }
                    Basis::BasisNode(
                        BasisNode {
                            coefficient: Fraction { n: 1, d: 1 },
                            operator: basis_node.operator,
                            operands: out,
                        },
                    )
                } else {
                    let ops = clone_all(&basis_node.operands, Ghost(self@));
                    Basis::BasisNode(
                        BasisNode { coefficient, operator: basis_node.operator, operands: ops },
                    )
                }
            },
        }
    }

    /// A copy of the basis with the integer coefficient `i` (see `with_frac`).
    pub fn with_coefficient(&self, i: i32) -> (r: Basis)
        ensures
            r@ == self@.with_int(i),
    {
        self.with_frac(Fraction { n: i, d: 1 })
    }

    /// The basis with its coefficient negated (see `with_frac`).
    pub fn negated(&self) -> (r: Basis)
        ensures
            r@ == self@.negate(),
    {
        self.with_frac(self.coefficient().times(-1, 1))
    }

    /// Whether the basis is a node with operator `operator`.
    pub fn is_node(&self, operator: BasisOperator) -> (r: bool)
        ensures
            r == self@.is_node(operator),
    {
        match self {
            Basis::BasisNode(basis_node) => basis_node.operator.same(&operator),
            _ => false,
        }
    }

    /// Whether the basis is the number leaf equal to the integer `i`.
    pub fn is_num(&self, i: i32) -> (r: bool)
        ensures
            r == self@.is_num(i),
    {
        self.is_frac(Fraction { n: i, d: 1 })
    }

    /// Whether the basis is a number leaf with coefficient `frac`.
    pub fn is_frac(&self, frac: Fraction) -> (r: bool)
        ensures
            r == self@.is_frac(frac),
    {
        match self {
            Basis::BasisLeaf(leaf) => leaf.element == BasisElement::Num && leaf.coefficient.n
                == frac.n && leaf.coefficient.d == frac.d,
            _ => false,
        }
    }

    /// Whether the basis is an x leaf.
    pub fn is_x(&self) -> (r: bool)
        ensures
            r == self@.is_x(),
    {
        match self {
            Basis::BasisLeaf(leaf) => leaf.element == BasisElement::X,
            _ => false,
        }
    }

    /// Whether the basis is infinity with sign `i` (1 or -1).
    pub fn is_inf(&self, i: i32) -> (r: bool)
        requires
            i == 1 || i == -1,
        ensures
            r == self@.is_inf(i),
    {
        match self {
            Basis::BasisLeaf(leaf) => leaf.element == BasisElement::Inf && leaf.coefficient.d == 1
                && leaf.coefficient.n == i,
            _ => false,
        }
    }

    /// The basis x.
    pub fn x() -> (r: Basis)
        ensures
            r@ == SpecBasis::x(),
    {
        Basis::BasisLeaf(BasisLeaf::x())
    }

    /// Infinity with sign `i` (1 or -1).
    pub fn inf(i: i32) -> (r: Basis)
        requires
            i == 1 || i == -1,
        ensures
            r@ == SpecBasis::inf(i),
    {
        Basis::BasisLeaf(BasisLeaf::inf(i))
    }

    /// The number 0.
    pub fn zero() -> (r: Basis)
        ensures
            r@ == SpecBasis::integer(0),
    {
        Basis::BasisLeaf(BasisLeaf::zero())
    }

    /// The integer `i` as a number leaf.
    pub fn of_num(i: i32) -> (r: Basis)
        ensures
            r@ == SpecBasis::integer(i),
    {
        Basis::BasisLeaf(BasisLeaf { coefficient: Fraction { n: i, d: 1 }, element: BasisElement::Num })
    }

    /// The fraction `frac` as a number leaf.
    pub fn of_frac(frac: Fraction) -> (r: Basis)
        ensures
            r@ == SpecBasis::num(frac),
    {
        Basis::BasisLeaf(BasisLeaf { coefficient: frac, element: BasisElement::Num })
    }

    /// Whether two bases have the same shape: leaves of the same element, or nodes of
    /// the same operator.
    pub fn like(&self, other: &Basis) -> (r: bool)
        ensures
            r == match other@ {
                SpecBasis::Leaf(_, e) => self@ is Leaf && self@->Leaf_1 == e,
                SpecBasis::Node(_, op, _) => self@.is_node(op),
            },
    {
        match other {
            Basis::BasisLeaf(other_basis_leaf) => {
                if let Basis::BasisLeaf(basis_leaf) = self {
                    return basis_leaf.like(other_basis_leaf);
                }
                false
            },
            Basis::BasisNode(other_basis_node) => self.is_node(other_basis_node.operator),
        }
    }

    /// A node with coefficient 1 on the given operands.
    pub fn node(operator: BasisOperator, operands: Vec<Basis>) -> (r: Basis)
        ensures
            r@ == SpecBasis::node(operator, models(operands@)),
    {
        Basis::BasisNode(BasisNode { coefficient: Fraction { n: 1, d: 1 }, operator, operands })
    }

    /// The basis that a basis card stands for.
    pub fn from_card(card: BasisCard) -> (r: Basis)
        ensures
            r@ == card_basis(card),
            r@.wf(),
    {
        proof {
            let x = SpecBasis::x();
            assert(x.wf());
            assert(seq![x][0] == x);
        }
        match card {
            BasisCard::Zero => Basis::of_num(0),
            BasisCard::One => Basis::of_num(1),
            BasisCard::X => Basis::x(),
            BasisCard::X2 => Basis::unary(BasisOperator::Pow(Fraction { n: 2, d: 1 }), Basis::x()),
            BasisCard::Cos => Basis::unary(BasisOperator::Cos, Basis::x()),
            BasisCard::Sin => Basis::unary(BasisOperator::Sin, Basis::x()),
            BasisCard::E => Basis::unary(BasisOperator::E, Basis::x()),
        }
    }

    /// A node with coefficient 1 on a single operand.
    pub fn unary(operator: BasisOperator, operand: Basis) -> (r: Basis)
        ensures
            r@ == SpecBasis::node(operator, seq![operand@]),
    {
        let mut ops: Vec<Basis> = Vec::new();
        ops.push(operand);
        proof {
            lemma_models(ops@);
            assert(models(ops@) =~= seq![operand@]);
        }
        Basis::node(operator, ops)
    }
}

/// The basis that a basis card stands for.
impl From<BasisCard> for Basis {
    fn from(card: BasisCard) -> (r: Basis) {
        Basis::from_card(card)
    }
}

impl FromSpecImpl<BasisCard> for Basis {
    open spec fn obeys_from_spec() -> bool {
        false
    }

    open spec fn from_spec(card: BasisCard) -> Basis {
        arbitrary()
    }
}

/// The number leaf with the given coefficient.
impl From<Fraction> for Basis {
    fn from(frac: Fraction) -> (r: Basis) {
        Basis::of_frac(frac)
    }
}

impl FromSpecImpl<Fraction> for Basis {
    open spec fn obeys_from_spec() -> bool {
        true
    }

    open spec fn from_spec(frac: Fraction) -> Basis {
        Basis::BasisLeaf(BasisLeaf { coefficient: frac, element: BasisElement::Num })
    }
}

/// The number leaf n/d.
impl From<(i32, i32)> for Basis {
    fn from(t: (i32, i32)) -> (r: Basis) {
        Basis::of_frac(Fraction { n: t.0, d: t.1 })
    }
}

impl FromSpecImpl<(i32, i32)> for Basis {
    open spec fn obeys_from_spec() -> bool {
        true
    }

    open spec fn from_spec(t: (i32, i32)) -> Basis {
        Basis::BasisLeaf(BasisLeaf { coefficient: Fraction { n: t.0, d: t.1 }, element: BasisElement::Num })
    }
}

/// The integer as a number leaf.
impl From<i32> for Basis {
    fn from(i: i32) -> (r: Basis) {
        Basis::of_num(i)
    }
}

impl FromSpecImpl<i32> for Basis {
    open spec fn obeys_from_spec() -> bool {
        true
    }

    open spec fn from_spec(i: i32) -> Basis {
        Basis::BasisLeaf(BasisLeaf { coefficient: Fraction { n: i, d: 1 }, element: BasisElement::Num })
    }
}

/// `models` of a sequence with one more basis.
pub proof fn lemma_models_push(s: Seq<Basis>, b: Basis)
    ensures
        models(s.push(b)) == models(s).push(b@),
{
    assert(s.push(b).drop_last() =~= s);
}

/// Outside sums and differences, `with_frac` sets the coefficient: the last value set is
/// the coefficient, whatever was set before.
pub proof fn lemma_with_frac_sets(b: SpecBasis, c1: Fraction, c2: Fraction)
    requires
        !b.is_node(BasisOperator::Add),
        !b.is_node(BasisOperator::Minus),
    ensures
        b.with_frac(c1).with_frac(c2) == b.with_frac(c2),
        b.with_frac(c2).coef() == c2,
{
}

/// Scaling by 1 leaves a tree whose coefficient is in lowest terms as it is, outside
/// sums and differences.
pub proof fn lemma_scale_by_one(b: SpecBasis)
    requires
        !b.is_node(BasisOperator::Add),
        !b.is_node(BasisOperator::Minus),
        b.coef().reduce_spec() == b.coef(),
    ensures
        b.with_frac(b.coef().times_spec(1, 1)) == b,
{
    let c = b.coef();
    assert(wrap32(c.n * 1) == c.n);
    assert(wrap32(c.d * 1) == c.d);
    assert(Fraction { n: wrap32(c.n * 1), d: wrap32(c.d * 1) } == c);
}

/// Whether every coefficient of the tree is in lowest terms, sums and differences
/// carrying coefficient 1 (their coefficients live in their operands), as the builders
/// leave them.
pub open spec fn normal(b: SpecBasis) -> bool
    decreases b,
{
    match b {
        SpecBasis::Leaf(c, _) => c.reduce_spec() == c,
        SpecBasis::Node(c, op, ops) => {
            &&& if op == BasisOperator::Add || op == BasisOperator::Minus {
                c == Fraction { n: 1, d: 1 }
            } else {
                c.reduce_spec() == c
            }
            &&& forall|i: int| 0 <= i < ops.len() ==> normal(#[trigger] ops[i])
        },
    }
}

/// Scaling a normal tree by 1 leaves it as it is, sums and differences included.
pub proof fn lemma_normal_scale_by_one(b: SpecBasis)
    requires
        normal(b),
    ensures
        b.with_frac(b.coef().times_spec(1, 1)) == b,
    decreases b,
{
    let one = Fraction { n: 1, d: 1 };
    assert(one.gcd_spec() == 1) by {
        reveal_with_fuel(crate::math::fraction::euclid, 3);
    }
    assert(one.reduce_spec() == one);
    match b {
        SpecBasis::Node(c, op, ops) => {
            if op == BasisOperator::Add || op == BasisOperator::Minus {
                assert(c.times_spec(1, 1) == one);
                lemma_scale_all(ops, one);
                assert forall|i: int| 0 <= i < ops.len() implies #[trigger] scale_all(ops, one)[i] == ops[i] by {
                    assert(decreases_to!(b => ops[i]));
                    lemma_normal_scale_by_one(ops[i]);
                }
                assert(scale_all(ops, one) =~= ops);
            } else {
                lemma_scale_by_one(b);
            }
        },
        SpecBasis::Leaf(c, e) => {
            assert(wrap32(c.n * 1) == c.n);
            assert(wrap32(c.d * 1) == c.d);
        },
    }
}

/// Setting the coefficient of a well formed tree keeps it well formed.
pub proof fn lemma_with_frac_wf(b: SpecBasis, c: Fraction)
    requires
        b.wf(),
    ensures
        b.with_frac(c).wf(),
    decreases b,
{
    match b {
        SpecBasis::Leaf(_, _) => {},
        SpecBasis::Node(k, op, ops) => {
            assert(arity_ok(op, ops.len()));
            assert(forall|i: int| 0 <= i < ops.len() ==> #[trigger] ops[i].wf());
            if op == BasisOperator::Add || op == BasisOperator::Minus {
                lemma_scale_all(ops, c);
                assert forall|i: int| 0 <= i < ops.len() implies (#[trigger] scale_all(ops, c)[i]).wf() by {
                    assert(ops[i].wf());
                    lemma_with_frac_wf(ops[i], ops[i].coef().times_spec(c.n, c.d));
                }
                assert(b.with_frac(c) == SpecBasis::Node(Fraction { n: 1, d: 1 }, op, scale_all(ops, c)));
                assert(SpecBasis::Node(Fraction { n: 1, d: 1 }, op, scale_all(ops, c)).wf());
            } else {
                assert(b.with_frac(c) == SpecBasis::Node(c, op, ops));
                assert(SpecBasis::Node(c, op, ops).wf());
            }
        },
    }
}

impl Basis {
    /// Whether every node has the operands its operator reads (see `SpecBasis::wf`).
    pub fn well_formed(&self) -> (r: bool)
        ensures
            r == self@.wf(),
        decreases self@,
    {
        match self {
            Basis::BasisLeaf(_) => true,
            Basis::BasisNode(node) => {
                let ops = &node.operands;
                proof {
                    lemma_models(ops@);
                }
                let n = ops.len();
                let arity = match node.operator {
                    BasisOperator::Add | BasisOperator::Mult => true,
                    BasisOperator::Minus => n >= 1,
                    BasisOperator::Div => n == 2,
                    _ => n == 1,
                };
                if !arity {
                    return false;
                }
                let mut i: usize = 0;
                while i < n
                    invariant
                        *self == Basis::BasisNode(*node),
                        ops == &node.operands,
                        n == ops@.len(),
                        models(ops@).len() == ops@.len(),
                        forall|t: int| 0 <= t < ops@.len() ==> #[trigger] models(ops@)[t] == ops@[t]@,
                        i <= n,
                        forall|t: int| 0 <= t < i ==> (#[trigger] models(ops@)[t]).wf(),
                    decreases n - i,
                {
                    proof {
                        assert(decreases_to!(self@ => self@->Node_2));
                        assert(self@->Node_2 == models(ops@));
                        assert(decreases_to!(models(ops@) => models(ops@)[i as int]));
                    }
                    if !ops[i].well_formed() {
                        return false;
                    }
                    i += 1;
                }
                true
            },
        }
    }
}

impl SpecBasis {
    /// The tree with the coefficient of its root replaced by `c` (for every operator).
    pub open spec fn set_coef(self, c: Fraction) -> SpecBasis {
        match self {
            SpecBasis::Leaf(_, e) => SpecBasis::Leaf(c, e),
            SpecBasis::Node(_, op, ops) => SpecBasis::Node(c, op, ops),
        }
    }
}

impl Basis {
    /// A copy of the basis with the coefficient of its root replaced by `c`.
    pub fn set_coefficient(&self, c: Fraction) -> (r: Basis)
        ensures
            r@ == self@.set_coef(c),
    {
        match self {
            Basis::BasisLeaf(leaf) => Basis::BasisLeaf(BasisLeaf { coefficient: c, element: leaf.element }),
            Basis::BasisNode(node) => {
                let ops = clone_all(&node.operands, Ghost(self@));
                Basis::BasisNode(BasisNode { coefficient: c, operator: node.operator, operands: ops })
            },
        }
    }

    /// The operands of a node (empty for a leaf), copied.
    pub fn operands(&self) -> (r: Vec<Basis>)
        ensures
            self@ is Node ==> models(r@) == self@->Node_2,
            self@ is Leaf ==> r@.len() == 0,
    {
        match self {
            Basis::BasisLeaf(_) => Vec::new(),
            Basis::BasisNode(node) => clone_all(&node.operands, Ghost(self@)),
        }
    }
}

/// Appends a copy of `b` to `dst`.
pub fn push_clone(dst: &mut Vec<Basis>, b: &Basis)
    ensures
        models(final(dst)@) == models(old(dst)@).push(b@),
{
    let c = b.deep_clone();
    proof {
        lemma_models_push(dst@, c);
    }
    dst.push(c);
}

/// Appends copies of the bases of `src` to `dst`.
pub fn extend_clones(dst: &mut Vec<Basis>, src: &Vec<Basis>)
    ensures
        models(final(dst)@) == models(old(dst)@) + models(src@),
{
    let ghost start = models(dst@);
    let mut i: usize = 0;
    while i < src.len()
        invariant
            i <= src.len(),
            models(dst@) == start + models(src@.take(i as int)),
        decreases src.len() - i,
    {
        proof {
            assert(src@.take(i + 1) =~= src@.take(i as int).push(src@[i as int]));
            lemma_models_push(src@.take(i as int), src@[i as int]);
        }
        push_clone(dst, &src[i]);
        i += 1;
    }
    assert(src@.take(src.len() as int) =~= src@);
}

} // verus!
