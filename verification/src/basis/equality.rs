use crate::basis::display::{basis_str, compound, is_compound, push_basis};
use crate::basis::structs::{
    lemma_models, lemma_operand_decreases, models, Basis, BasisElement, BasisNode, BasisOperator,
    SpecBasis,
};
use crate::math::fraction::Fraction;
use vstd::prelude::*;
use vstd::seq_lib::{to_multiset_contains, to_multiset_len, to_multiset_remove};
use vstd::std_specs::cmp::PartialEqSpecImpl;

verus! {

broadcast use vstd::std_specs::vec::group_vec_axioms;

/// The written forms of the operands that are not sums, differences, products or quotients.
pub open spec fn simple_strs(s: Seq<SpecBasis>) -> Seq<Seq<char>>
    decreases s.len(),
{
    if s.len() == 0 {
        Seq::empty()
    } else {
        let prev = simple_strs(s.drop_last());
        if is_compound(s.last()) {
            prev
        } else {
            prev.push(basis_str(s.last()))
        }
    }
}

/// How many times `x` occurs in `s`.
pub open spec fn count_occ(s: Seq<Seq<char>>, x: Seq<char>) -> nat
    decreases s.len(),
{
    if s.len() == 0 {
        0
    } else {
        count_occ(s.drop_last(), x) + if s.last() == x {
            1nat
        } else {
            0nat
        }
    }
}

/// Whether two lists of strings hold the same strings the same number of times (that
/// is, whether they are equal once sorted).
pub open spec fn same_strs(a: Seq<Seq<char>>, b: Seq<Seq<char>>) -> bool {
    forall|x: Seq<char>| #[trigger] count_occ(a, x) == count_occ(b, x)
}

/// One half of the game's equality of bases: leaves by coefficient and element; nodes by
/// coefficient, operator and number of operands, then operands regardless of order: the
/// operands that are not sums, differences, products or quotients by their written forms,
/// and each such compound operand of `a` must match some compound operand of `b`.
pub open spec fn covers_eq(a: SpecBasis, b: SpecBasis) -> bool
    decreases a,
{
    match a {
        SpecBasis::Leaf(c1, e1) => match b {
            SpecBasis::Leaf(c2, e2) => c1 == c2 && e1 == e2,
            _ => false,
        },
        SpecBasis::Node(c1, o1, s1) => match b {
            SpecBasis::Node(c2, o2, s2) => {
                &&& c1 == c2
                &&& o1 == o2
                &&& s1.len() == s2.len()
                &&& same_strs(simple_strs(s1), simple_strs(s2))
                &&& forall|i: int|
                    #![trigger s1[i]]
                    0 <= i < s1.len() && is_compound(s1[i]) ==> exists|j: int|
                        #![trigger s2[j]]
                        0 <= j < s2.len() && is_compound(s2[j]) && covers_eq(s1[i], s2[j])
            },
            _ => false,
        },
    }
}

/// Equality of bases as the game compares them: each matches the other (see
/// `covers_eq`).
pub open spec fn basis_eq(a: SpecBasis, b: SpecBasis) -> bool {
    covers_eq(a, b) && covers_eq(b, a)
}

/// A string that occurs in a list is one of its elements.
pub proof fn lemma_count_occ(s: Seq<Seq<char>>, x: Seq<char>)
    ensures
        count_occ(s, x) > 0 ==> exists|i: int| 0 <= i < s.len() && s[i] == x,
    decreases s.len(),
{
    if s.len() > 0 {
        lemma_count_occ(s.drop_last(), x);
        if count_occ(s.drop_last(), x) > 0 {
            let i = choose|i: int| 0 <= i < s.len() - 1 && s.drop_last()[i] == x;
            assert(s[i] == x);
        } else if s.last() == x {
            assert(s[s.len() - 1] == x);
        }
    }
}

/// The strings held by a vector of character vectors.
pub open spec fn strs_view(v: Seq<Vec<char>>) -> Seq<Seq<char>> {
    Seq::new(v.len(), |i: int| v[i]@)
}

/// Whether two character vectors hold the same characters.
fn chars_eq(a: &Vec<char>, b: &Vec<char>) -> (r: bool)
    ensures
        r == (a@ == b@),
{
    if a.len() != b.len() {
        return false;
    }
    let mut i: usize = 0;
    while i < a.len()
        invariant
            a@.len() == b@.len(),
            i <= a.len(),
            forall|t: int| 0 <= t < i ==> a@[t] == b@[t],
        decreases a.len() - i,
    {
        if a[i] != b[i] {
            return false;
        }
        i += 1;
    }
    assert(a@ =~= b@);
    true
}

/// How many times `x` occurs in `v`.
fn count_in(v: &Vec<Vec<char>>, x: &Vec<char>) -> (r: u64)
    ensures
        r == count_occ(strs_view(v@), x@),
{
    let ghost sv = strs_view(v@);
    let mut count: u64 = 0;
    let mut i: usize = 0;
    while i < v.len()
        invariant
            sv == strs_view(v@),
            i <= v.len(),
            count == count_occ(sv.take(i as int), x@),
            count <= i,
        decreases v.len() - i,
    {
        proof {
            assert(sv.take(i + 1).drop_last() =~= sv.take(i as int));
            assert(sv.take(i + 1).last() == v@[i as int]@);
        }
        if chars_eq(&v[i], x) {
            count += 1;
        }
        i += 1;
    }
    assert(sv.take(v.len() as int) =~= sv);
    count
}

/// Whether every string of `a` occurs as often in `b` as in `a`.
fn counts_match(a: &Vec<Vec<char>>, b: &Vec<Vec<char>>) -> (r: bool)
    ensures
        r == (forall|i: int|
            0 <= i < a@.len() ==> count_occ(strs_view(a@), #[trigger] a@[i]@) == count_occ(
                strs_view(b@),
                a@[i]@,
            )),
{
    let mut i: usize = 0;
    while i < a.len()
        invariant
            i <= a.len(),
            forall|t: int|
                0 <= t < i ==> count_occ(strs_view(a@), #[trigger] a@[t]@) == count_occ(
                    strs_view(b@),
                    a@[t]@,
                ),
        decreases a.len() - i,
    {
        if count_in(a, &a[i]) != count_in(b, &a[i]) {
            return false;
        }
        i += 1;
    }
    true
}

/// Whether two lists of strings are equal once sorted (see `same_strs`).
fn same_strings(a: &Vec<Vec<char>>, b: &Vec<Vec<char>>) -> (r: bool)
    ensures
        r == same_strs(strs_view(a@), strs_view(b@)),
{
    let r1 = counts_match(a, b);
    let r2 = counts_match(b, a);
    proof {
        let sa = strs_view(a@);
        let sb = strs_view(b@);
        if r1 && r2 {
            assert forall|x: Seq<char>| #[trigger] count_occ(sa, x) == count_occ(sb, x) by {
                lemma_count_occ(sa, x);
                lemma_count_occ(sb, x);
                if count_occ(sa, x) > 0 {
                    let i = choose|i: int| 0 <= i < sa.len() && sa[i] == x;
                    assert(a@[i]@ == x);
                } else if count_occ(sb, x) > 0 {
                    let i = choose|i: int| 0 <= i < sb.len() && sb[i] == x;
                    assert(b@[i]@ == x);
                }
            }
        } else if !r1 {
            let i = choose|i: int|
                0 <= i < a@.len() && count_occ(sa, #[trigger] a@[i]@) != count_occ(sb, a@[i]@);
            assert(count_occ(sa, a@[i]@) != count_occ(sb, a@[i]@));
        } else {
            let i = choose|i: int|
                0 <= i < b@.len() && count_occ(sb, #[trigger] b@[i]@) != count_occ(sa, b@[i]@);
            assert(count_occ(sa, b@[i]@) != count_occ(sb, b@[i]@));
        }
    }
    r1 && r2
}

/// The written forms of the operands that are not compound (see `simple_strs`).
fn simple_strings(ops: &Vec<Basis>) -> (r: Vec<Vec<char>>)
    ensures
        strs_view(r@) == simple_strs(models(ops@)),
{
    let ghost sops = models(ops@);
    proof {
        lemma_models(ops@);
    }
    let mut out: Vec<Vec<char>> = Vec::new();
    let mut i: usize = 0;
    while i < ops.len()
        invariant
            sops == models(ops@),
            sops.len() == ops@.len(),
            forall|t: int| 0 <= t < ops@.len() ==> #[trigger] sops[t] == ops@[t]@,
            i <= ops.len(),
            strs_view(out@) == simple_strs(sops.take(i as int)),
        decreases ops.len() - i,
    {
        proof {
            assert(sops.take(i + 1).drop_last() =~= sops.take(i as int));
            assert(sops.take(i + 1).last() == sops[i as int]);
        }
        if !compound(&ops[i]) {
            let mut s: Vec<char> = Vec::new();
            push_basis(&mut s, &ops[i]);
            proof {
                assert(s@ =~= basis_str(sops[i as int]));
                assert(strs_view(out@.push(s)) =~= strs_view(out@).push(s@));
            }
            out.push(s);
        }
        i += 1;
    }
    assert(sops.take(ops.len() as int) =~= sops);
    out
}

impl Basis {
    /// One half of the game's equality of bases (see `covers_eq`).
    #[verifier::rlimit(40)]
    fn covers(&self, other: &Basis) -> (r: bool)
        ensures
            r == covers_eq(self@, other@),
        decreases self@,
    {
        match (self, other) {
            (Basis::BasisLeaf(a), Basis::BasisLeaf(b)) => {
                let same_element = match (a.element, b.element) {
                    (BasisElement::Num, BasisElement::Num) => true,
                    (BasisElement::X, BasisElement::X) => true,
                    (BasisElement::Inf, BasisElement::Inf) => true,
                    _ => false,
                };
                a.coefficient.n == b.coefficient.n && a.coefficient.d == b.coefficient.d
                    && same_element
            },
            (Basis::BasisNode(a), Basis::BasisNode(b)) => {
                proof {
                    lemma_models(a.operands@);
                    lemma_models(b.operands@);
                }
                let ghost s1 = models(a.operands@);
                let ghost s2 = models(b.operands@);
                if !(a.coefficient.n == b.coefficient.n && a.coefficient.d == b.coefficient.d) {
                    return false;
                }
                if !a.operator.same(&b.operator) {
                    return false;
                }
                if a.operands.len() != b.operands.len() {
                    return false;
                }
                assert(s1.len() == s2.len());
                let sa = simple_strings(&a.operands);
                let sb = simple_strings(&b.operands);
                if !same_strings(&sa, &sb) {
                    return false;
                }
                let mut i: usize = 0;
                while i < a.operands.len()
                    invariant
                        *self == Basis::BasisNode(*a),
                        *other == Basis::BasisNode(*b),
                        s1 == models(a.operands@),
                        s2 == models(b.operands@),
                        s1.len() == a.operands@.len(),
                        s2.len() == b.operands@.len(),
                        forall|t: int| 0 <= t < a.operands@.len() ==> #[trigger] s1[t] == a.operands@[t]@,
                        forall|t: int| 0 <= t < b.operands@.len() ==> #[trigger] s2[t] == b.operands@[t]@,
                        i <= a.operands.len(),
                        forall|t: int|
                            #![trigger s1[t]]
                            0 <= t < i && is_compound(s1[t]) ==> exists|j: int|
                                #![trigger s2[j]]
                                0 <= j < s2.len() && is_compound(s2[j]) && covers_eq(s1[t], s2[j]),
                    decreases a.operands.len() - i,
                {
                    if compound(&a.operands[i]) {
                        proof {
                            lemma_operand_decreases(*self, i as int);
                        }
                        let mut found = false;
                        let mut j: usize = 0;
                        while j < b.operands.len()
                            invariant
                                *self == Basis::BasisNode(*a),
                                s1 == models(a.operands@),
                                s2 == models(b.operands@),
                                s1.len() == a.operands@.len(),
                                s2.len() == b.operands@.len(),
                                forall|t: int| 0 <= t < a.operands@.len() ==> #[trigger] s1[t] == a.operands@[t]@,
                                forall|t: int| 0 <= t < b.operands@.len() ==> #[trigger] s2[t] == b.operands@[t]@,
                                i < a.operands.len(),
                                decreases_to!(self@ => s1[i as int]),
                                j <= b.operands.len(),
                                found ==> exists|t: int|
                                    #![trigger s2[t]]
                                    0 <= t < s2.len() && is_compound(s2[t]) && covers_eq(s1[i as int], s2[t]),
                                !found ==> forall|t: int|
                                    #![trigger s2[t]]
                                    0 <= t < j ==> !(is_compound(s2[t]) && covers_eq(s1[i as int], s2[t])),
                            decreases b.operands.len() - j,
                        {
                            if !found && compound(&b.operands[j]) && a.operands[i].covers(&b.operands[j]) {
                                found = true;
                                assert(is_compound(s2[j as int]) && covers_eq(s1[i as int], s2[j as int]));
                            }
                            j += 1;
                        }
                        if !found {
                            assert(!covers_eq(self@, other@));
                            return false;
                        }
                    }
                    i += 1;
                }
                proof {
                    assert(s1.len() == s2.len());
                    assert(covers_eq(self@, other@));
                }
                true
            },
            _ => false,
        }
    }
}

impl Basis {
    /// Equality of bases as the game compares them (see `basis_eq`).
    pub fn equals(&self, other: &Basis) -> (r: bool)
        ensures
            r == basis_eq(self@, other@),
    {
        self.covers(other) && other.covers(self)
    }
}

/// Equality as the game compares bases (see `basis_eq`).
impl PartialEq for Basis {
    fn eq(&self, other: &Basis) -> (r: bool) {
        self.equals(other)
    }
}

impl PartialEqSpecImpl for Basis {
    open spec fn obeys_eq_spec() -> bool {
        true
    }

    open spec fn eq_spec(&self, other: &Basis) -> bool {
        basis_eq(self@, other@)
    }
}

impl Eq for Basis {
}

/// Equality of nodes as the game compares them (see `basis_eq`).
impl PartialEq for BasisNode {
    fn eq(&self, other: &BasisNode) -> (r: bool) {
        let a = Basis::BasisNode(self.clone());
        let b = Basis::BasisNode(other.clone());
        a.equals(&b)
    }
}

impl PartialEqSpecImpl for BasisNode {
    open spec fn obeys_eq_spec() -> bool {
        true
    }

    open spec fn eq_spec(&self, other: &BasisNode) -> bool {
        basis_eq(
            SpecBasis::Node(self.coefficient, self.operator, models(self.operands@)),
            SpecBasis::Node(other.coefficient, other.operator, models(other.operands@)),
        )
    }
}

impl Eq for BasisNode {
}

/// Every basis matches itself one way.
proof fn lemma_covers_eq_reflexive(b: SpecBasis)
    ensures
        covers_eq(b, b),
    decreases b,
{
    match b {
        SpecBasis::Leaf(_, _) => {},
        SpecBasis::Node(_, _, s) => {
            assert forall|i: int| 0 <= i < s.len() && is_compound(s[i]) implies exists|j: int|
                #![trigger s[j]]
                0 <= j < s.len() && is_compound(s[j]) && covers_eq(s[i], s[j]) by {
                assert(decreases_to!(b => s));
                assert(decreases_to!(s => s[i]));
                lemma_covers_eq_reflexive(s[i]);
                assert(covers_eq(s[i], s[i]));
            }
        },
    }
}

/// Every basis equals itself under the game's equality.
pub proof fn lemma_basis_eq_reflexive(b: SpecBasis)
    ensures
        basis_eq(b, b),
{
    lemma_covers_eq_reflexive(b);
}

/// The game's equality of bases is symmetric.
pub proof fn lemma_basis_eq_symmetric(a: SpecBasis, b: SpecBasis)
    ensures
        basis_eq(a, b) == basis_eq(b, a),
{
}


/// Counting in a concatenation counts in each part.
proof fn lemma_count_occ_concat(a: Seq<Seq<char>>, b: Seq<Seq<char>>, x: Seq<char>)
    ensures
        count_occ(a + b, x) == count_occ(a, x) + count_occ(b, x),
    decreases b.len(),
{
    if b.len() == 0 {
        assert(a + b =~= a);
    } else {
        assert((a + b).drop_last() =~= a + b.drop_last());
        lemma_count_occ_concat(a, b.drop_last(), x);
    }
}

/// The written forms of the simple operands of a concatenation are those of each part.
proof fn lemma_simple_strs_concat(a: Seq<SpecBasis>, b: Seq<SpecBasis>)
    ensures
        simple_strs(a + b) == simple_strs(a) + simple_strs(b),
    decreases b.len(),
{
    if b.len() == 0 {
        assert(a + b =~= a);
        assert(simple_strs(a) + simple_strs(b) =~= simple_strs(a));
    } else {
        assert((a + b).drop_last() =~= a + b.drop_last());
        lemma_simple_strs_concat(a, b.drop_last());
        if is_compound(b.last()) {
        } else {
            assert(simple_strs(a + b) =~= simple_strs(a) + simple_strs(b));
        }
    }
}

/// Removing an operand removes its written form from the count, where it is simple.
proof fn lemma_simple_count_remove(s: Seq<SpecBasis>, k: int, x: Seq<char>)
    requires
        0 <= k < s.len(),
    ensures
        count_occ(simple_strs(s), x) == count_occ(simple_strs(s.remove(k)), x) + if !is_compound(
            s[k],
        ) && basis_str(s[k]) == x {
            1nat
        } else {
            0nat
        },
{
    let a = s.take(k);
    let e = seq![s[k]];
    let b = s.skip(k + 1);
    assert(s =~= (a + e) + b);
    assert(s.remove(k) =~= a + b);
    lemma_simple_strs_concat(a + e, b);
    lemma_simple_strs_concat(a, e);
    lemma_simple_strs_concat(a, b);
    assert(e.drop_last() =~= Seq::<SpecBasis>::empty());
    assert(e.last() == s[k]);
    reveal_with_fuel(simple_strs, 2);
    reveal_with_fuel(count_occ, 2);
    lemma_count_occ_concat(simple_strs(a) + simple_strs(e), simple_strs(b), x);
    lemma_count_occ_concat(simple_strs(a), simple_strs(e), x);
    lemma_count_occ_concat(simple_strs(a), simple_strs(b), x);
    if !is_compound(s[k]) {
        let one = seq![basis_str(s[k])];
        assert(simple_strs(e) =~= one);
        assert(one.drop_last() =~= Seq::<Seq<char>>::empty());
    } else {
        assert(simple_strs(e) =~= Seq::<Seq<char>>::empty());
    }
}

/// Operand lists with the same elements, in any order, have simple operands with the
/// same written forms the same number of times.
proof fn lemma_same_multiset_same_strs(s: Seq<SpecBasis>, t: Seq<SpecBasis>)
    requires
        s.to_multiset() == t.to_multiset(),
    ensures
        same_strs(simple_strs(s), simple_strs(t)),
    decreases s.len(),
{
    to_multiset_len(s);
    to_multiset_len(t);
    if s.len() == 0 {
        assert(s =~= t);
    } else {
        let n = s.len() as int;
        let e = s[n - 1];
        assert(s.remove(n - 1) =~= s.drop_last());
        to_multiset_remove(s, n - 1);
        to_multiset_contains(s, e);
        assert(s.contains(e));
        to_multiset_contains(t, e);
        let k = choose|k: int| 0 <= k < t.len() && t[k] == e;
        to_multiset_remove(t, k);
        lemma_same_multiset_same_strs(s.drop_last(), t.remove(k));
        assert forall|x: Seq<char>| #[trigger] count_occ(simple_strs(s), x) == count_occ(simple_strs(t), x) by {
            lemma_simple_count_remove(s, n - 1, x);
            lemma_simple_count_remove(t, k, x);
            assert(count_occ(simple_strs(s.drop_last()), x) == count_occ(simple_strs(t.remove(k)), x));
        }
    }
}

/// Each compound operand of `s` matches a compound operand of `t` when `t` holds the
/// same operands.
proof fn lemma_same_multiset_covers(s: Seq<SpecBasis>, t: Seq<SpecBasis>)
    requires
        s.to_multiset() == t.to_multiset(),
    ensures
        forall|i: int|
            #![trigger s[i]]
            0 <= i < s.len() && is_compound(s[i]) ==> exists|j: int|
                #![trigger t[j]]
                0 <= j < t.len() && is_compound(t[j]) && covers_eq(s[i], t[j]),
{
    assert forall|i: int| 0 <= i < s.len() && is_compound(s[i]) implies exists|j: int|
        #![trigger t[j]]
        0 <= j < t.len() && is_compound(t[j]) && covers_eq(s[i], t[j]) by {
        to_multiset_contains(s, s[i]);
        assert(s.contains(s[i]));
        to_multiset_contains(t, s[i]);
        let j = choose|j: int| 0 <= j < t.len() && t[j] == s[i];
        lemma_covers_eq_reflexive(s[i]);
        assert(t[j] == s[i]);
    }
}

/// The order of the operands does not matter: two nodes with the same coefficient and
/// operator whose operands are the same up to order are equal.
pub proof fn lemma_operand_order_irrelevant(c: Fraction, op: BasisOperator, s: Seq<SpecBasis>, t: Seq<SpecBasis>)
    requires
        s.to_multiset() == t.to_multiset(),
    ensures
        basis_eq(SpecBasis::Node(c, op, s), SpecBasis::Node(c, op, t)),
{
    to_multiset_len(s);
    to_multiset_len(t);
    lemma_same_multiset_same_strs(s, t);
    lemma_same_multiset_same_strs(t, s);
    lemma_same_multiset_covers(s, t);
    lemma_same_multiset_covers(t, s);
}

} // verus!
