use crate::basis::builders::{
    div_divides_by_zero, div_divides_by_zero_exec, mult_divides_by_zero, mult_divides_by_zero_exec,
    DivBasisNode, MultBasisNode, SqrtBasisNode,
};
use crate::basis::product::{div_spec, mult_spec, pow_spec, BUDGET};
use crate::basis::structs::{all_wf, lemma_models, lemma_models_push, models, Basis, SpecBasis};
use crate::math::derivative::{derivative, derivative_node, derivative_spec};
use crate::math::integral::{integral, integral_node, integral_spec};
use crate::math::inverse::{inverse, inverse_spec};
use crate::math::limits::{limit, limit_node, limit_spec};
use crate::math::logarithm::{log_spec, logarithm};
use crate::basis::display::{push_str, string_of};
use crate::util::ToLatex;
use vstd::prelude::*;

verus! {

/// A card of the game: a basis card or one of the operator cards.
#[derive(Copy, Clone, Debug, Hash, PartialEq, Eq, Structural)]
pub enum Card {
    BasisCard(BasisCard),
    LimitCard(LimitCard),
    DerivativeCard(DerivativeCard),
    AlgebraicCard(AlgebraicCard),
}

/// Card that represents a basis.
#[derive(Copy, Clone, Debug, Hash, PartialEq, Eq, Structural)]
pub enum BasisCard {
    Zero,
    One,
    X,
    X2,
    Cos,
    Sin,
    E,
}

/// The limit operator cards.
#[derive(Copy, Clone, Debug, Hash, PartialEq, Eq, Structural)]
pub enum LimitCard {
    LimPosInf,
    LimNegInf,
    Lim0,
    Liminf,
    Limsup,
}

/// The derivative operator cards.
#[derive(Copy, Clone, Debug, Hash, PartialEq, Eq, Structural)]
pub enum DerivativeCard {
    Integral,
    Derivative,
    Nabla,
    Laplacian,
}

/// The algebraic operator cards.
#[derive(Copy, Clone, Debug, Hash, PartialEq, Eq, Structural)]
pub enum AlgebraicCard {
    Div,
    Mult,
    Sqrt,
    Inverse,
    Log,
}

impl Card {
    /// The name of the card's kind.
    pub open spec fn card_type_spec(self) -> Seq<char> {
        match self {
            Card::BasisCard(_) => "BASIS_CARD"@,
            Card::LimitCard(_) => "LIMIT_CARD"@,
            Card::AlgebraicCard(_) => "ALGEBRAIC_CARD"@,
            Card::DerivativeCard(_) => "DERIVATIVE_CARD"@,
        }
    }

    /// The name of the card's kind: "BASIS_CARD", "LIMIT_CARD", "ALGEBRAIC_CARD" or "DERIVATIVE_CARD".
    pub fn card_type(&self) -> (r: &'static str)
        ensures
            r@ == self.card_type_spec(),
    {
        match self {
            Card::BasisCard(_) => "BASIS_CARD",
            Card::LimitCard(_) => "LIMIT_CARD",
            Card::AlgebraicCard(_) => "ALGEBRAIC_CARD",
            Card::DerivativeCard(_) => "DERIVATIVE_CARD",
        }
    }
}

/// Whether playing `card` on a basis `b` can be computed: a derivative or integral must
/// be defined, a limit must be one that can be taken.
pub open spec fn card_applies(card: Card, b: SpecBasis) -> bool {
    match card {
        Card::DerivativeCard(DerivativeCard::Integral) => integral_spec(BUDGET as nat, b) is Some,
        Card::DerivativeCard(_) => derivative_spec(BUDGET as nat, b) is Some,
        Card::LimitCard(l) => limit_spec(l, b) is Some,
        _ => true,
    }
}

/// The effect of a single-basis card on a basis: derivative cards differentiate (the
/// integral card integrates), sqrt takes the square root, inverse inverts, log takes the
/// logarithm, a limit card takes the limit (x where it is not defined); other cards
/// give 0.
pub open spec fn apply_spec(card: Card, b: SpecBasis) -> SpecBasis {
    match card {
        Card::DerivativeCard(DerivativeCard::Integral) => integral_spec(BUDGET as nat, b)->0,
        Card::DerivativeCard(_) => derivative_spec(BUDGET as nat, b)->0,
        Card::AlgebraicCard(AlgebraicCard::Sqrt) => pow_spec(BUDGET as nat, 1, 2, b),
        Card::AlgebraicCard(AlgebraicCard::Inverse) => inverse_spec(BUDGET as nat, b),
        Card::AlgebraicCard(AlgebraicCard::Log) => log_spec(b),
        Card::LimitCard(l) => match limit_spec(l, b) {
            Some(Some(x)) => x,
            _ => SpecBasis::x(),
        },
        _ => SpecBasis::integer(0),
    }
}

/// Applies the effect of `card` to `basis` (see `apply_spec`).
pub fn apply_card(card: &Card, basis: &Basis) -> (r: Basis)
    requires
        basis@.wf(),
        card_applies(*card, basis@),
    ensures
        r@ == apply_spec(*card, basis@),
        r@.wf(),
{
    match card {
        Card::DerivativeCard(DerivativeCard::Integral) => integral(basis),
        Card::DerivativeCard(_) => derivative(basis),
        Card::AlgebraicCard(AlgebraicCard::Sqrt) => SqrtBasisNode(1, basis),
        Card::AlgebraicCard(AlgebraicCard::Inverse) => inverse(basis),
        Card::AlgebraicCard(AlgebraicCard::Log) => logarithm(basis),
        Card::LimitCard(limit_card) => {
            match limit(limit_card, basis) {
                Some(l) => l,
                // invalid limit placeholder
                None => Basis::x(),
            }
        },
        _ => Basis::of_num(0),
    }
}

/// The bases at even positions (taken from the last position down) and those at odd
/// positions, each list in that descending order.
pub open spec fn split_alternate(s: Seq<SpecBasis>) -> (Seq<SpecBasis>, Seq<SpecBasis>)
    decreases s.len(),
{
    if s.len() == 0 {
        (Seq::empty(), Seq::empty())
    } else {
        let i = s.len() - 1;
        let rest = split_alternate(s.drop_last());
        if i % 2 == 0 {
            (seq![s[i]] + rest.0, rest.1)
        } else {
            (rest.0, seq![s[i]] + rest.1)
        }
    }
}

/// Whether a multi-basis card can be played on `bases`: it is a product or quotient
/// card, and no product or quotient on the way divides by zero.
pub open spec fn multi_card_applies(card: Card, bases: Seq<SpecBasis>) -> bool {
    let parts = split_alternate(bases);
    match card {
        Card::AlgebraicCard(AlgebraicCard::Mult) => !mult_divides_by_zero(bases),
        Card::AlgebraicCard(AlgebraicCard::Div) => {
            &&& !mult_divides_by_zero(parts.0)
            &&& !mult_divides_by_zero(parts.1)
            &&& !div_divides_by_zero(
                mult_spec(BUDGET as nat, parts.0),
                mult_spec(BUDGET as nat, parts.1),
            )
        },
        _ => false,
    }
}

/// The effect of a product or quotient card on the selected bases: their product; or
/// the product of those at even positions over the product of those at odd positions.
pub open spec fn apply_multi_spec(card: Card, bases: Seq<SpecBasis>) -> SpecBasis {
    let parts = split_alternate(bases);
    match card {
        Card::AlgebraicCard(AlgebraicCard::Mult) => mult_spec(BUDGET as nat, bases),
        _ => div_spec(
            BUDGET as nat,
            mult_spec(BUDGET as nat, parts.0),
            mult_spec(BUDGET as nat, parts.1),
        ),
    }
}

/// Applies a product or quotient card to the selected bases (see `apply_multi_spec`).
pub fn apply_multi_card(card: &Card, bases: Vec<Basis>) -> (r: Basis)
    requires
        all_wf(models(bases@)),
        multi_card_applies(*card, models(bases@)),
    ensures
        r@ == apply_multi_spec(*card, models(bases@)),
        r@.wf(),
{
    match card {
        Card::AlgebraicCard(AlgebraicCard::Mult) => MultBasisNode(bases),
        _ => {
            let ghost s = models(bases@);
            proof {
                lemma_models(bases@);
            }
            let mut numerator: Vec<Basis> = Vec::new();
            let mut denominator: Vec<Basis> = Vec::new();
            let mut i: usize = bases.len();
            proof {
                lemma_models(numerator@);
                assert(s.take(i as int) =~= s);
                assert(split_alternate(s).0 =~= models(numerator@) + split_alternate(s.take(i as int)).0);
                assert(split_alternate(s).1 =~= models(denominator@) + split_alternate(s.take(i as int)).1);
            }
            while i > 0
                invariant
                    s == models(bases@),
                    s.len() == bases@.len(),
                    forall|t: int| 0 <= t < bases@.len() ==> #[trigger] s[t] == bases@[t]@,
                    all_wf(s),
                    i <= bases.len(),
                    split_alternate(s).0 == models(numerator@) + split_alternate(s.take(i as int)).0,
                    split_alternate(s).1 == models(denominator@) + split_alternate(s.take(i as int)).1,
                    all_wf(models(numerator@)),
                    all_wf(models(denominator@)),
                decreases i,
            {
                let j = i - 1;
                let b = bases[j].deep_clone();
                proof {
                    assert(s.take(i as int).drop_last() =~= s.take(j as int));
                    assert(s.take(i as int)[j as int] == s[j as int]);
                    assert(s[j as int].wf());
                }
                if j % 2 == 0 {
                    proof {
                        lemma_models_push(numerator@, b);
                        lemma_models(numerator@.push(b));
                        lemma_models(numerator@);
                        assert(models(numerator@) + split_alternate(s.take(i as int)).0 =~= models(numerator@).push(b@) + split_alternate(s.take(j as int)).0);
                    }
                    numerator.push(b);
                } else {
                    proof {
                        lemma_models_push(denominator@, b);
                        lemma_models(denominator@.push(b));
                        lemma_models(denominator@);
                        assert(models(denominator@) + split_alternate(s.take(i as int)).1 =~= models(denominator@).push(b@) + split_alternate(s.take(j as int)).1);
                    }
                    denominator.push(b);
                }
                i = j;
            }
            proof {
                assert(split_alternate(s.take(0)).0 =~= Seq::<SpecBasis>::empty());
                assert(models(numerator@) =~= split_alternate(s).0);
                assert(models(denominator@) =~= split_alternate(s).1);
            }
            let top = MultBasisNode(numerator);
            let bottom = MultBasisNode(denominator);
            DivBasisNode(&top, &bottom)
        },
    }
}

/// Applies `card` to `basis` where it can be computed (see `card_applies` and
/// `apply_spec`), and gives none where it cannot.
pub fn try_apply_card(card: &Card, basis: &Basis) -> (r: Option<Basis>)
    requires
        basis@.wf(),
    ensures
        card_applies(*card, basis@) ==> (r matches Some(x) && x@ == apply_spec(*card, basis@) && x@.wf()),
        !card_applies(*card, basis@) ==> r is None,
{
    match card {
        Card::DerivativeCard(DerivativeCard::Integral) => integral_node(BUDGET, basis),
        Card::DerivativeCard(_) => derivative_node(BUDGET, basis),
        Card::LimitCard(limit_card) => match limit_node(*limit_card, basis) {
            None => None,
            Some(Some(l)) => Some(l),
            Some(None) => Some(Basis::x()),
        },
        _ => Some(apply_card(card, basis)),
    }
}

/// Applies a product or quotient card to the selected bases where it can be computed
/// (see `multi_card_applies` and `apply_multi_spec`), and gives none where it cannot.
pub fn try_apply_multi_card(card: &Card, bases: Vec<Basis>) -> (r: Option<Basis>)
    requires
        all_wf(models(bases@)),
    ensures
        multi_card_applies(*card, models(bases@)) ==> (r matches Some(x) && x@ == apply_multi_spec(
            *card,
            models(bases@),
        ) && x@.wf()),
        !multi_card_applies(*card, models(bases@)) ==> r is None,
{
    match card {
        Card::AlgebraicCard(AlgebraicCard::Mult) => {
            if mult_divides_by_zero_exec(&bases) {
                return None;
            }
            Some(apply_multi_card(card, bases))
        },
        Card::AlgebraicCard(AlgebraicCard::Div) => {
            let ghost s = models(bases@);
            proof {
                lemma_models(bases@);
            }
            let mut numerator: Vec<Basis> = Vec::new();
            let mut denominator: Vec<Basis> = Vec::new();
            let mut i: usize = bases.len();
            proof {
                lemma_models(numerator@);
                assert(s.take(i as int) =~= s);
                assert(split_alternate(s).0 =~= models(numerator@) + split_alternate(s.take(i as int)).0);
                assert(split_alternate(s).1 =~= models(denominator@) + split_alternate(s.take(i as int)).1);
            }
            while i > 0
                invariant
                    s == models(bases@),
                    s.len() == bases@.len(),
                    forall|t: int| 0 <= t < bases@.len() ==> #[trigger] s[t] == bases@[t]@,
                    all_wf(s),
                    i <= bases.len(),
                    split_alternate(s).0 == models(numerator@) + split_alternate(s.take(i as int)).0,
                    split_alternate(s).1 == models(denominator@) + split_alternate(s.take(i as int)).1,
                    all_wf(models(numerator@)),
                    all_wf(models(denominator@)),
                decreases i,
            {
                let j = i - 1;
                let b = bases[j].deep_clone();
                proof {
                    assert(s.take(i as int).drop_last() =~= s.take(j as int));
                    assert(s.take(i as int)[j as int] == s[j as int]);
                    assert(s[j as int].wf());
                }
                if j % 2 == 0 {
                    proof {
                        lemma_models_push(numerator@, b);
                        lemma_models(numerator@.push(b));
                        lemma_models(numerator@);
                        assert(models(numerator@) + split_alternate(s.take(i as int)).0 =~= models(numerator@).push(b@) + split_alternate(s.take(j as int)).0);
                    }
                    numerator.push(b);
                } else {
                    proof {
                        lemma_models_push(denominator@, b);
                        lemma_models(denominator@.push(b));
                        lemma_models(denominator@);
                        assert(models(denominator@) + split_alternate(s.take(i as int)).1 =~= models(denominator@).push(b@) + split_alternate(s.take(j as int)).1);
                    }
                    denominator.push(b);
                }
                i = j;
            }
            proof {
                assert(split_alternate(s.take(0)).0 =~= Seq::<SpecBasis>::empty());
                assert(models(numerator@) =~= split_alternate(s).0);
                assert(models(denominator@) =~= split_alternate(s).1);
            }
            if mult_divides_by_zero_exec(&numerator) || mult_divides_by_zero_exec(&denominator) {
                return None;
            }
            let top = MultBasisNode(numerator);
            let bottom = MultBasisNode(denominator);
            if div_divides_by_zero_exec(&top, &bottom) {
                return None;
            }
            Some(DivBasisNode(&top, &bottom))
        },
        _ => None,
    }
}

/// The LaTeX form of a card as the game shows it; log as `\ln` when `ln` holds.
pub open spec fn card_latex(card: Card, ln: bool) -> Seq<char> {
    match card {
        Card::BasisCard(b) => match b {
            BasisCard::Zero => "0"@,
            BasisCard::One => "1"@,
            BasisCard::X => "x"@,
            BasisCard::X2 => "x^{2}"@,
            BasisCard::Cos => "\\cos(x)"@,
            BasisCard::Sin => "\\sin(x)"@,
            BasisCard::E => "e^{x}"@,
        },
        Card::LimitCard(l) => match l {
            LimitCard::LimPosInf => "\\lim\\limits_{x\\rightarrow+\\infty}"@,
            LimitCard::LimNegInf => "\\lim\\limits_{x\\rightarrow-\\infty}"@,
            LimitCard::Lim0 => "\\lim\\limits_{x\\rightarrow0}"@,
            LimitCard::Liminf => "\\liminf\\limits_{x\\rightarrow+\\infty}"@,
            LimitCard::Limsup => "\\limsup\\limits_{x\\rightarrow+\\infty}"@,
        },
        Card::DerivativeCard(d) => match d {
            DerivativeCard::Derivative => "\\frac{d}{dx}"@,
            DerivativeCard::Nabla => "\\nabla"@,
            DerivativeCard::Laplacian => "\\Delta"@,
            DerivativeCard::Integral => "\\int"@,
        },
        Card::AlgebraicCard(a) => match a {
            AlgebraicCard::Div => "\\div"@,
            AlgebraicCard::Mult => "\\times"@,
            AlgebraicCard::Sqrt => "\\sqrt{}"@,
            AlgebraicCard::Inverse => "f^{-1}"@,
            AlgebraicCard::Log => if ln {
                "\\ln"@
            } else {
                "\\log"@
            },
        },
    }
}

/// A string holding the characters of `s`.
fn text(s: &str) -> (r: String)
    ensures
        r@ == s@,
{
    let mut out: Vec<char> = Vec::new();
    push_str(&mut out, s);
    proof {
        assert(out@ =~= s@);
    }
    string_of(&out)
}

/// The LaTeX form of a card (see `card_latex`).
fn card_latex_exec(card: Card, ln: bool) -> (r: String)
    ensures
        r@ == card_latex(card, ln),
{
    match card {
        Card::BasisCard(b) => match b {
            BasisCard::Zero => text("0"),
            BasisCard::One => text("1"),
            BasisCard::X => text("x"),
            BasisCard::X2 => text("x^{2}"),
            BasisCard::Cos => text("\\cos(x)"),
            BasisCard::Sin => text("\\sin(x)"),
            BasisCard::E => text("e^{x}"),
        },
        Card::LimitCard(l) => match l {
            LimitCard::LimPosInf => text("\\lim\\limits_{x\\rightarrow+\\infty}"),
            LimitCard::LimNegInf => text("\\lim\\limits_{x\\rightarrow-\\infty}"),
            LimitCard::Lim0 => text("\\lim\\limits_{x\\rightarrow0}"),
            LimitCard::Liminf => text("\\liminf\\limits_{x\\rightarrow+\\infty}"),
            LimitCard::Limsup => text("\\limsup\\limits_{x\\rightarrow+\\infty}"),
        },
        Card::DerivativeCard(d) => match d {
            DerivativeCard::Derivative => text("\\frac{d}{dx}"),
            DerivativeCard::Nabla => text("\\nabla"),
            DerivativeCard::Laplacian => text("\\Delta"),
            DerivativeCard::Integral => text("\\int"),
        },
        Card::AlgebraicCard(a) => match a {
            AlgebraicCard::Div => text("\\div"),
            AlgebraicCard::Mult => text("\\times"),
            AlgebraicCard::Sqrt => text("\\sqrt{}"),
            AlgebraicCard::Inverse => text("f^{-1}"),
            AlgebraicCard::Log => {
                if ln {
                    text("\\ln")
                } else {
                    text("\\log")
                }
            },
        },
    }
}

/// LaTeX form of a card, as shown on the game's interface (see `card_latex`).
impl ToLatex for Card {
    fn to_latex(&self, ln: bool) -> (r: String)
        ensures
            r@ == card_latex(*self, ln),
    {
        card_latex_exec(*self, ln)
    }
}

/// LaTeX form of a basis card (see `card_latex`).
impl ToLatex for BasisCard {
    fn to_latex(&self, ln: bool) -> (r: String)
        ensures
            r@ == card_latex(Card::BasisCard(*self), ln),
    {
        card_latex_exec(Card::BasisCard(*self), ln)
    }
}

/// LaTeX form of a limit card (see `card_latex`).
impl ToLatex for LimitCard {
    fn to_latex(&self, ln: bool) -> (r: String)
        ensures
            r@ == card_latex(Card::LimitCard(*self), ln),
    {
        card_latex_exec(Card::LimitCard(*self), ln)
    }
}

/// LaTeX form of a derivative card (see `card_latex`).
impl ToLatex for DerivativeCard {
    fn to_latex(&self, ln: bool) -> (r: String)
        ensures
            r@ == card_latex(Card::DerivativeCard(*self), ln),
    {
        card_latex_exec(Card::DerivativeCard(*self), ln)
    }
}

/// LaTeX form of an algebraic card (see `card_latex`).
impl ToLatex for AlgebraicCard {
    fn to_latex(&self, ln: bool) -> (r: String)
        ensures
            r@ == card_latex(Card::AlgebraicCard(*self), ln),
    {
        card_latex_exec(Card::AlgebraicCard(*self), ln)
    }
}

} // verus!
