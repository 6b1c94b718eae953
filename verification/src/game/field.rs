use crate::basis::structs::{Basis, SpecBasis};
use crate::cards::{Card, DerivativeCard};
use crate::math::fraction::{trunc32, wrap32};
use std::collections::HashMap;
use vstd::prelude::*;

verus! {

broadcast use vstd::std_specs::hash::group_hash_axioms;

/// A basis on the field with the bases it was derived from or integrated to, each under
/// its step: 0 for the basis as played, one less per derivative, one more per integral.
pub struct FieldBasis {
    pub basis: Option<Basis>,
    pub index: i32,
    pub history: HashMap<i32, Basis>,
}

/// What a field basis holds: its current basis, its step, and the bases by step.
pub struct FieldModel {
    pub basis: Option<SpecBasis>,
    pub index: i32,
    pub history: Map<i32, SpecBasis>,
}

/// The trees of a map of bases.
pub open spec fn history_view(m: Map<i32, Basis>) -> Map<i32, SpecBasis> {
    m.map_values(|b: Basis| b@)
}

impl View for FieldBasis {
    type V = FieldModel;

    open spec fn view(&self) -> FieldModel {
        FieldModel {
            basis: match self.basis {
                Some(b) => Some(b@),
                None => None,
            },
            index: self.index,
            history: history_view(self.history@),
        }
    }
}

/// The step that a card moves to: one down for a derivative or nabla, two down for a
/// laplacian, one up for an integral; other cards move nowhere.
pub open spec fn card_step(index: i32, card: Card) -> Option<i32> {
    match card {
        Card::DerivativeCard(DerivativeCard::Derivative) => Some(wrap32(index - 1)),
        Card::DerivativeCard(DerivativeCard::Nabla) => Some(wrap32(index - 1)),
        Card::DerivativeCard(DerivativeCard::Laplacian) => Some(wrap32(index - 2)),
        Card::DerivativeCard(DerivativeCard::Integral) => Some(wrap32(index + 1)),
        _ => None,
    }
}

/// The field basis after a derivative: one step down; a new basis, if given, is recorded
/// at that step; the current basis is the one recorded there.
pub open spec fn derive_step(m: FieldModel, b: Option<SpecBasis>) -> FieldModel {
    let i = wrap32(m.index - 1);
    let h = match b {
        Some(x) => m.history.insert(i, x),
        None => m.history,
    };
    FieldModel { basis: Some(h[i]), index: i, history: h }
}

/// The field basis after an integral: one step up, as `derive_step` otherwise.
pub open spec fn integrate_step(m: FieldModel, b: Option<SpecBasis>) -> FieldModel {
    let i = wrap32(m.index + 1);
    let h = match b {
        Some(x) => m.history.insert(i, x),
        None => m.history,
    };
    FieldModel { basis: Some(h[i]), index: i, history: h }
}

impl FieldBasis {
    /// A field basis holding `basis` at step 0.
    pub fn new(basis: &Basis) -> (r: FieldBasis)
        ensures
            r@ == (FieldModel {
                basis: Some(basis@),
                index: 0,
                history: map![0i32 => basis@],
            }),
    {
        let mut history: HashMap<i32, Basis> = HashMap::new();
        history.insert(0, basis.deep_clone());
        let current = basis.deep_clone();
        let r = FieldBasis { basis: Some(current), index: 0, history };
        proof {
            assert(history_view(r.history@) =~= map![0i32 => basis@]);
        }
        r
    }

    /// An empty field slot.
    pub fn none() -> (r: FieldBasis)
        ensures
            r@ == (FieldModel { basis: None, index: 0, history: Map::empty() }),
    {
        let r = FieldBasis { basis: None, index: 0, history: HashMap::new() };
        proof {
            assert(history_view(r.history@) =~= Map::<i32, SpecBasis>::empty());
        }
        r
    }

    /// Whether the basis that `card` leads to has been recorded (see `card_step`).
    pub fn has_value(&self, card: &Card) -> (r: bool)
        ensures
            r == match card_step(self.index, *card) {
                Some(i) => self@.history.contains_key(i),
                None => false,
            },
    {
        let step: i32 = match card {
            Card::DerivativeCard(DerivativeCard::Derivative) | Card::DerivativeCard(DerivativeCard::Nabla) => trunc32(self.index as i128 - 1),
            Card::DerivativeCard(DerivativeCard::Laplacian) => trunc32(self.index as i128 - 2),
            Card::DerivativeCard(DerivativeCard::Integral) => trunc32(self.index as i128 + 1),
            _ => {
                return false;
            },
        };
        self.history.contains_key(&step)
    }

    /// Moves one step down (see `derive_step`); the step must hold a basis, or one must
    /// be given.
    pub fn derivative(&mut self, basis: Option<&Basis>)
        requires
            basis is Some || old(self)@.history.contains_key(wrap32(old(self).index - 1)),
        ensures
            final(self)@ == derive_step(
                old(self)@,
                match basis {
                    Some(b) => Some(b@),
                    None => None,
                },
            ),
    {
        self.index = trunc32(self.index as i128 - 1);
        self.record(basis);
    }

    /// Moves one step up (see `integrate_step`); the step must hold a basis, or one must
    /// be given.
    pub fn integral(&mut self, basis: Option<&Basis>)
        requires
            basis is Some || old(self)@.history.contains_key(wrap32(old(self).index + 1)),
        ensures
            final(self)@ == integrate_step(
                old(self)@,
                match basis {
                    Some(b) => Some(b@),
                    None => None,
                },
            ),
    {
        self.index = trunc32(self.index as i128 + 1);
        self.record(basis);
    }

    /// Records `basis`, if given, at the current step and makes the basis recorded there
    /// current.
    fn record(&mut self, basis: Option<&Basis>)
        requires
            basis is Some || old(self)@.history.contains_key(old(self).index),
        ensures
            final(self).index == old(self).index,
            ({
                let h = match basis {
                    Some(b) => old(self)@.history.insert(old(self).index, b@),
                    None => old(self)@.history,
                };
                final(self)@ == (FieldModel { basis: Some(h[old(self).index]), index: old(self).index, history: h })
            }),
    {
        let ghost h0 = self.history@;
        match basis {
            Some(b) => {
                self.history.insert(self.index, b.deep_clone());
                proof {
                    assert(history_view(self.history@) =~= history_view(h0).insert(self.index, b@));
                }
            },
            None => {},
        }
        let current = match self.history.get(&self.index) {
            Some(b) => b.deep_clone(),
            None => Basis::of_num(0),
        };
        self.basis = Some(current);
        proof {
            assert(self.history@.contains_key(self.index));
        }
    }
}

/// Undoing a derivative with an integral: after a derivative that records a basis, an
/// integral that records none returns to the step and the basis held there before.
pub proof fn lemma_derivative_then_integral(m: FieldModel, d: SpecBasis)
    requires
        m.history.contains_key(m.index),
        m.index > i32::MIN,
    ensures
        integrate_step(derive_step(m, Some(d)), None).index == m.index,
        integrate_step(derive_step(m, Some(d)), None).basis == Some(m.history[m.index]),
        integrate_step(derive_step(m, Some(d)), None).history == m.history.insert((m.index - 1) as i32, d),
{
    assert(wrap32(m.index - 1) == m.index - 1);
    assert(wrap32(m.index - 1 + 1) == m.index);
}

/// Undoing an integral with a derivative: after an integral that records a basis, a
/// derivative that records none returns to the step and the basis held there before.
pub proof fn lemma_integral_then_derivative(m: FieldModel, i: SpecBasis)
    requires
        m.history.contains_key(m.index),
        m.index < i32::MAX,
    ensures
        derive_step(integrate_step(m, Some(i)), None).index == m.index,
        derive_step(integrate_step(m, Some(i)), None).basis == Some(m.history[m.index]),
        derive_step(integrate_step(m, Some(i)), None).history == m.history.insert((m.index + 1) as i32, i),
{
    assert(wrap32(m.index + 1) == m.index + 1);
    assert(wrap32(m.index + 1 - 1) == m.index);
}

} // verus!
