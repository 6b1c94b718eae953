use crate::basis::structs::{Basis, SpecBasis};
use crate::cards::{
    apply_card, apply_spec, card_applies, try_apply_card, AlgebraicCard, Card, DerivativeCard,
};
use crate::game::field::{
    card_step, derive_step, history_view, integrate_step, FieldBasis, FieldModel,
};
use crate::game::structs::{Turn, TurnPhase};
use crate::math::fraction::wrap32;
use vstd::prelude::*;

verus! {

broadcast use {vstd::std_specs::hash::group_hash_axioms, vstd::seq_lib::group_to_multiset_ensures, vstd::seq_lib::lemma_multiset_commutative};

/// The player whose turn it is on turn `number`: 1 on even turns, 2 on odd ones.
pub open spec fn player_of(number: u32) -> u32 {
    if number % 2 == 0 {
        1
    } else {
        2
    }
}

impl Turn {
    /// The player whose turn it is (see `player_of`).
    pub fn player_num(&self) -> (r: u32)
        ensures
            r == player_of(self.number),
    {
        if self.number % 2 == 0 {
            1
        } else {
            2
        }
    }
}

/// The turn after `turn`: the next number, at the start of the turn.
pub open spec fn next_turn_spec(turn: Turn) -> Turn {
    Turn { number: (turn.number + 1) as u32, phase: TurnPhase::IDLE }
}

/// The turn after `turn` (see `next_turn_spec`).
pub fn next_turn(turn: &Turn) -> (r: Turn)
    requires
        turn.number < u32::MAX,
    ensures
        r == next_turn_spec(*turn),
{
    Turn { number: turn.number + 1, phase: TurnPhase::IDLE }
}

/// The players take turns: the turn after any turn belongs to the other player.
pub proof fn lemma_players_alternate(turn: Turn)
    requires
        turn.number < u32::MAX,
    ensures
        player_of(next_turn_spec(turn).number) != player_of(turn.number),
{
}

/// The phase that a card chosen from the hand at the start of a turn leads to: a basis
/// card to choosing an empty slot of the field (none when there is no empty slot), nabla
/// and laplacian to choosing a half of the field, product and quotient cards to choosing
/// several bases, any other card to choosing one basis.
pub open spec fn idle_phase_spec(card: Card, has_empty_slot: bool) -> Option<TurnPhase> {
    match card {
        Card::BasisCard(_) => if has_empty_slot {
            Some(TurnPhase::SELECT(card))
        } else {
            None
        },
        Card::DerivativeCard(DerivativeCard::Laplacian) | Card::DerivativeCard(
            DerivativeCard::Nabla,
        ) => Some(TurnPhase::FIELD_SELECT(card)),
        Card::AlgebraicCard(AlgebraicCard::Div) | Card::AlgebraicCard(AlgebraicCard::Mult) => Some(
            TurnPhase::MULTISELECT(card),
        ),
        _ => Some(TurnPhase::SELECT(card)),
    }
}

/// The phase that a card chosen at the start of a turn leads to (see `idle_phase_spec`).
pub fn idle_turn_phase(card: Card, has_empty_slot: bool) -> (r: Option<TurnPhase>)
    ensures
        r == idle_phase_spec(card, has_empty_slot),
{
    match card {
        Card::BasisCard(_) => {
            // allow play if empty slot
            if has_empty_slot {
                Some(TurnPhase::SELECT(card))
            } else {
                None
            }
        },
        Card::DerivativeCard(DerivativeCard::Laplacian) | Card::DerivativeCard(
            DerivativeCard::Nabla,
        ) => Some(TurnPhase::FIELD_SELECT(card)),
        Card::AlgebraicCard(AlgebraicCard::Div) | Card::AlgebraicCard(AlgebraicCard::Mult) => Some(
            TurnPhase::MULTISELECT(card),
        ),
        _ => Some(TurnPhase::SELECT(card)),
    }
}

/// How many cards a hand of `hand_len` cards draws from a deck of `deck_len` cards to
/// get back to seven.
pub open spec fn draw_count(hand_len: nat, deck_len: nat) -> nat {
    let want: int = if hand_len >= 7 { 0 } else { 7 - hand_len };
    if want <= deck_len {
        want as nat
    } else {
        deck_len
    }
}

/// The hand and the deck after refilling the hand to seven cards from the end of the
/// deck, the last card first, while the deck has cards.
pub open spec fn refill_spec(hand: Seq<Card>, deck: Seq<Card>) -> (Seq<Card>, Seq<Card>) {
    let k = draw_count(hand.len(), deck.len());
    let split = deck.len() - k;
    (hand + deck.subrange(split, deck.len() as int).reverse(), deck.subrange(0, split))
}

/// Refills the hand to seven cards from the deck (see `refill_spec`). No card is lost or
/// added.
pub fn refill_hand(hand: &mut Vec<Card>, deck: &mut Vec<Card>)
    ensures
        (final(hand)@, final(deck)@) == refill_spec(old(hand)@, old(deck)@),
        (final(hand)@ + final(deck)@).to_multiset() == (old(hand)@ + old(deck)@).to_multiset(),
{
    let ghost h0 = hand@;
    let ghost d0 = deck@;
    let ghost k = draw_count(h0.len(), d0.len());
    let mut drawn: usize = 0;
    // replenish from deck if possible
    while hand.len() < 7 && deck.len() > 0
        invariant
            drawn <= d0.len(),
            deck@ == d0.subrange(0, d0.len() - drawn),
            hand@ == h0 + d0.subrange(d0.len() - drawn, d0.len() as int).reverse(),
            hand@.len() == h0.len() + drawn,
            drawn <= k,
            k == draw_count(h0.len(), d0.len()),
        decreases deck.len(),
    {
        let card = deck.pop().unwrap();
        hand.push(card);
        proof {
            assert(d0.subrange(d0.len() - (drawn + 1), d0.len() as int).reverse() =~= d0.subrange(
                d0.len() - drawn,
                d0.len() as int,
            ).reverse().push(card));
        }
        drawn = drawn + 1;
    }
    proof {
        assert(drawn == k);
        let tail = d0.subrange(d0.len() - k, d0.len() as int);
        assert(d0 =~= d0.subrange(0, d0.len() - k) + tail);
        assert(tail.reverse().to_multiset() =~= tail.to_multiset()) by {
            tail.lemma_reverse_to_multiset();
        }
        assert(hand@ + deck@ =~= h0 + tail.reverse() + d0.subrange(0, d0.len() - k));
    }
}

/// A hand of at most seven cards is back to seven after refilling from a deck that holds
/// the cards missing.
pub proof fn lemma_refill_restores_seven(hand_len: nat, deck_len: nat)
    requires
        hand_len <= 7,
        hand_len + deck_len >= 7,
    ensures
        hand_len + draw_count(hand_len, deck_len) == 7,
{
}

/// The hand with the cards at the positions `used` removed one after the other.
pub open spec fn remove_all(hand: Seq<Card>, used: Seq<usize>) -> Seq<Card>
    decreases used.len(),
{
    if used.len() == 0 {
        hand
    } else {
        remove_all(hand.remove(used[0] as int), used.drop_first())
    }
}

/// Whether the positions `used` can be removed one after the other from a hand of `len`
/// cards: each is within the hand as it then is.
pub open spec fn removable(len: nat, used: Seq<usize>) -> bool {
    forall|k: int| 0 <= k < used.len() ==> (#[trigger] used[k]) + k < len
}

/// Removes the cards at the positions `used` from the hand, one after the other (the
/// caller lists the highest position first).
pub fn remove_used(hand: &mut Vec<Card>, used: &Vec<usize>)
    requires
        removable(old(hand)@.len(), used@),
    ensures
        final(hand)@ == remove_all(old(hand)@, used@),
{
    let ghost h0 = hand@;
    let mut i: usize = 0;
    proof {
        assert(used@.skip(0) =~= used@);
    }
    while i < used.len()
        invariant
            i <= used@.len(),
            removable(h0.len(), used@),
            hand@.len() == h0.len() - i,
            remove_all(h0, used@) == remove_all(hand@, used@.skip(i as int)),
        decreases used.len() - i,
    {
        let j = used[i];
        proof {
            assert(used@[i as int] + i < h0.len());
            assert(used@.skip(i as int).drop_first() =~= used@.skip(i + 1));
            assert(used@.skip(i as int)[0] == j);
        }
        hand.remove(j);
        i += 1;
    }
    proof {
        assert(used@.skip(used@.len() as int) =~= Seq::<usize>::empty());
    }
}

/// Whether every basis that a field basis holds or has recorded is well formed.
pub open spec fn field_wf(m: FieldModel) -> bool {
    &&& (m.basis matches Some(b) ==> b.wf())
    &&& forall|k: i32| #[trigger] m.history.contains_key(k) ==> m.history[k].wf()
}

/// An empty field slot.
pub open spec fn empty_field() -> FieldModel {
    FieldModel { basis: None, index: 0, history: Map::empty() }
}

/// Whether the card moves a field basis down (derivative, nabla), two down (laplacian)
/// or up (integral).
pub open spec fn moves_down(card: Card) -> bool {
    card == Card::DerivativeCard(DerivativeCard::Derivative) || card == Card::DerivativeCard(
        DerivativeCard::Nabla,
    )
}

/// Whether the card is the laplacian.
pub open spec fn is_laplacian(card: Card) -> bool {
    card == Card::DerivativeCard(DerivativeCard::Laplacian)
}

/// Whether the card is the integral.
pub open spec fn moves_up(card: Card) -> bool {
    card == Card::DerivativeCard(DerivativeCard::Integral)
}

/// Whether the step that the card leads to is recorded.
pub open spec fn recorded(m: FieldModel, card: Card) -> bool {
    match card_step(m.index, card) {
        Some(i) => m.history.contains_key(i),
        None => false,
    }
}

/// A move to steps already recorded: one down for a derivative or nabla, two down for
/// the laplacian, one up for the integral.
#[verifier::opaque]
pub open spec fn recorded_move(m: FieldModel, card: Card) -> FieldModel {
    let m1 = if moves_down(card) || is_laplacian(card) {
        derive_step(m, None)
    } else if moves_up(card) {
        integrate_step(m, None)
    } else {
        m
    };
    if is_laplacian(card) {
        derive_step(m1, None)
    } else {
        m1
    }
}

/// A move by applying the card to the basis `b`: a zero result empties the slot, any
/// other is recorded at the new step (the laplacian applies the derivative a second time,
/// and a zero second derivative empties the slot).
#[verifier::opaque]
pub open spec fn applied_move(m: FieldModel, card: Card, b: SpecBasis) -> FieldModel {
    let r = apply_spec(card, b);
    if r.is_num(0) {
        empty_field()
    } else {
        let m1 = if moves_down(card) || is_laplacian(card) {
            derive_step(m, Some(r))
        } else if moves_up(card) {
            integrate_step(m, Some(r))
        } else {
            m
        };
        if is_laplacian(card) {
            let r2 = apply_spec(card, r);
            if r2.is_num(0) {
                empty_field()
            } else {
                derive_step(m1, Some(r2))
            }
        } else {
            m1
        }
    }
}

/// A derivative card played on a field basis: nothing on an empty slot; a step already
/// recorded is moved to (see `recorded_move`); otherwise the card is applied (see
/// `applied_move`).
pub open spec fn derivative_card_spec(m: FieldModel, card: Card) -> FieldModel {
    match m.basis {
        None => m,
        Some(b) => if recorded(m, card) {
            recorded_move(m, card)
        } else {
            applied_move(m, card, b)
        },
    }
}

/// Whether a derivative card can be played on a field basis: the basis is well formed;
/// a recorded step down is only moved to where the steps on the way are recorded; a
/// card applied must be defined on the basis (and the laplacian's second derivative on
/// the first).
#[verifier::opaque]
pub open spec fn derivative_card_ok(m: FieldModel, card: Card) -> bool {
    &&& field_wf(m)
    &&& match m.basis {
        None => true,
        Some(b) => {
            &&& card is DerivativeCard
            &&& if recorded(m, card) {
                (moves_down(card) || is_laplacian(card)) ==> m.history.contains_key(
                    wrap32(m.index - 1),
                )
            } else {
                &&& card_applies(card, b)
                &&& (is_laplacian(card) && !apply_spec(card, b).is_num(0)) ==> card_applies(
                    card,
                    apply_spec(card, b),
                )
            }
        },
    }
}

/// A field basis holding `b` at step 0 and nothing else.
pub open spec fn fresh_field(b: SpecBasis) -> FieldModel {
    FieldModel { basis: Some(b), index: 0, history: map![0i32 => b] }
}

/// A single-basis operator card played on a field basis: nothing on an empty slot; a
/// zero result empties the slot; any other result starts a new field basis.
pub open spec fn operator_card_spec(m: FieldModel, card: Card) -> FieldModel {
    match m.basis {
        None => m,
        Some(b) => if apply_spec(card, b).is_num(0) {
            empty_field()
        } else {
            fresh_field(apply_spec(card, b))
        },
    }
}

/// Whether a single-basis operator card can be played on a field basis: on an empty
/// slot always, else where the card applies to its basis.
pub open spec fn operator_card_ok(m: FieldModel, card: Card) -> bool {
    m.basis matches Some(b) ==> card_applies(card, b)
}

impl FieldBasis {
    /// Plays a derivative card on this field basis (see `derivative_card_spec`).
    pub fn play_derivative_card(&mut self, card: &Card)
        requires
            derivative_card_ok(old(self)@, *card),
        ensures
            final(self)@ == derivative_card_spec(old(self)@, *card),
            field_wf(final(self)@),
    {
        let basis = match &self.basis {
            Some(b) => b.deep_clone(),
            None => {
                proof {
                    reveal(derivative_card_ok);
                }
                return;
            },
        };
        // shortcut if already in history
        if self.has_value(card) {
            self.move_recorded(card);
        } else {
            proof {
                reveal(derivative_card_ok);
            }
            let result = apply_card(card, &basis);
            let second = if matches!(card, Card::DerivativeCard(DerivativeCard::Laplacian)) && !result.is_num(0) {
                Some(apply_card(card, &result))
            } else {
                None
            };
            self.move_applied(card, &basis, result, second);
        }
    }

    /// Moves to the steps that the card leads to, already recorded.
    fn move_recorded(&mut self, card: &Card)
        requires
            old(self)@.basis is Some,
            derivative_card_ok(old(self)@, *card),
            recorded(old(self)@, *card),
        ensures
            final(self)@ == recorded_move(old(self)@, *card),
            field_wf(final(self)@),
    {
        let ghost m = self@;
        proof {
            reveal(recorded_move);
            reveal(derivative_card_ok);
        }
        let is_laplacian = matches!(card, Card::DerivativeCard(DerivativeCard::Laplacian));
        let is_integral = matches!(card, Card::DerivativeCard(DerivativeCard::Integral));
        let is_derivative = matches!(
            card,
            Card::DerivativeCard(DerivativeCard::Derivative) | Card::DerivativeCard(DerivativeCard::Nabla)
        );
        if is_derivative || is_laplacian {
            self.derivative(None);
            proof {
                lemma_derive_keeps_wf(m, None);
            }
        } else if is_integral {
            self.integral(None);
            proof {
                lemma_integrate_keeps_wf(m, None);
            }
        }
        if is_laplacian {
            let ghost s1 = self@;
            proof {
                let x: i32 = m.index;
                assert(((((x - 1) as i32) - 1) as i32) == ((x - 2) as i32)) by (bit_vector);
                assert(s1.history.contains_key(wrap32(s1.index - 1)));
            }
            self.derivative(None);
            proof {
                lemma_derive_keeps_wf(s1, None);
            }
        }
    }

    /// Records the results of the card applied to `basis`, the current basis: `result`,
    /// and for the laplacian `second`, the card applied to `result` where that is not 0.
    fn move_applied(&mut self, card: &Card, basis: &Basis, result: Basis, second: Option<Basis>)
        requires
            old(self)@.basis == Some(basis@),
            derivative_card_ok(old(self)@, *card),
            !recorded(old(self)@, *card),
            result@ == apply_spec(*card, basis@),
            result@.wf(),
            second is Some <==> (is_laplacian(*card) && !result@.is_num(0)),
            second matches Some(x) ==> x@ == apply_spec(*card, result@) && x@.wf(),
        ensures
            final(self)@ == applied_move(old(self)@, *card, basis@),
            field_wf(final(self)@),
    {
        let ghost m = self@;
        proof {
            reveal(applied_move);
            reveal(derivative_card_ok);
        }
        let is_laplacian = matches!(card, Card::DerivativeCard(DerivativeCard::Laplacian));
        let is_integral = matches!(card, Card::DerivativeCard(DerivativeCard::Integral));
        let is_derivative = matches!(
            card,
            Card::DerivativeCard(DerivativeCard::Derivative) | Card::DerivativeCard(DerivativeCard::Nabla)
        );
        if result.is_num(0) {
            *self = FieldBasis::none();
            return;
        }
        if is_derivative || is_laplacian {
            self.derivative(Some(&result));
            proof {
                lemma_derive_keeps_wf(m, Some(result@));
            }
        } else if is_integral {
            self.integral(Some(&result));
            proof {
                lemma_integrate_keeps_wf(m, Some(result@));
            }
        }
        if let Some(second_derivative) = second {
            if second_derivative.is_num(0) {
                *self = FieldBasis::none();
                return;
            }
            let ghost s1 = self@;
            self.derivative(Some(&second_derivative));
            proof {
                lemma_derive_keeps_wf(s1, Some(second_derivative@));
            }
        }
    }

    /// Whether a derivative card can be played on this field basis (see
    /// `derivative_card_ok`).
    pub fn can_play_derivative_card(&self, card: &Card) -> (r: bool)
        requires
            field_wf(self@),
            *card is DerivativeCard,
        ensures
            r == derivative_card_ok(self@, *card),
    {
        proof {
            reveal(derivative_card_ok);
        }
        let basis = match &self.basis {
            Some(b) => b,
            None => {
                return true;
            },
        };
        if self.has_value(card) {
            let moves = matches!(
                card,
                Card::DerivativeCard(DerivativeCard::Derivative) | Card::DerivativeCard(DerivativeCard::Nabla) | Card::DerivativeCard(DerivativeCard::Laplacian)
            );
            return !moves || self.has_value(&Card::DerivativeCard(DerivativeCard::Derivative));
        }
        let result = match try_apply_card(card, basis) {
            Some(r) => r,
            None => {
                return false;
            },
        };
        if matches!(card, Card::DerivativeCard(DerivativeCard::Laplacian)) && !result.is_num(0) {
            return try_apply_card(card, &result).is_some();
        }
        true
    }

    /// Plays a derivative card on this field basis where it can be played (see
    /// `derivative_card_ok`); returns whether it could, and leaves the field basis as it
    /// was where it could not.
    pub fn try_play_derivative_card(&mut self, card: &Card) -> (ok: bool)
        requires
            field_wf(old(self)@),
            *card is DerivativeCard,
        ensures
            ok == derivative_card_ok(old(self)@, *card),
            ok ==> final(self)@ == derivative_card_spec(old(self)@, *card),
            !ok ==> final(self)@ == old(self)@,
            field_wf(final(self)@),
    {
        proof {
            reveal(derivative_card_ok);
        }
        let basis = match &self.basis {
            Some(b) => b.deep_clone(),
            None => {
                return true;
            },
        };
        if self.has_value(card) {
            let moves = matches!(
                card,
                Card::DerivativeCard(DerivativeCard::Derivative) | Card::DerivativeCard(DerivativeCard::Nabla) | Card::DerivativeCard(DerivativeCard::Laplacian)
            );
            if moves && !self.has_value(&Card::DerivativeCard(DerivativeCard::Derivative)) {
                return false;
            }
            self.move_recorded(card);
            return true;
        }
        let result = match try_apply_card(card, &basis) {
            Some(r) => r,
            None => {
                return false;
            },
        };
        let is_laplacian = matches!(card, Card::DerivativeCard(DerivativeCard::Laplacian));
        let second = if is_laplacian && !result.is_num(0) {
            match try_apply_card(card, &result) {
                Some(r) => Some(r),
                None => {
                    return false;
                },
            }
        } else {
            None
        };
        self.move_applied(card, &basis, result, second);
        true
    }

    /// Plays a single-basis operator card on this field basis (see
    /// `operator_card_spec`).
    pub fn play_operator_card(&mut self, card: &Card)
        requires
            old(self)@.basis matches Some(b) ==> b.wf() && card_applies(*card, b),
        ensures
            final(self)@ == operator_card_spec(old(self)@, *card),
    {
        let basis = match &self.basis {
            Some(b) => b.deep_clone(),
            None => {
                return;
            },
        };
        let result_basis = apply_card(card, &basis);
        if result_basis.is_num(0) {
            *self = FieldBasis::none();
        } else {
            *self = FieldBasis::new(&result_basis);
        }
    }

    /// Plays a single-basis operator card on this field basis where the card applies to
    /// its basis; returns whether it does, and leaves the field basis as it was where it
    /// does not.
    pub fn try_play_operator_card(&mut self, card: &Card) -> (ok: bool)
        requires
            field_wf(old(self)@),
        ensures
            ok == operator_card_ok(old(self)@, *card),
            ok ==> final(self)@ == operator_card_spec(old(self)@, *card),
            !ok ==> final(self)@ == old(self)@,
            field_wf(final(self)@),
    {
        let basis = match &self.basis {
            Some(b) => b.deep_clone(),
            None => {
                return true;
            },
        };
        match try_apply_card(card, &basis) {
            Some(result_basis) => {
                if result_basis.is_num(0) {
                    *self = FieldBasis::none();
                } else {
                    *self = FieldBasis::new(&result_basis);
                }
                true
            },
            None => false,
        }
    }
}

/// A step down keeps every basis of a field basis well formed, when the basis recorded
/// is well formed or the step already holds one.
proof fn lemma_derive_keeps_wf(m: FieldModel, b: Option<SpecBasis>)
    requires
        field_wf(m),
        b matches Some(x) ==> x.wf(),
        b is None ==> m.history.contains_key(wrap32(m.index - 1)),
    ensures
        field_wf(derive_step(m, b)),
{
    let s = derive_step(m, b);
    assert(s.history.contains_key(s.index));
    assert forall|k: i32| #[trigger] s.history.contains_key(k) implies s.history[k].wf() by {
        if k != s.index {
            assert(m.history.contains_key(k));
        }
    }
}

/// A step up keeps every basis of a field basis well formed, as `lemma_derive_keeps_wf`.
proof fn lemma_integrate_keeps_wf(m: FieldModel, b: Option<SpecBasis>)
    requires
        field_wf(m),
        b matches Some(x) ==> x.wf(),
        b is None ==> m.history.contains_key(wrap32(m.index + 1)),
    ensures
        field_wf(integrate_step(m, b)),
{
    let s = integrate_step(m, b);
    assert(s.history.contains_key(s.index));
    assert forall|k: i32| #[trigger] s.history.contains_key(k) implies s.history[k].wf() by {
        if k != s.index {
            assert(m.history.contains_key(k));
        }
    }
}

} // verus!
