use crate::basis::structs::{all_wf, card_basis, lemma_models, models, Basis, SpecBasis};
use crate::cards::{
    apply_multi_spec, multi_card_applies, try_apply_multi_card, AlgebraicCard, BasisCard, Card,
};
use crate::game::field::{FieldBasis, FieldModel};
use crate::game::selection::Selection;
use crate::game::structs::{all_basis, deal_new_game, GameState, Turn, TurnPhase, MAX_DEALS};
use crate::game::turn::{
    derivative_card_ok, derivative_card_spec, draw_count, empty_field, field_wf, fresh_field, idle_phase_spec,
    idle_turn_phase, next_turn, operator_card_ok, operator_card_spec, next_turn_spec, player_of, refill_hand, refill_spec,
    remove_all, remove_used, removable,
};
use vstd::multiset::Multiset;
use vstd::prelude::*;

verus! {

/// What a table holds: the state of the menus, the turn, the six slots of the field
/// (three for each player), the two hands, the deck, the discarded cards and what the
/// player has selected this turn.
pub struct TableModel {
    pub state: GameState,
    pub turn: Turn,
    pub field: Seq<FieldModel>,
    pub player_1: Seq<Card>,
    pub player_2: Seq<Card>,
    pub deck: Seq<Card>,
    pub graveyard: Seq<Card>,
    pub selected: Seq<Selection>,
}

/// The whole table of a game.
pub struct Table {
    state: GameState,
    turn: Turn,
    field: Vec<FieldBasis>,
    player_1: Vec<Card>,
    player_2: Vec<Card>,
    deck: Vec<Card>,
    graveyard: Vec<Card>,
    selected: Vec<Selection>,
    deals: Ghost<nat>,
}

/// The field bases' models.
pub open spec fn field_models(v: Seq<FieldBasis>) -> Seq<FieldModel> {
    v.map_values(|f: FieldBasis| f@)
}

impl View for Table {
    type V = TableModel;

    closed spec fn view(&self) -> TableModel {
        TableModel {
            state: self.state,
            turn: self.turn,
            field: field_models(self.field@),
            player_1: self.player_1@,
            player_2: self.player_2@,
            deck: self.deck@,
            graveyard: self.graveyard@,
            selected: self.selected@,
        }
    }
}

/// Whether a table is well formed: six field slots, each well formed, hands of at most
/// seven cards, and a phase that selects a half of the field only for a derivative card.
pub open spec fn table_wf(m: TableModel) -> bool {
    &&& m.field.len() == 6
    &&& m.player_1.len() <= 7
    &&& m.player_2.len() <= 7
    &&& forall|i: int| 0 <= i < 6 ==> field_wf(#[trigger] m.field[i])
    &&& (m.turn.phase matches TurnPhase::FIELD_SELECT(c) ==> c is DerivativeCard)
}

/// The starting field: 1, x and x² on each player's half.
pub open spec fn starting_field() -> Seq<FieldModel> {
    let half = seq![
        fresh_field(card_basis(BasisCard::One)),
        fresh_field(card_basis(BasisCard::X)),
        fresh_field(card_basis(BasisCard::X2)),
    ];
    half + half
}

/// The hand of the player whose turn it is.
pub open spec fn current_hand(m: TableModel) -> Seq<Card> {
    if player_of(m.turn.number) == 1 {
        m.player_1
    } else {
        m.player_2
    }
}

/// The positions in the hand of the hand cards selected, in the order selected.
pub open spec fn hand_positions(s: Seq<Selection>) -> Seq<usize>
    decreases s.len(),
{
    if s.len() == 0 {
        Seq::empty()
    } else {
        match s.last() {
            Selection::Hand(_, i) => hand_positions(s.drop_last()).push(i),
            _ => hand_positions(s.drop_last()),
        }
    }
}

/// `x` inserted into `s`, which is in decreasing order, before the first position that
/// does not exceed it.
pub open spec fn insert_desc(s: Seq<usize>, x: usize) -> Seq<usize>
    decreases s.len(),
{
    if s.len() == 0 {
        seq![x]
    } else if x >= s[0] {
        seq![x] + s
    } else {
        seq![s[0]] + insert_desc(s.drop_first(), x)
    }
}

/// `s` sorted in decreasing order.
pub open spec fn sort_desc(s: Seq<usize>) -> Seq<usize>
    decreases s.len(),
{
    if s.len() == 0 {
        s
    } else {
        insert_desc(sort_desc(s.drop_last()), s.last())
    }
}

/// The end of a turn: the hand cards selected leave the hand, the highest position first
/// (a position past the end of the hand as it then is fails); the hand is refilled from
/// the deck (see `refill_spec`); the next turn starts with nothing selected. `None`
/// where it fails, or the turn counter is at its limit.
pub open spec fn end_turn_spec(m: TableModel) -> Option<TableModel> {
    let used = sort_desc(hand_positions(m.selected));
    let h = current_hand(m);
    if !removable(h.len(), used) || m.turn.number == u32::MAX {
        None
    } else {
        let (h2, d2) = refill_spec(remove_all(h, used), m.deck);
        let first = player_of(m.turn.number) == 1;
        Some(
            TableModel {
                state: m.state,
                turn: next_turn_spec(m.turn),
                field: m.field,
                player_1: if first {
                    h2
                } else {
                    m.player_1
                },
                player_2: if first {
                    m.player_2
                } else {
                    h2
                },
                deck: d2,
                graveyard: m.graveyard,
                selected: Seq::empty(),
            },
        )
    }
}

/// The table with the field `f`.
pub open spec fn with_field(m: TableModel, f: Seq<FieldModel>) -> TableModel {
    TableModel {
        state: m.state,
        turn: m.turn,
        field: f,
        player_1: m.player_1,
        player_2: m.player_2,
        deck: m.deck,
        graveyard: m.graveyard,
        selected: m.selected,
    }
}

/// The table in the phase `phase` of the same turn.
pub open spec fn with_phase(m: TableModel, phase: TurnPhase) -> TableModel {
    TableModel {
        state: m.state,
        turn: Turn { number: m.turn.number, phase },
        field: m.field,
        player_1: m.player_1,
        player_2: m.player_2,
        deck: m.deck,
        graveyard: m.graveyard,
        selected: m.selected,
    }
}

/// The table with the selection `s`.
pub open spec fn with_selected(m: TableModel, s: Seq<Selection>) -> TableModel {
    TableModel {
        state: m.state,
        turn: m.turn,
        field: m.field,
        player_1: m.player_1,
        player_2: m.player_2,
        deck: m.deck,
        graveyard: m.graveyard,
        selected: s,
    }
}

/// Whether some slot of the field is empty.
pub open spec fn has_empty_slot(f: Seq<FieldModel>) -> bool {
    exists|i: int| 0 <= i < f.len() && (#[trigger] f[i]).basis is None
}

/// A selection at the start of a turn: a card of the current player's hand is selected
/// and leads to the phase that `idle_phase_spec` gives (a basis card with no empty slot
/// leaves the phase as it is); a position past the end of the hand fails; anything else
/// does nothing.
pub open spec fn idle_spec(m: TableModel, sel: Selection) -> Option<TableModel> {
    match sel {
        Selection::Hand(q, i) => if q != player_of(m.turn.number) {
            Some(m)
        } else if i >= current_hand(m).len() {
            None
        } else {
            let m1 = with_selected(m, m.selected.push(sel));
            match idle_phase_spec(current_hand(m)[i as int], has_empty_slot(m.field)) {
                Some(phase) => Some(with_phase(m1, phase)),
                None => Some(m1),
            }
        },
        _ => Some(m),
    }
}

/// A slot chosen for a card played on one basis: a basis card other than 0 fills an
/// empty slot (a full slot or the 0 card do nothing); a derivative card is played on the
/// slot (see `derivative_card_spec`), failing where it cannot be; any other card is
/// applied to the slot's basis (see `operator_card_spec`), failing on an empty slot or
/// where it does not apply. Then the turn ends. A slot past the field fails; anything
/// but a slot does nothing.
pub open spec fn single_spec(m: TableModel, card: Card, sel: Selection) -> Option<TableModel> {
    match sel {
        Selection::Field(i) => if i >= m.field.len() {
            None
        } else {
            match card {
                Card::BasisCard(bc) => place_spec(m, bc, i),
                Card::DerivativeCard(_) => slot_derivative_spec(m, card, i),
                _ => slot_operator_spec(m, card, i),
            }
        },
        _ => Some(m),
    }
}

/// A basis card other than 0 put on the empty slot `i`, then the end of the turn; a full
/// slot or the 0 card do nothing.
pub open spec fn place_spec(m: TableModel, bc: BasisCard, i: usize) -> Option<TableModel> {
    if m.field[i as int].basis is None && bc != BasisCard::Zero {
        end_turn_spec(with_field(m, m.field.update(i as int, fresh_field(card_basis(bc)))))
    } else {
        Some(m)
    }
}

/// A derivative card played on slot `i` (see `derivative_card_spec`), then the end of
/// the turn; fails where the card cannot be played.
pub open spec fn slot_derivative_spec(m: TableModel, card: Card, i: usize) -> Option<TableModel> {
    let f = m.field[i as int];
    if derivative_card_ok(f, card) {
        end_turn_spec(with_field(m, m.field.update(i as int, derivative_card_spec(f, card))))
    } else {
        None
    }
}

/// A card applied to the basis of slot `i` (see `operator_card_spec`), then the end of
/// the turn; fails on an empty slot or where the card does not apply.
pub open spec fn slot_operator_spec(m: TableModel, card: Card, i: usize) -> Option<TableModel> {
    let f = m.field[i as int];
    if f.basis is Some && operator_card_ok(f, card) {
        end_turn_spec(with_field(m, m.field.update(i as int, operator_card_spec(f, card))))
    } else {
        None
    }
}

/// The first slot of the half of the field that slot `i` lies in.
pub open spec fn half_start(i: usize) -> int {
    if i < 3 {
        0
    } else {
        3
    }
}

/// A derivative card played on each slot of the half of the field that slot `i` lies
/// in (see `derivative_card_spec`), failing where it cannot be; then the turn ends.
pub open spec fn half_spec(m: TableModel, card: Card, i: usize) -> Option<TableModel> {
    let s = half_start(i);
    let f = m.field;
    if derivative_card_ok(f[s], card) && derivative_card_ok(f[s + 1], card)
        && derivative_card_ok(f[s + 2], card) {
        let f2 = f.update(s, derivative_card_spec(f[s], card)).update(
            s + 1,
            derivative_card_spec(f[s + 1], card),
        ).update(s + 2, derivative_card_spec(f[s + 2], card));
        end_turn_spec(with_field(m, f2))
    } else {
        None
    }
}

/// The positions of the field slots selected, in the order selected.
pub open spec fn field_positions(s: Seq<Selection>) -> Seq<usize>
    decreases s.len(),
{
    if s.len() == 0 {
        Seq::empty()
    } else {
        match s.last() {
            Selection::Field(i) => field_positions(s.drop_last()).push(i),
            _ => field_positions(s.drop_last()),
        }
    }
}

/// The bases selected for a product or quotient card, in the order selected: the basis
/// of each field slot, and the basis of each basis card of the current player's hand (the
/// operator card itself is passed over). `None` where a slot is past the field or empty,
/// or a selection is anything else.
pub open spec fn selected_bases(m: TableModel, s: Seq<Selection>) -> Option<Seq<SpecBasis>>
    decreases s.len(),
{
    if s.len() == 0 {
        Some(Seq::empty())
    } else {
        match selected_bases(m, s.drop_last()) {
            None => None,
            Some(bs) => match s.last() {
                Selection::Field(j) => if j < m.field.len() && m.field[j as int].basis is Some {
                    Some(bs.push(m.field[j as int].basis->0))
                } else {
                    None
                },
                Selection::Hand(q, j) => if q == player_of(m.turn.number) && j < current_hand(m).len() {
                    match current_hand(m)[j as int] {
                        Card::AlgebraicCard(_) => Some(bs),
                        Card::BasisCard(bc) => Some(bs.push(card_basis(bc))),
                        _ => None,
                    }
                } else {
                    None
                },
                _ => None,
            },
        }
    }
}

/// The field with the slots `used` emptied.
pub open spec fn clear_slots(f: Seq<FieldModel>, used: Seq<usize>) -> Seq<FieldModel>
    decreases used.len(),
{
    if used.len() == 0 {
        f
    } else {
        clear_slots(f, used.drop_last()).update(used.last() as int, empty_field())
    }
}

/// The confirmation of a product or quotient card: the card is applied to the selected
/// bases (see `apply_multi_spec`), the slots selected are emptied and the first of them
/// holds the result; then the turn ends. Fails where the bases cannot be had or the card
/// does not apply to them.
pub open spec fn confirm_spec(m: TableModel, card: Card) -> Option<TableModel> {
    match selected_bases(m, m.selected) {
        None => None,
        Some(bs) => if multi_card_applies(card, bs) {
            let used = field_positions(m.selected);
            let f = clear_slots(m.field, used).update(
                used[0] as int,
                fresh_field(apply_multi_spec(card, bs)),
            );
            end_turn_spec(with_field(m, f))
        } else {
            None
        },
    }
}

/// A selection while a product or quotient card is played: a field slot, or a basis card
/// of the current player's hand, is added to the selection (a position past the end of
/// the hand fails); button 1 with a field slot selected confirms (see `confirm_spec`).
pub open spec fn multi_spec(m: TableModel, card: Card, sel: Selection) -> Option<TableModel> {
    let p = player_of(m.turn.number);
    let h = current_hand(m);
    if sel matches Selection::Hand(q, i) && q == p && i >= h.len() {
        None
    } else {
        let adds = match sel {
            Selection::Field(_) => true,
            Selection::Hand(q, i) => q == p && h[i as int] is BasisCard,
            _ => false,
        };
        let m1 = if adds {
            with_selected(m, m.selected.push(sel))
        } else {
            m
        };
        if sel == Selection::Button(1) && field_positions(m1.selected).len() > 0 {
            confirm_spec(m1, card)
        } else {
            Some(m1)
        }
    }
}

/// What a selection of the current player does to the table: button 0 cancels the card
/// being played (nothing selected, back to the start of the turn); otherwise the phase of
/// the turn decides (see `idle_spec`, `single_spec`, `half_spec`, `multi_spec`; while a
/// half of the field is chosen, only a field slot does anything). `None` where the play
/// fails.
pub open spec fn select_spec(m: TableModel, sel: Selection) -> Option<TableModel> {
    if sel == Selection::Button(0) {
        Some(with_phase(with_selected(m, Seq::empty()), TurnPhase::IDLE))
    } else {
        match m.turn.phase {
            TurnPhase::IDLE => idle_spec(m, sel),
            TurnPhase::SELECT(card) => single_spec(m, card, sel),
            TurnPhase::FIELD_SELECT(card) => match sel {
                Selection::Field(i) => half_spec(m, card, i),
                _ => Some(m),
            },
            TurnPhase::MULTISELECT(card) => multi_spec(m, card, sel),
        }
    }
}

/// Setting a slot of the field sets that slot of its models.
proof fn lemma_models_update(v: Seq<FieldBasis>, i: int, x: FieldBasis)
    requires
        0 <= i < v.len(),
    ensures
        field_models(v.update(i, x)) == field_models(v).update(i, x@),
{
    assert(field_models(v.update(i, x)) =~= field_models(v).update(i, x@));
}

/// Where a prefix of the selection gives no bases, the whole selection gives none.
proof fn lemma_bases_prefix(m: TableModel, s: Seq<Selection>, k: int)
    requires
        0 <= k <= s.len(),
        selected_bases(m, s.take(k)) is None,
    ensures
        selected_bases(m, s) is None,
    decreases s.len(),
{
    if k == s.len() {
        assert(s.take(k) =~= s);
    } else {
        assert(s.drop_last().take(k) =~= s.take(k));
        lemma_bases_prefix(m, s.drop_last(), k);
    }
}

/// Where a prefix of the selection holds a field slot, the whole selection does.
proof fn lemma_positions_prefix(s: Seq<Selection>, k: int)
    requires
        0 <= k <= s.len(),
        field_positions(s.take(k)).len() > 0,
    ensures
        field_positions(s).len() > 0,
    decreases s.len(),
{
    if k == s.len() {
        assert(s.take(k) =~= s);
    } else {
        assert(s.drop_last().take(k) =~= s.take(k));
        lemma_positions_prefix(s.drop_last(), k);
    }
}

/// Removing cards at positions that can be removed one after the other takes one card
/// per position.
proof fn lemma_remove_all_len(h: Seq<Card>, used: Seq<usize>)
    requires
        removable(h.len(), used),
    ensures
        remove_all(h, used).len() == h.len() - used.len(),
    decreases used.len(),
{
    if used.len() > 0 {
        let rest = used.drop_first();
        assert(used[0] + 0 < h.len());
        assert forall|k: int| 0 <= k < rest.len() implies (#[trigger] rest[k]) + k < h.len() - 1 by {
            assert(rest[k] == used[k + 1]);
        }
        lemma_remove_all_len(h.remove(used[0] as int), rest);
    }
}

/// The cards still in play: those of the deck and of the two hands.
pub open spec fn cards_in_play(m: TableModel) -> Multiset<Card> {
    m.deck.to_multiset().add(m.player_1.to_multiset()).add(m.player_2.to_multiset())
}

/// Removing cards from a hand only takes cards of the hand.
proof fn lemma_remove_all_subset(h: Seq<Card>, used: Seq<usize>)
    requires
        removable(h.len(), used),
    ensures
        remove_all(h, used).to_multiset().subset_of(h.to_multiset()),
    decreases used.len(),
{
    broadcast use vstd::seq_lib::to_multiset_remove;

    if used.len() > 0 {
        let rest = used.drop_first();
        let h1 = h.remove(used[0] as int);
        assert(used[0] + 0 < h.len());
        assert forall|k: int| 0 <= k < rest.len() implies (#[trigger] rest[k]) + k < h1.len() by {
            assert(rest[k] == used[k + 1]);
        }
        lemma_remove_all_subset(h1, rest);
        assert(h1.to_multiset() == h.to_multiset().remove(h[used[0] as int]));
        assert(h1.to_multiset().subset_of(h.to_multiset()));
    } else {
        assert(remove_all(h, used) == h);
    }
}

/// Refilling a hand moves cards from the deck to the hand, and no card is lost or added.
proof fn lemma_refill_keeps_cards(h: Seq<Card>, d: Seq<Card>)
    ensures
        refill_spec(h, d).0.to_multiset().add(refill_spec(h, d).1.to_multiset()) == h.to_multiset().add(
            d.to_multiset(),
        ),
{
    broadcast use vstd::seq_lib::lemma_multiset_commutative;

    let k = draw_count(h.len(), d.len());
    let split = d.len() - k;
    let tail = d.subrange(split, d.len() as int);
    let head = d.subrange(0, split);
    assert(d =~= head + tail);
    tail.lemma_reverse_to_multiset();
    assert(refill_spec(h, d).0 == h + tail.reverse());
}

/// The end of a turn adds no card to those in play: the cards used leave, and the cards
/// drawn only move from the deck to the hand.
pub proof fn lemma_end_turn_creates_no_card(m: TableModel)
    requires
        end_turn_spec(m) is Some,
    ensures
        cards_in_play(end_turn_spec(m)->0).subset_of(cards_in_play(m)),
{
    let used = sort_desc(hand_positions(m.selected));
    let h = current_hand(m);
    let h1 = remove_all(h, used);
    lemma_remove_all_subset(h, used);
    lemma_refill_keeps_cards(h1, m.deck);
    let e = end_turn_spec(m)->0;
    if player_of(m.turn.number) == 1 {
        assert(e.player_1 == refill_spec(h1, m.deck).0);
        assert(e.deck == refill_spec(h1, m.deck).1);
    } else {
        assert(e.player_2 == refill_spec(h1, m.deck).0);
        assert(e.deck == refill_spec(h1, m.deck).1);
    }
    let (h2, d2) = refill_spec(h1, m.deck);
    assert forall|c: Card| #[trigger] cards_in_play(e).count(c) <= cards_in_play(m).count(c) by {
        broadcast use vstd::multiset::group_multiset_axioms;

        assert(h1.to_multiset().count(c) <= h.to_multiset().count(c));
        assert(h2.to_multiset().add(d2.to_multiset()) == h1.to_multiset().add(m.deck.to_multiset()));
        assert(h2.to_multiset().add(d2.to_multiset()).count(c) == h1.to_multiset().add(
            m.deck.to_multiset(),
        ).count(c));
    }
}

/// No selection adds a card to those in play: the deck and the hands hold no card that
/// they did not hold before.
pub proof fn lemma_no_card_created(m: TableModel, sel: Selection)
    requires
        select_spec(m, sel) is Some,
    ensures
        cards_in_play(select_spec(m, sel)->0).subset_of(cards_in_play(m)),
{
    let r = select_spec(m, sel)->0;
    if cards_in_play(r) != cards_in_play(m) {
        // the play ended the turn, from a table with the same cards as `m`
        let m1 = choose|m1: TableModel| cards_in_play(m1) == cards_in_play(m) && end_turn_spec(m1) == Some(r);
        lemma_end_turn_reached(m, sel);
        lemma_end_turn_creates_no_card(m1);
    }
}

/// A selection either keeps the cards in play, or ends the turn from a table with the
/// same cards in play.
proof fn lemma_end_turn_reached(m: TableModel, sel: Selection)
    requires
        select_spec(m, sel) is Some,
    ensures
        ({
            let r = select_spec(m, sel)->0;
            ||| cards_in_play(r) == cards_in_play(m)
            ||| exists|m1: TableModel| cards_in_play(m1) == cards_in_play(m) && end_turn_spec(m1) == Some(r)
        }),
{
    let r = select_spec(m, sel)->0;
    if sel != Selection::Button(0) {
        match m.turn.phase {
            TurnPhase::IDLE => {},
            TurnPhase::SELECT(card) => {
                if let Selection::Field(i) = sel {
                    let f = m.field[i as int];
                    match card {
                        Card::BasisCard(bc) => if f.basis is None && bc != BasisCard::Zero {
                            let m1 = with_field(m, m.field.update(i as int, fresh_field(card_basis(bc))));
                            assert(cards_in_play(m1) == cards_in_play(m));
                        },
                        Card::DerivativeCard(_) => {
                            let m1 = with_field(m, m.field.update(i as int, derivative_card_spec(f, card)));
                            assert(cards_in_play(m1) == cards_in_play(m));
                        },
                        _ => {
                            let m1 = with_field(m, m.field.update(i as int, operator_card_spec(f, card)));
                            assert(cards_in_play(m1) == cards_in_play(m));
                        },
                    }
                }
            },
            TurnPhase::FIELD_SELECT(card) => {
                if let Selection::Field(i) = sel {
                    let s = half_start(i);
                    let f = m.field;
                    let f2 = f.update(s, derivative_card_spec(f[s], card)).update(
                        s + 1,
                        derivative_card_spec(f[s + 1], card),
                    ).update(s + 2, derivative_card_spec(f[s + 2], card));
                    let m1 = with_field(m, f2);
                    assert(cards_in_play(m1) == cards_in_play(m));
                }
            },
            TurnPhase::MULTISELECT(card) => {
                let p = player_of(m.turn.number);
                let h = current_hand(m);
                let adds = match sel {
                    Selection::Field(_) => true,
                    Selection::Hand(q, i) => q == p && h[i as int] is BasisCard,
                    _ => false,
                };
                let m1 = if adds {
                    with_selected(m, m.selected.push(sel))
                } else {
                    m
                };
                assert(cards_in_play(m1) == cards_in_play(m));
                if sel == Selection::Button(1) && field_positions(m1.selected).len() > 0 {
                    let bs = selected_bases(m1, m1.selected)->0;
                    let used = field_positions(m1.selected);
                    let f = clear_slots(m1.field, used).update(
                        used[0] as int,
                        fresh_field(apply_multi_spec(card, bs)),
                    );
                    let m2 = with_field(m1, f);
                    assert(cards_in_play(m2) == cards_in_play(m));
                }
            },
        }
    }
}

/// Whether the turn can end does not depend on the field.
proof fn lemma_end_turn_ignores_field(m: TableModel, f: Seq<FieldModel>)
    ensures
        (end_turn_spec(with_field(m, f)) is Some) == (end_turn_spec(m) is Some),
{
}

/// Inserting after the positions whose values exceed `x` and before the rest is
/// `insert_desc`.
proof fn lemma_insert_desc(s: Seq<usize>, x: usize, p: int)
    requires
        0 <= p <= s.len(),
        forall|j: int| 0 <= j < p ==> x < #[trigger] s[j],
        p < s.len() ==> x >= s[p],
    ensures
        insert_desc(s, x) == s.take(p) + seq![x] + s.skip(p),
    decreases s.len(),
{
    if s.len() == 0 {
        assert(s.take(p) + seq![x] + s.skip(p) =~= seq![x]);
    } else if p == 0 {
        assert(s.take(p) + seq![x] + s.skip(p) =~= seq![x] + s);
    } else {
        let t = s.drop_first();
        assert forall|j: int| 0 <= j < p - 1 implies x < #[trigger] t[j] by {
            assert(t[j] == s[j + 1]);
        }
        lemma_insert_desc(t, x, p - 1);
        assert(s.take(p) + seq![x] + s.skip(p) =~= seq![s[0]] + (t.take(p - 1) + seq![x] + t.skip(p - 1)));
    }
}

/// The positions selected from the hand, in the order selected (see `hand_positions`).
fn hand_positions_exec(sel: &Vec<Selection>) -> (r: Vec<usize>)
    ensures
        r@ == hand_positions(sel@),
{
    let mut r: Vec<usize> = Vec::new();
    let mut i: usize = 0;
    while i < sel.len()
        invariant
            i <= sel@.len(),
            r@ == hand_positions(sel@.take(i as int)),
        decreases sel.len() - i,
    {
        proof {
            assert(sel@.take(i + 1).drop_last() =~= sel@.take(i as int));
        }
        match sel[i] {
            Selection::Hand(_, j) => r.push(j),
            _ => {},
        }
        i = i + 1;
    }
    proof {
        assert(sel@.take(sel@.len() as int) =~= sel@);
    }
    r
}

/// `s` sorted in decreasing order (see `sort_desc`).
fn sort_desc_exec(s: &Vec<usize>) -> (r: Vec<usize>)
    ensures
        r@ == sort_desc(s@),
{
    let mut r: Vec<usize> = Vec::new();
    let mut i: usize = 0;
    while i < s.len()
        invariant
            i <= s@.len(),
            r@ == sort_desc(s@.take(i as int)),
        decreases s.len() - i,
    {
        let x = s[i];
        let mut p: usize = 0;
        while p < r.len() && x < r[p]
            invariant
                p <= r@.len(),
                forall|j: int| 0 <= j < p ==> x < #[trigger] r@[j],
            decreases r.len() - p,
        {
            p = p + 1;
        }
        proof {
            lemma_insert_desc(r@, x, p as int);
            assert(s@.take(i + 1).drop_last() =~= s@.take(i as int));
            assert(s@.take(i + 1).last() == x);
        }
        r.insert(p, x);
        proof {
            assert(r@ =~= sort_desc(s@.take(i + 1)));
        }
        i = i + 1;
    }
    proof {
        assert(s@.take(s@.len() as int) =~= s@);
    }
    r
}

impl Table {
    /// How many times the starting hands were dealt again because both held nothing but
    /// basis cards.
    pub closed spec fn deals(&self) -> nat {
        self.deals@
    }

    /// Whether the table is well formed (see `table_wf`).
    pub open spec fn wf(&self) -> bool {
        table_wf(self@)
    }

    /// A new game: a shuffled deck, two hands of seven, the starting field, the first
    /// turn at its start and the menu shown.
    pub fn new() -> (r: Table)
        ensures
            r.wf(),
            r@.state == GameState::MENU,
            r@.turn == (Turn { number: 0, phase: TurnPhase::IDLE }),
            r@.field == starting_field(),
            r@.player_1.len() == 7,
            r@.player_2.len() == 7,
            (r@.deck + r@.player_2 + r@.player_1).to_multiset()
                == crate::game::structs::new_deck_spec().to_multiset(),
            r@.graveyard.len() == 0,
            r@.selected.len() == 0,
            r.deals() < MAX_DEALS ==> !(all_basis(r@.player_1) && all_basis(r@.player_2)),
    {
        let (deck, player_1, player_2, deals) = deal_new_game();
        let mut field: Vec<FieldBasis> = Vec::new();
        let mut k: usize = 0;
        while k < 2
            invariant
                k <= 2,
                field_models(field@) == starting_field().take(3 * k as int),
                forall|i: int| 0 <= i < field@.len() ==> field_wf(#[trigger] field_models(field@)[i]),
            decreases 2 - k,
        {
            let ghost before = field@;
            let one = Basis::from_card(BasisCard::One);
            let x = Basis::from_card(BasisCard::X);
            let x2 = Basis::from_card(BasisCard::X2);
            let f1 = FieldBasis::new(&one);
            let f2 = FieldBasis::new(&x);
            let f3 = FieldBasis::new(&x2);
            field.push(f1);
            field.push(f2);
            field.push(f3);
            proof {
                let half = seq![f1@, f2@, f3@];
                assert(field_models(field@) =~= field_models(before) + half);
                assert(starting_field().take(3 * (k + 1) as int) =~= starting_field().take(3 * k as int) + half);
                assert forall|i: int| 0 <= i < field@.len() implies field_wf(#[trigger] field_models(field@)[i]) by {
                    if i >= before.len() {
                        let f = half[i - before.len()];
                        assert(f.history.dom() =~= set![0i32]);
                    } else {
                        assert(field_models(field@)[i] == field_models(before)[i]);
                    }
                }
            }
            k = k + 1;
        }
        proof {
            assert(starting_field().take(6) =~= starting_field());
        }
        Table {
            state: GameState::MENU,
            turn: Turn { number: 0, phase: TurnPhase::IDLE },
            field,
            player_1,
            player_2,
            deck,
            graveyard: Vec::new(),
            selected: Vec::new(),
            deals: Ghost(deals as nat),
        }
    }

    /// Whether the turn can end (see `end_turn_spec`).
    fn end_turn_possible(&self) -> (r: bool)
        requires
            self.wf(),
        ensures
            r == end_turn_spec(self@) is Some,
    {
        let positions = hand_positions_exec(&self.selected);
        let used = sort_desc_exec(&positions);
        let len = self.current_hand().len();
        let mut k: usize = 0;
        while k < used.len()
            invariant
                k <= used@.len(),
                forall|j: int| 0 <= j < k ==> (#[trigger] used@[j]) + j < len,
                used@ == sort_desc(hand_positions(self@.selected)),
                len == current_hand(self@).len(),
            decreases used.len() - k,
        {
            if k >= len || used[k] >= len - k {
                proof {
                    assert(!removable(len as nat, used@)) by {
                        assert(used@[k as int] + k >= len);
                    }
                }
                return false;
            }
            k = k + 1;
        }
        self.turn.number != u32::MAX
    }

    /// Ends the turn (see `end_turn_spec`); returns whether it could, and leaves the
    /// table as it was where it could not.
    fn end_turn(&mut self) -> (ok: bool)
        requires
            old(self).wf(),
        ensures
            ok == end_turn_spec(old(self)@) is Some,
            ok ==> final(self)@ == end_turn_spec(old(self)@)->0,
            !ok ==> final(self)@ == old(self)@,
            final(self).wf(),
    {
        let positions = hand_positions_exec(&self.selected);
        let used = sort_desc_exec(&positions);
        let first = self.turn.number % 2 == 0;
        let len = if first {
            self.player_1.len()
        } else {
            self.player_2.len()
        };
        let mut k: usize = 0;
        while k < used.len()
            invariant
                k <= used@.len(),
                forall|j: int| 0 <= j < k ==> (#[trigger] used@[j]) + j < len,
                self@ == old(self)@,
                self.wf(),
                used@ == sort_desc(hand_positions(self@.selected)),
                len == current_hand(self@).len(),
            decreases used.len() - k,
        {
            if k >= len || used[k] >= len - k {
                proof {
                    assert(!removable(len as nat, used@)) by {
                        assert(used@[k as int] + k >= len);
                    }
                }
                return false;
            }
            k = k + 1;
        }
        if self.turn.number == u32::MAX {
            return false;
        }
        if first {
            remove_used(&mut self.player_1, &used);
            refill_hand(&mut self.player_1, &mut self.deck);
        } else {
            remove_used(&mut self.player_2, &used);
            refill_hand(&mut self.player_2, &mut self.deck);
        }
        self.turn = next_turn(&self.turn);
        self.selected = Vec::new();
        proof {
            assert(self@.selected =~= Seq::<Selection>::empty());
            lemma_remove_all_len(current_hand(old(self)@), used@);
        }
        true
    }

    /// Whether some slot of the field is empty.
    fn any_empty_slot(&self) -> (r: bool)
        ensures
            r == has_empty_slot(self@.field),
    {
        let mut i: usize = 0;
        while i < self.field.len()
            invariant
                i <= self.field@.len(),
                forall|j: int| 0 <= j < i ==> (#[trigger] self@.field[j]).basis is Some,
            decreases self.field.len() - i,
        {
            if self.field[i].basis.is_none() {
                proof {
                    assert(self@.field[i as int].basis is None);
                }
                return true;
            }
            i = i + 1;
        }
        false
    }

    /// The number of the player whose turn it is (see `player_of`).
    pub fn current_player_num(&self) -> (r: u32)
        ensures
            r == player_of(self@.turn.number),
    {
        self.turn.player_num()
    }

    /// The hand of the player whose turn it is.
    pub fn current_hand(&self) -> (r: &Vec<Card>)
        ensures
            r@ == current_hand(self@),
    {
        if self.turn.player_num() == 1 {
            &self.player_1
        } else {
            &self.player_2
        }
    }

    /// A selection at the start of a turn (see `idle_spec`).
    fn select_idle(&mut self, sel: Selection) -> (ok: bool)
        requires
            old(self).wf(),
            old(self)@.turn.phase is IDLE,
        ensures
            ok == idle_spec(old(self)@, sel) is Some,
            ok ==> final(self)@ == idle_spec(old(self)@, sel)->0,
            !ok ==> final(self)@ == old(self)@,
            final(self).wf(),
    {
        let (q, i) = match sel {
            Selection::Hand(q, i) => (q, i),
            _ => {
                return true;
            },
        };
        if q != self.turn.player_num() {
            return true;
        }
        let card = {
            let hand = self.current_hand();
            if i >= hand.len() {
                return false;
            }
            hand[i]
        };
        let has_empty = self.any_empty_slot();
        self.selected.push(sel);
        match idle_turn_phase(card, has_empty) {
            Some(phase) => {
                self.turn = Turn { number: self.turn.number, phase };
            },
            None => {},
        }
        true
    }

    /// A slot chosen for a card played on one basis (see `single_spec`).
    fn select_single(&mut self, card: Card, sel: Selection) -> (ok: bool)
        requires
            old(self).wf(),
        ensures
            ok == single_spec(old(self)@, card, sel) is Some,
            ok ==> final(self)@ == single_spec(old(self)@, card, sel)->0,
            !ok ==> final(self)@ == old(self)@,
            final(self).wf(),
    {
        let i = match sel {
            Selection::Field(i) => i,
            _ => {
                return true;
            },
        };
        if i >= self.field.len() {
            return false;
        }
        match card {
            Card::BasisCard(bc) => self.place(bc, i),
            Card::DerivativeCard(_) => self.slot_derivative(card, i),
            _ => self.slot_operator(card, i),
        }
    }

    /// A basis card put on a slot (see `place_spec`).
    fn place(&mut self, bc: BasisCard, i: usize) -> (ok: bool)
        requires
            old(self).wf(),
            i < 6,
        ensures
            ok == place_spec(old(self)@, bc, i) is Some,
            ok ==> final(self)@ == place_spec(old(self)@, bc, i)->0,
            !ok ==> final(self)@ == old(self)@,
            final(self).wf(),
    {
        let ghost m = self@;
        if self.field[i].basis.is_none() && bc != BasisCard::Zero {
            if !self.end_turn_possible() {
                proof {
                    lemma_end_turn_ignores_field(m, m.field.update(i as int, fresh_field(card_basis(bc))));
                }
                return false;
            }
            let b = Basis::from_card(bc);
            let fb = FieldBasis::new(&b);
            let ghost v = self.field@;
            self.field[i] = fb;
            proof {
                lemma_models_update(v, i as int, fb);
                assert(fb@.history.dom() =~= set![0i32]);
                assert(self@ == with_field(m, m.field.update(i as int, fresh_field(card_basis(bc)))));
            }
            return self.end_turn();
        }
        true
    }

    /// A derivative card played on a slot (see `slot_derivative_spec`).
    fn slot_derivative(&mut self, card: Card, i: usize) -> (ok: bool)
        requires
            old(self).wf(),
            i < 6,
            card is DerivativeCard,
        ensures
            ok == slot_derivative_spec(old(self)@, card, i) is Some,
            ok ==> final(self)@ == slot_derivative_spec(old(self)@, card, i)->0,
            !ok ==> final(self)@ == old(self)@,
            final(self).wf(),
    {
        let ghost m = self@;
        proof {
            assert(field_wf(m.field[i as int]));
        }
        if !self.end_turn_possible() {
            proof {
                lemma_end_turn_ignores_field(m, m.field.update(i as int, derivative_card_spec(m.field[i as int], card)));
            }
            return false;
        }
        let ghost v = self.field@;
        let played = self.field[i].try_play_derivative_card(&card);
        proof {
            lemma_models_update(v, i as int, self.field@[i as int]);
            assert(self.field@ == v.update(i as int, self.field@[i as int]));
        }
        if !played {
            proof {
                assert(field_models(self.field@) =~= field_models(v));
            }
            return false;
        }
        proof {
            assert(self@ == with_field(m, m.field.update(i as int, derivative_card_spec(m.field[i as int], card))));
        }
        self.end_turn()
    }

    /// A card applied to the basis of a slot (see `slot_operator_spec`).
    #[verifier::rlimit(40)]
    fn slot_operator(&mut self, card: Card, i: usize) -> (ok: bool)
        requires
            old(self).wf(),
            i < 6,
        ensures
            ok == slot_operator_spec(old(self)@, card, i) is Some,
            ok ==> final(self)@ == slot_operator_spec(old(self)@, card, i)->0,
            !ok ==> final(self)@ == old(self)@,
            final(self).wf(),
    {
        let ghost m = self@;
        proof {
            assert(field_wf(m.field[i as int]));
        }
        if self.field[i].basis.is_none() {
            return false;
        }
        if !self.end_turn_possible() {
            proof {
                lemma_end_turn_ignores_field(m, m.field.update(i as int, operator_card_spec(m.field[i as int], card)));
            }
            return false;
        }
        let ghost v = self.field@;
        let played = self.field[i].try_play_operator_card(&card);
        proof {
            lemma_models_update(v, i as int, self.field@[i as int]);
            assert(self.field@ == v.update(i as int, self.field@[i as int]));
        }
        if !played {
            proof {
                assert(field_models(self.field@) =~= field_models(v));
            }
            return false;
        }
        proof {
            assert(self@ == with_field(m, m.field.update(i as int, operator_card_spec(m.field[i as int], card))));
        }
        self.end_turn()
    }

    /// A derivative card played on a half of the field (see `half_spec`).
    #[verifier::rlimit(40)]
    fn select_half(&mut self, card: Card, i: usize) -> (ok: bool)
        requires
            old(self).wf(),
            card is DerivativeCard,
        ensures
            ok == half_spec(old(self)@, card, i) is Some,
            ok ==> final(self)@ == half_spec(old(self)@, card, i)->0,
            !ok ==> final(self)@ == old(self)@,
            final(self).wf(),
    {
        let ghost m = self@;
        let start: usize = if i < 3 {
            0
        } else {
            3
        };
        proof {
            assert(field_wf(m.field[start as int]));
            assert(field_wf(m.field[start + 1]));
            assert(field_wf(m.field[start + 2]));
            assert(self.field@[start + 1]@ == m.field[start + 1]);
            assert(self.field@[start + 2]@ == m.field[start + 2]);
        }
        let s0 = start + 1;
        let s1 = start + 2;
        if !self.field[start].can_play_derivative_card(&card) || !self.field[s0].can_play_derivative_card(&card)
            || !self.field[s1].can_play_derivative_card(&card) {
            return false;
        }
        if !self.end_turn_possible() {
            proof {
                let f = m.field;
                let s = start as int;
                lemma_end_turn_ignores_field(m, f.update(s, derivative_card_spec(f[s], card)).update(
                    s + 1,
                    derivative_card_spec(f[s + 1], card),
                ).update(s + 2, derivative_card_spec(f[s + 2], card)));
            }
            return false;
        }
        let ghost v0 = self.field@;
        let ok0 = self.field[start].try_play_derivative_card(&card);
        proof {
            lemma_models_update(v0, start as int, self.field@[start as int]);
            assert(self.field@ == v0.update(start as int, self.field@[start as int]));
        }
        if !ok0 {
            return false;
        }
        let ghost v1 = self.field@;
        let ok1 = self.field[start + 1].try_play_derivative_card(&card);
        proof {
            lemma_models_update(v1, start + 1, self.field@[start + 1]);
            assert(self.field@ == v1.update(start + 1, self.field@[start + 1]));
        }
        if !ok1 {
            return false;
        }
        let ghost v2 = self.field@;
        let ok2 = self.field[start + 2].try_play_derivative_card(&card);
        proof {
            lemma_models_update(v2, start + 2, self.field@[start + 2]);
            assert(self.field@ == v2.update(start + 2, self.field@[start + 2]));
        }
        if !ok2 {
            return false;
        }
        proof {
            let f = m.field;
            let s = start as int;
            let f2 = f.update(s, derivative_card_spec(f[s], card)).update(
                s + 1,
                derivative_card_spec(f[s + 1], card),
            ).update(s + 2, derivative_card_spec(f[s + 2], card));
            assert(self@.field =~= f2);
            assert(self@ == with_field(m, f2));
        }
        self.end_turn()
    }

    /// Whether a field slot is selected.
    fn any_field_selected(&self) -> (r: bool)
        ensures
            r == (field_positions(self@.selected).len() > 0),
    {
        let mut i: usize = 0;
        while i < self.selected.len()
            invariant
                i <= self.selected@.len(),
                field_positions(self@.selected.take(i as int)).len() == 0,
            decreases self.selected.len() - i,
        {
            proof {
                assert(self@.selected.take(i + 1).drop_last() =~= self@.selected.take(i as int));
            }
            if let Selection::Field(_) = self.selected[i] {
                proof {
                    lemma_positions_prefix(self@.selected, i + 1);
                }
                return true;
            }
            i = i + 1;
        }
        proof {
            assert(self@.selected.take(self@.selected.len() as int) =~= self@.selected);
        }
        false
    }

    /// A selection while a product or quotient card is played (see `multi_spec`).
    fn select_multi(&mut self, card: Card, sel: Selection) -> (ok: bool)
        requires
            old(self).wf(),
        ensures
            ok == multi_spec(old(self)@, card, sel) is Some,
            ok ==> final(self)@ == multi_spec(old(self)@, card, sel)->0,
            !ok ==> final(self)@ == old(self)@,
            final(self).wf(),
    {
        let p = self.turn.player_num();
        let adds = match sel {
            Selection::Field(_) => true,
            Selection::Hand(q, i) => {
                if q == p {
                    let hand = self.current_hand();
                    if i >= hand.len() {
                        return false;
                    }
                    matches!(hand[i], Card::BasisCard(_))
                } else {
                    false
                }
            },
            _ => false,
        };
        if adds {
            self.selected.push(sel);
        }
        if sel == Selection::Button(1) && self.any_field_selected() {
            return self.confirm(card);
        }
        true
    }

    /// The bases selected for a product or quotient card and the field slots selected
    /// (see `selected_bases`, `field_positions`).
    fn gather_bases(&self) -> (r: Option<(Vec<Basis>, Vec<usize>)>)
        requires
            self.wf(),
        ensures
            match selected_bases(self@, self@.selected) {
                None => r is None,
                Some(bs) => r matches Some((b, u)) && models(b@) == bs && all_wf(bs) && u@
                    == field_positions(self@.selected) && forall|j: int|
                    0 <= j < u@.len() ==> (#[trigger] u@[j]) < 6,
            },
    {
        let ghost m = self@;
        let p = self.turn.player_num();
        let mut bases: Vec<Basis> = Vec::new();
        let mut used: Vec<usize> = Vec::new();
        let mut k: usize = 0;
        while k < self.selected.len()
            invariant
                self@ == m,
                self.wf(),
                p == player_of(m.turn.number),
                k <= m.selected.len(),
                selected_bases(m, m.selected.take(k as int)) == Some(models(bases@)),
                used@ == field_positions(m.selected.take(k as int)),
                all_wf(models(bases@)),
                forall|j: int| 0 <= j < used@.len() ==> (#[trigger] used@[j]) < 6,
            decreases m.selected.len() - k,
        {
            let ghost t = m.selected.take(k + 1);
            proof {
                assert(t.drop_last() =~= m.selected.take(k as int));
                lemma_models(bases@);
            }
            match self.selected[k] {
                Selection::Field(j) => {
                    if j >= self.field.len() {
                        proof {
                            lemma_bases_prefix(m, m.selected, k + 1);
                        }
                        return None;
                    }
                    match &self.field[j].basis {
                        Some(b) => {
                            proof {
                                assert(field_wf(m.field[j as int]));
                            }
                            bases.push(b.deep_clone());
                            used.push(j);
                        },
                        None => {
                            proof {
                                lemma_bases_prefix(m, m.selected, k + 1);
                            }
                            return None;
                        },
                    }
                },
                Selection::Hand(q, j) => {
                    let hand = self.current_hand();
                    if q != p || j >= hand.len() {
                        proof {
                            lemma_bases_prefix(m, m.selected, k + 1);
                        }
                        return None;
                    }
                    match hand[j] {
                        Card::AlgebraicCard(_) => {},
                        Card::BasisCard(bc) => {
                            bases.push(Basis::from_card(bc));
                        },
                        _ => {
                            proof {
                                lemma_bases_prefix(m, m.selected, k + 1);
                            }
                            return None;
                        },
                    }
                },
                _ => {
                    proof {
                        lemma_bases_prefix(m, m.selected, k + 1);
                    }
                    return None;
                },
            }
            proof {
                lemma_models(bases@);
                assert(models(bases@) =~= selected_bases(m, t)->0);
            }
            k = k + 1;
        }
        proof {
            assert(m.selected.take(m.selected.len() as int) =~= m.selected);
        }
        Some((bases, used))
    }

    /// Empties the field slots `used`.
    fn clear_used(&mut self, used: &Vec<usize>)
        requires
            old(self).wf(),
            forall|j: int| 0 <= j < used@.len() ==> (#[trigger] used@[j]) < 6,
        ensures
            final(self)@ == with_field(old(self)@, clear_slots(old(self)@.field, used@)),
            final(self).wf(),
    {
        let ghost m = self@;
        let mut t: usize = 0;
        while t < used.len()
            invariant
                t <= used@.len(),
                forall|j: int| 0 <= j < used@.len() ==> (#[trigger] used@[j]) < 6,
                self@ == with_field(m, clear_slots(m.field, used@.take(t as int))),
                self.wf(),
            decreases used.len() - t,
        {
            let ghost v = self.field@;
            let j = used[t];
            let none = FieldBasis::none();
            self.field[j] = none;
            proof {
                lemma_models_update(v, j as int, none);
                assert(used@.take(t + 1).drop_last() =~= used@.take(t as int));
                assert(none@.history.dom() =~= Set::<i32>::empty());
            }
            t = t + 1;
        }
        proof {
            assert(used@.take(used@.len() as int) =~= used@);
        }
    }

    /// The confirmation of a product or quotient card (see `confirm_spec`).
    fn confirm(&mut self, card: Card) -> (ok: bool)
        requires
            old(self).wf(),
            field_positions(old(self)@.selected).len() > 0,
        ensures
            ok == confirm_spec(old(self)@, card) is Some,
            ok ==> final(self)@ == confirm_spec(old(self)@, card)->0,
            !ok ==> final(self)@ == old(self)@,
            final(self).wf(),
    {
        let ghost m = self@;
        let (bases, used) = match self.gather_bases() {
            Some(g) => g,
            None => {
                return false;
            },
        };
        let ghost bs = models(bases@);
        let result = match try_apply_multi_card(&card, bases) {
            Some(r) => r,
            None => {
                return false;
            },
        };
        if !self.end_turn_possible() {
            proof {
                lemma_end_turn_ignores_field(m, clear_slots(m.field, used@).update(used@[0] as int, fresh_field(apply_multi_spec(card, bs))));
            }
            return false;
        }
        self.clear_used(&used);
        let ghost v = self.field@;
        let fresh = FieldBasis::new(&result);
        self.field[used[0]] = fresh;
        proof {
            lemma_models_update(v, used@[0] as int, fresh);
            assert(fresh@.history.dom() =~= set![0i32]);
            assert(self@ == with_field(m, clear_slots(m.field, used@).update(used@[0] as int, fresh_field(apply_multi_spec(card, bs)))));
        }
        self.end_turn()
    }

    /// Handles one selection of the current player (see `select_spec`); returns whether
    /// the play could be made. Where it could not, the table is left as it was.
    pub fn select(&mut self, sel: Selection) -> (ok: bool)
        requires
            old(self).wf(),
        ensures
            ok == select_spec(old(self)@, sel) is Some,
            ok ==> final(self)@ == select_spec(old(self)@, sel)->0,
            !ok ==> final(self)@ == old(self)@,
            final(self).wf(),
    {
        if sel == Selection::Button(0) {
            self.selected = Vec::new();
            self.turn = Turn { number: self.turn.number, phase: TurnPhase::IDLE };
            proof {
                assert(self@.selected =~= Seq::<Selection>::empty());
            }
            return true;
        }
        match self.turn.phase {
            TurnPhase::IDLE => self.select_idle(sel),
            TurnPhase::SELECT(card) => self.select_single(card, sel),
            TurnPhase::FIELD_SELECT(card) => match sel {
                Selection::Field(i) => self.select_half(card, i),
                _ => true,
            },
            TurnPhase::MULTISELECT(card) => self.select_multi(card, sel),
        }
    }

    /// The state of the game and its menus.
    pub fn state(&self) -> (r: GameState)
        ensures
            r == self@.state,
    {
        self.state
    }

    /// Sets the state of the game and its menus; nothing else changes.
    pub fn set_state(&mut self, state: GameState)
        requires
            old(self).wf(),
        ensures
            final(self)@ == (TableModel { state, ..old(self)@ }),
            final(self).wf(),
    {
        self.state = state;
    }

    /// The turn.
    pub fn turn(&self) -> (r: Turn)
        ensures
            r == self@.turn,
    {
        self.turn
    }

    /// The six slots of the field.
    pub fn field(&self) -> (r: &Vec<FieldBasis>)
        ensures
            field_models(r@) == self@.field,
    {
        &self.field
    }

    /// The first player's hand.
    pub fn player_1(&self) -> (r: &Vec<Card>)
        ensures
            r@ == self@.player_1,
    {
        &self.player_1
    }

    /// The second player's hand.
    pub fn player_2(&self) -> (r: &Vec<Card>)
        ensures
            r@ == self@.player_2,
    {
        &self.player_2
    }

    /// The cards left in the deck; the last one is drawn first.
    pub fn deck(&self) -> (r: &Vec<Card>)
        ensures
            r@ == self@.deck,
    {
        &self.deck
    }

    /// The discarded cards.
    pub fn graveyard(&self) -> (r: &Vec<Card>)
        ensures
            r@ == self@.graveyard,
    {
        &self.graveyard
    }

    /// What the player has selected this turn.
    pub fn selected(&self) -> (r: &Vec<Selection>)
        ensures
            r@ == self@.selected,
    {
        &self.selected
    }
}

} // verus!
