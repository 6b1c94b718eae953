use crate::cards::{AlgebraicCard, BasisCard, Card, DerivativeCard};
use crate::game::selection::str_eq;
use rand::seq::SliceRandom;
use vstd::prelude::*;

verus! {

broadcast use {vstd::seq_lib::group_to_multiset_ensures, vstd::seq_lib::lemma_multiset_commutative};

/// The turn counter and the phase of the current turn.
#[derive(Copy, Clone, Debug, PartialEq, Eq, Structural)]
pub struct Turn {
    pub number: u32,
    pub phase: TurnPhase,
}

/// The phases of a turn, for the steps that the various cards take.
#[derive(Copy, Clone, Debug, PartialEq, Eq, Structural)]
#[allow(non_camel_case_types)]
pub enum TurnPhase {
    /// start of turn
    IDLE,
    /// single-basis operators or playing new operators with a blank slot
    SELECT(Card),
    /// nabla or laplacian
    FIELD_SELECT(Card),
    /// mult or div
    MULTISELECT(Card),
}

/// The states of the game and its menus.
#[derive(Copy, Clone, Debug, PartialEq, Eq, Structural)]
pub enum GameState {
    MENU,
    PLAYAI,
    PLAYVS,
    TUTORIAL,
    SETTINGS,
    CREDITS,
}

/// The state of the game named by a menu id; `None` for any other name.
pub open spec fn game_state_of_spec(name: Seq<char>) -> Option<GameState> {
    if name == "MENU"@ {
        Some(GameState::MENU)
    } else if name == "PLAYAI"@ {
        Some(GameState::PLAYAI)
    } else if name == "PLAYVS"@ {
        Some(GameState::PLAYVS)
    } else if name == "TUTORIAL"@ {
        Some(GameState::TUTORIAL)
    } else if name == "SETTINGS"@ {
        Some(GameState::SETTINGS)
    } else if name == "CREDITS"@ {
        Some(GameState::CREDITS)
    } else {
        None
    }
}

/// The state of the game named by a menu id (see `game_state_of_spec`).
pub fn game_state_of(name: &str) -> (r: Option<GameState>)
    ensures
        r == game_state_of_spec(name@),
{
    if str_eq(name, "MENU") {
        Some(GameState::MENU)
    } else if str_eq(name, "PLAYAI") {
        Some(GameState::PLAYAI)
    } else if str_eq(name, "PLAYVS") {
        Some(GameState::PLAYVS)
    } else if str_eq(name, "TUTORIAL") {
        Some(GameState::TUTORIAL)
    } else if str_eq(name, "SETTINGS") {
        Some(GameState::SETTINGS)
    } else if str_eq(name, "CREDITS") {
        Some(GameState::CREDITS)
    } else {
        None
    }
}

/// `n` copies of `card`.
pub open spec fn copies(card: Card, n: nat) -> Seq<Card> {
    Seq::new(n, |i: int| card)
}

/// A new deck of 75 cards: two zeros, two ones, five x and one x² (two each of one, x
/// and x² start on the board instead), four each of cos, sin and e, five of each
/// algebraic card, eight derivative and eight integral cards, ten nablas and two
/// laplacians. The limit cards are not dealt.
pub open spec fn new_deck_spec() -> Seq<Card> {
    copies(Card::BasisCard(BasisCard::Zero), 2) + copies(Card::BasisCard(BasisCard::One), 2)
        + copies(Card::BasisCard(BasisCard::X), 5) + copies(Card::BasisCard(BasisCard::X2), 1)
        + copies(Card::BasisCard(BasisCard::Cos), 4) + copies(Card::BasisCard(BasisCard::Sin), 4)
        + copies(Card::BasisCard(BasisCard::E), 4) + copies(Card::AlgebraicCard(AlgebraicCard::Div), 5)
        + copies(Card::AlgebraicCard(AlgebraicCard::Mult), 5) + copies(
        Card::AlgebraicCard(AlgebraicCard::Sqrt),
        5,
    ) + copies(Card::AlgebraicCard(AlgebraicCard::Inverse), 5) + copies(
        Card::AlgebraicCard(AlgebraicCard::Log),
        5,
    ) + copies(Card::DerivativeCard(DerivativeCard::Derivative), 8) + copies(
        Card::DerivativeCard(DerivativeCard::Integral),
        8,
    ) + copies(Card::DerivativeCard(DerivativeCard::Nabla), 10) + copies(
        Card::DerivativeCard(DerivativeCard::Laplacian),
        2,
    )
}

/// Appends `n` copies of `card`.
fn push_copies(deck: &mut Vec<Card>, card: Card, n: usize)
    ensures
        final(deck)@ == old(deck)@ + copies(card, n as nat),
{
    let ghost start = deck@;
    let mut i: usize = 0;
    while i < n
        invariant
            i <= n,
            deck@ == start + copies(card, i as nat),
        decreases n - i,
    {
        deck.push(card);
        i += 1;
        proof {
            assert(deck@ =~= start + copies(card, i as nat));
        }
    }
}

/// A new deck, in order (see `new_deck_spec`).
fn get_new_deck() -> (r: Vec<Card>)
    ensures
        r@ == new_deck_spec(),
{
    let mut deck: Vec<Card> = Vec::new();
    push_copies(&mut deck, Card::BasisCard(BasisCard::Zero), 2);
    // subtract 2 for starting board
    push_copies(&mut deck, Card::BasisCard(BasisCard::One), 4 - 2);
    push_copies(&mut deck, Card::BasisCard(BasisCard::X), 7 - 2);
    push_copies(&mut deck, Card::BasisCard(BasisCard::X2), 3 - 2);
    push_copies(&mut deck, Card::BasisCard(BasisCard::Cos), 4);
    push_copies(&mut deck, Card::BasisCard(BasisCard::Sin), 4);
    push_copies(&mut deck, Card::BasisCard(BasisCard::E), 4);
    push_copies(&mut deck, Card::AlgebraicCard(AlgebraicCard::Div), 5);
    push_copies(&mut deck, Card::AlgebraicCard(AlgebraicCard::Mult), 5);
    push_copies(&mut deck, Card::AlgebraicCard(AlgebraicCard::Sqrt), 5);
    push_copies(&mut deck, Card::AlgebraicCard(AlgebraicCard::Inverse), 5);
    push_copies(&mut deck, Card::AlgebraicCard(AlgebraicCard::Log), 5);
    push_copies(&mut deck, Card::DerivativeCard(DerivativeCard::Derivative), 8);
    push_copies(&mut deck, Card::DerivativeCard(DerivativeCard::Integral), 8);
    push_copies(&mut deck, Card::DerivativeCard(DerivativeCard::Nabla), 10);
    push_copies(&mut deck, Card::DerivativeCard(DerivativeCard::Laplacian), 2);
    deck
}

/// A new deck, shuffled: the cards of `new_deck_spec` in a random order.
pub fn new_shuffled_deck() -> (r: Vec<Card>)
    ensures
        r@.to_multiset() == new_deck_spec().to_multiset(),
{
    let mut deck = get_new_deck();
    shuffle_deck(&mut deck);
    deck
}

/// Shuffles the deck in place with `rand`'s `SliceRandom::shuffle` (a Fisher–Yates
/// shuffle made of swaps) driven by `rand::thread_rng()`: the same cards in a random
/// order. Which order comes out is left unsaid: it rests on the random generator.
#[verifier::external_body]
fn shuffle_deck(deck: &mut Vec<Card>)
    ensures
        final(deck)@.to_multiset() == old(deck)@.to_multiset(),
        final(deck)@.len() == old(deck)@.len(),
{
    deck.shuffle(&mut rand::thread_rng());
}

/// Whether every card of the hand is a basis card.
pub open spec fn all_basis(hand: Seq<Card>) -> bool {
    forall|i: int| 0 <= i < hand.len() ==> (#[trigger] hand[i]) is BasisCard
}

/// Whether every card of the hand is a basis card.
fn is_all_basis(hand: &Vec<Card>) -> (r: bool)
    ensures
        r == all_basis(hand@),
{
    let mut i: usize = 0;
    while i < hand.len()
        invariant
            i <= hand@.len(),
            forall|t: int| 0 <= t < i ==> (#[trigger] hand@[t]) is BasisCard,
        decreases hand.len() - i,
    {
        if !matches!(hand[i], Card::BasisCard(_)) {
            return false;
        }
        i += 1;
    }
    true
}

/// How many times hands are dealt again at most before the last deal is kept.
pub const MAX_DEALS: u64 = 0xffff_ffff_ffff_ffff;

/// Deals two hands of seven cards from the end of the deck, the first hand first. While
/// both hands hold nothing but basis cards, they go back into the deck, which is
/// shuffled, and are dealt again (at most `MAX_DEALS` times). No card is lost or added:
/// the deck that is left and the two hands hold the cards of the deck.
fn create_players(deck: &mut Vec<Card>) -> (r: (Vec<Card>, Vec<Card>, u64))
    requires
        old(deck)@.len() >= 14,
    ensures
        r.0@.len() == 7,
        r.1@.len() == 7,
        r.2 < MAX_DEALS ==> !(all_basis(r.0@) && all_basis(r.1@)),
        final(deck)@.len() == old(deck)@.len() - 14,
        (final(deck)@ + r.1@ + r.0@).to_multiset() == old(deck)@.to_multiset(),
{
    let ghost all = deck@.to_multiset();
    let ghost len0 = deck@.len();
    // deal initial hands
    let mut hand_1 = deck.split_off(deck.len() - 7);
    let mut hand_2 = deck.split_off(deck.len() - 7);
    proof {
        assert(deck@ + hand_2@ + hand_1@ =~= old(deck)@);
    }
    let mut deals: u64 = 0;
    // check for edge case where a player receives all basis cards
    while is_all_basis(&hand_1) && is_all_basis(&hand_2) && deals < MAX_DEALS
        invariant
            hand_1@.len() == 7,
            hand_2@.len() == 7,
            deals <= MAX_DEALS,
            deck@.len() == len0 - 14,
            (deck@ + hand_2@ + hand_1@).to_multiset() == all,
        decreases MAX_DEALS - deals,
    {
        // mulligan and re shuffle
        let ghost before = deck@ + hand_2@ + hand_1@;
        deck.append(&mut hand_1);
        deck.append(&mut hand_2);
        proof {
            assert(deck@.to_multiset() == before.to_multiset());
        }
        shuffle_deck(deck);
        let ghost shuffled = deck@;
        hand_1 = deck.split_off(deck.len() - 7);
        hand_2 = deck.split_off(deck.len() - 7);
        proof {
            assert(deck@ + hand_2@ + hand_1@ =~= shuffled);
        }
        deals = deals + 1;
    }
    (hand_1, hand_2, deals)
}

/// Shuffles a new deck and deals the two starting hands (see `create_players`):
/// `(deck, hand_1, hand_2, deals)`, where `deals` counts the deals made again because
/// both hands held nothing but basis cards; unless that count reached `MAX_DEALS`, the
/// hands are not both all basis cards.
pub fn deal_new_game() -> (r: (Vec<Card>, Vec<Card>, Vec<Card>, u64))
    ensures
        r.1@.len() == 7,
        r.2@.len() == 7,
        (r.0@ + r.2@ + r.1@).to_multiset() == new_deck_spec().to_multiset(),
        r.3 < MAX_DEALS ==> !(all_basis(r.1@) && all_basis(r.2@)),
{
    let mut deck = new_shuffled_deck();
    proof {
        assert(new_deck_spec().len() == 75);
        assert(deck@.len() == deck@.to_multiset().len());
    }
    let (h1, h2, deals) = create_players(&mut deck);
    (deck, h1, h2, deals)
}

} // verus!
