use nabla_game::basis::builders::{AddBasisNode, CosBasisNode, EBasisNode, LogBasisNode, SinBasisNode};
use nabla_game::basis::structs::Basis;
use nabla_game::cards::{
    apply_card, apply_multi_card, AlgebraicCard, BasisCard, Card, DerivativeCard, LimitCard,
};
use nabla_game::game::field::FieldBasis;
use nabla_game::game::selection::{parse_selection, Selection};
use nabla_game::game::structs::{deal_new_game, game_state_of, new_shuffled_deck, GameState, Turn, TurnPhase};
use nabla_game::game::table::Table;
use nabla_game::game::turn::{idle_turn_phase, next_turn, refill_hand, remove_used};
use nabla_game::math::fraction::Fraction;
use nabla_game::util::ToLatex;

#[test]
fn field_derivative_then_integral_restores() {
    let mut field = FieldBasis::new(&Basis::x());
    assert!(!field.has_value(&Card::DerivativeCard(DerivativeCard::Derivative)));
    field.derivative(Some(&Basis::from(1)));
    assert_eq!(field.index, -1);
    assert_eq!(field.basis.clone().unwrap(), Basis::from(1));
    assert!(field.has_value(&Card::DerivativeCard(DerivativeCard::Integral)));
    field.integral(None);
    assert_eq!(field.index, 0);
    assert_eq!(field.basis.clone().unwrap(), Basis::x());
    assert!(field.has_value(&Card::DerivativeCard(DerivativeCard::Nabla)));
    assert!(!field.has_value(&Card::DerivativeCard(DerivativeCard::Laplacian)));
    assert!(!field.has_value(&Card::AlgebraicCard(AlgebraicCard::Log)));
}

#[test]
fn empty_field_has_nothing() {
    let field = FieldBasis::none();
    assert!(field.basis.is_none());
    assert_eq!(field.index, 0);
    assert!(!field.has_value(&Card::DerivativeCard(DerivativeCard::Integral)));
}

#[test]
fn new_deck_has_every_card() {
    let deck = new_shuffled_deck();
    assert_eq!(deck.len(), 75);
    let nablas = deck
        .iter()
        .filter(|c| **c == Card::DerivativeCard(DerivativeCard::Nabla))
        .count();
    assert_eq!(nablas, 10);
    let ones = deck
        .iter()
        .filter(|c| **c == Card::BasisCard(BasisCard::One))
        .count();
    assert_eq!(ones, 2);
    let limits = deck
        .iter()
        .filter(|c| matches!(c, Card::LimitCard(_)))
        .count();
    assert_eq!(limits, 0);
}

#[test]
fn dealing_keeps_every_card() {
    let (deck, hand_1, hand_2, deals) = deal_new_game();
    assert_eq!(hand_1.len(), 7);
    assert_eq!(hand_2.len(), 7);
    assert_eq!(deck.len(), 75 - 14);
    // the hands are dealt again while both hold nothing but basis cards
    let all_basis = |h: &Vec<Card>| h.iter().all(|c| matches!(c, Card::BasisCard(_)));
    assert!(deals == u64::MAX || !(all_basis(&hand_1) && all_basis(&hand_2)));
    let all: Vec<Card> = deck
        .iter()
        .chain(hand_1.iter())
        .chain(hand_2.iter())
        .cloned()
        .collect();
    let divs = all
        .iter()
        .filter(|c| **c == Card::AlgebraicCard(AlgebraicCard::Div))
        .count();
    assert_eq!(divs, 5);
    let xs = all
        .iter()
        .filter(|c| **c == Card::BasisCard(BasisCard::X))
        .count();
    assert_eq!(xs, 5);
}

#[test]
fn card_types() {
    assert_eq!(Card::BasisCard(BasisCard::E).card_type(), "BASIS_CARD");
    assert_eq!(Card::LimitCard(LimitCard::Lim0).card_type(), "LIMIT_CARD");
    assert_eq!(Card::AlgebraicCard(AlgebraicCard::Sqrt).card_type(), "ALGEBRAIC_CARD");
    assert_eq!(Card::DerivativeCard(DerivativeCard::Integral).card_type(), "DERIVATIVE_CARD");
}

#[test]
fn single_cards_apply() {
    let x = Basis::x();
    assert_eq!(
        apply_card(&Card::AlgebraicCard(AlgebraicCard::Sqrt), &x),
        Basis::x() ^ (1, 2)
    );
    assert_eq!(
        apply_card(&Card::AlgebraicCard(AlgebraicCard::Log), &EBasisNode(&x)),
        Basis::x()
    );
    assert_eq!(
        apply_card(&Card::DerivativeCard(DerivativeCard::Derivative), &(Basis::x() ^ 3)),
        3 * (Basis::x() ^ 2)
    );
    assert_eq!(
        apply_card(&Card::DerivativeCard(DerivativeCard::Integral), &Basis::from(2)),
        Basis::x() * 2
    );
    assert_eq!(
        apply_card(&Card::AlgebraicCard(AlgebraicCard::Inverse), &EBasisNode(&x)),
        nabla_game::basis::builders::LogBasisNode(&x)
    );
    assert_eq!(apply_card(&Card::LimitCard(LimitCard::Lim0), &x), Basis::from(0));
    // an undefined limit leaves x in place
    let oscillating = Basis::x() * SinBasisNode(&x);
    assert_eq!(apply_card(&Card::LimitCard(LimitCard::LimPosInf), &oscillating), Basis::x());
    // basis cards have no effect of their own
    assert_eq!(apply_card(&Card::BasisCard(BasisCard::Cos), &x), Basis::from(0));
}

#[test]
fn multi_cards_apply() {
    let product = apply_multi_card(
        &Card::AlgebraicCard(AlgebraicCard::Mult),
        vec![Basis::x(), Basis::x()],
    );
    assert_eq!(product, Basis::x() ^ 2);
    let quotient = apply_multi_card(
        &Card::AlgebraicCard(AlgebraicCard::Div),
        vec![Basis::x() ^ 2, Basis::x()],
    );
    assert_eq!(quotient, Basis::x());
}

#[test]
fn infinity_absorbs_sums() {
    let a = AddBasisNode(vec![Basis::x(), Basis::inf(-1), Basis::inf(1)]);
    assert_eq!(a, Basis::inf(1));
    let b = AddBasisNode(vec![CosBasisNode(&Basis::x()), Basis::inf(-1)]);
    assert_eq!(b, Basis::inf(-1));
}

#[test]
fn equality_is_reflexive_on_examples() {
    let a = (Basis::x() ^ 2) * CosBasisNode(&Basis::x()) + EBasisNode(&Basis::x());
    assert_eq!(a, a.clone());
    let b = Basis::x() / SinBasisNode(&Basis::x());
    assert_eq!(b, b.clone());
}

#[test]
fn written_forms() {
    assert_eq!(Basis::x().to_string(), "x");
    assert_eq!(Basis::from(3).to_string(), "3");
    assert_eq!(Basis::from((1, 2)).to_string(), "1/2");
    assert_eq!((Basis::x() * 2).to_string(), "2x");
    assert_eq!(Basis::inf(-1).to_string(), "-INF");
    assert_eq!(Basis::inf(1).to_string(), "+INF");
}

#[test]
fn fraction_arithmetic() {
    let a = Fraction::from((1, 2)) + Fraction::from((1, 3));
    assert_eq!(a, Fraction::from((5, 6)));
    let b = Fraction::from((2, 4)).simplify();
    assert_eq!(b, Fraction::from((1, 2)));
    let c = Fraction::from((3, 4)) * Fraction::from((2, 3));
    assert_eq!(c, Fraction::from((1, 2)));
    let d = Fraction::from((1, 2)) / 2;
    assert_eq!(d, Fraction::from((1, 4)));
    assert!(Fraction::from((1, 3)) < Fraction::from((1, 2)));
    assert!(Fraction::from((-1, 2)) < 0);
    assert_eq!(Fraction::from((2, 3)) ^ 2, Fraction::from((4, 9)));
    assert_eq!(Fraction::from((2, 3)) ^ -1, Fraction::from((3, 2)));
    assert_eq!(Fraction::from(-3).sign(), -1);
    assert_eq!(-Fraction::from((1, 2)), Fraction::from((-1, 2)));
}

#[test]
fn fraction_operations_commute() {
    let a = Fraction::from((1, 2));
    let b = Fraction::from((-2, 3));
    assert_eq!(a + b, b + a);
    assert_eq!(a + b, Fraction::from((-1, 6)));
    assert_eq!(a * b, b * a);
    assert_eq!(a * b, Fraction::from((-1, 3)));
    // zero operands give back the other operand as written
    let z3 = Fraction { n: 0, d: 3 };
    let z5 = Fraction { n: 0, d: 5 };
    assert_eq!(z3 + z5, z5);
    assert_eq!(z5 + z3, z3);
    assert_ne!(z3 + z5, z5 + z3);
}

#[test]
fn latex_forms() {
    assert_eq!((Basis::x() ^ 2).to_latex(false), "x^{2}");
    assert_eq!(EBasisNode(&Basis::x()).to_latex(false), "e^{x}");
    assert_eq!(
        (Basis::x() / SinBasisNode(&Basis::x())).to_latex(false),
        "\\frac{x}{\\sin(x)}"
    );
    assert_eq!(LogBasisNode(&Basis::x()).to_latex(true), "\\ln(x)");
    assert_eq!(LogBasisNode(&Basis::x()).to_latex(false), "\\log(x)");
    assert_eq!((Basis::x() ^ -1).to_latex(false), "\\frac{1}{x}");
    assert_eq!(Basis::inf(-1).to_latex(false), "-\\infty");
    assert_eq!(Card::AlgebraicCard(AlgebraicCard::Log).to_latex(true), "\\ln");
    assert_eq!(BasisCard::X2.to_latex(false), "x^{2}");
    assert_eq!(
        DerivativeCard::Derivative.to_latex(false),
        "\\frac{d}{dx}"
    );
}

#[test]
fn turns_alternate_players() {
    let turn = Turn { number: 0, phase: TurnPhase::IDLE };
    assert_eq!(turn.player_num(), 1);
    let later = next_turn(&Turn { number: 3, phase: TurnPhase::MULTISELECT(Card::AlgebraicCard(AlgebraicCard::Mult)) });
    assert_eq!(later.number, 4);
    assert_eq!(later.phase, TurnPhase::IDLE);
    assert_eq!(Turn { number: 3, phase: TurnPhase::IDLE }.player_num(), 2);
}

#[test]
fn chosen_cards_lead_to_phases() {
    let x = Card::BasisCard(BasisCard::X);
    assert_eq!(idle_turn_phase(x, true), Some(TurnPhase::SELECT(x)));
    assert_eq!(idle_turn_phase(x, false), None);
    let nabla = Card::DerivativeCard(DerivativeCard::Nabla);
    assert_eq!(idle_turn_phase(nabla, false), Some(TurnPhase::FIELD_SELECT(nabla)));
    let laplacian = Card::DerivativeCard(DerivativeCard::Laplacian);
    assert_eq!(idle_turn_phase(laplacian, true), Some(TurnPhase::FIELD_SELECT(laplacian)));
    let div = Card::AlgebraicCard(AlgebraicCard::Div);
    assert_eq!(idle_turn_phase(div, true), Some(TurnPhase::MULTISELECT(div)));
    let log = Card::AlgebraicCard(AlgebraicCard::Log);
    assert_eq!(idle_turn_phase(log, false), Some(TurnPhase::SELECT(log)));
    let derivative = Card::DerivativeCard(DerivativeCard::Derivative);
    assert_eq!(idle_turn_phase(derivative, false), Some(TurnPhase::SELECT(derivative)));
}

#[test]
fn hands_refill_from_the_end_of_the_deck() {
    let a = Card::BasisCard(BasisCard::One);
    let b = Card::BasisCard(BasisCard::X);
    let c = Card::BasisCard(BasisCard::Cos);
    let mut hand = vec![a; 5];
    let mut deck = vec![a, b, c];
    refill_hand(&mut hand, &mut deck);
    assert_eq!(hand, vec![a, a, a, a, a, c, b]);
    assert_eq!(deck, vec![a]);
    let mut short = vec![];
    let mut last = vec![b];
    refill_hand(&mut short, &mut last);
    assert_eq!(short, vec![b]);
    assert!(last.is_empty());
    let mut full = vec![c; 7];
    let mut rest = vec![a, b];
    refill_hand(&mut full, &mut rest);
    assert_eq!(full.len(), 7);
    assert_eq!(rest, vec![a, b]);
}

#[test]
fn used_cards_leave_the_hand() {
    let cards = [
        Card::BasisCard(BasisCard::One),
        Card::BasisCard(BasisCard::X),
        Card::BasisCard(BasisCard::Cos),
        Card::BasisCard(BasisCard::Sin),
    ];
    let mut hand = cards.to_vec();
    remove_used(&mut hand, &vec![3, 1]);
    assert_eq!(hand, vec![cards[0], cards[2]]);
}

#[test]
fn derivative_cards_move_along_the_history() {
    let derivative = Card::DerivativeCard(DerivativeCard::Derivative);
    let integral = Card::DerivativeCard(DerivativeCard::Integral);
    let mut field = FieldBasis::new(&Basis::from_card(BasisCard::X2));
    field.play_derivative_card(&derivative);
    assert_eq!(field.index, -1);
    assert_eq!(field.basis.clone().unwrap(), Basis::x() * 2);
    field.play_derivative_card(&integral);
    assert_eq!(field.index, 0);
    assert_eq!(field.basis.clone().unwrap(), Basis::from_card(BasisCard::X2));
    field.play_derivative_card(&derivative);
    assert_eq!(field.index, -1);
    assert_eq!(field.basis.clone().unwrap(), Basis::x() * 2);
    // the laplacian of x: the second derivative is zero and the slot empties
    let mut line = FieldBasis::new(&Basis::x());
    line.play_derivative_card(&Card::DerivativeCard(DerivativeCard::Laplacian));
    assert!(line.basis.is_none());
    // the derivative of a constant empties the slot
    let mut one = FieldBasis::new(&Basis::from(1));
    one.play_derivative_card(&derivative);
    assert!(one.basis.is_none());
    // nothing happens on an empty slot
    let mut empty = FieldBasis::none();
    empty.play_derivative_card(&integral);
    assert!(empty.basis.is_none());
}

#[test]
fn operator_cards_restart_the_history() {
    let mut field = FieldBasis::new(&Basis::x());
    field.play_derivative_card(&Card::DerivativeCard(DerivativeCard::Integral));
    assert_eq!(field.index, 1);
    field.play_operator_card(&Card::AlgebraicCard(AlgebraicCard::Log));
    assert_eq!(field.index, 0);
    assert!(!field.has_value(&Card::DerivativeCard(DerivativeCard::Derivative)));
    assert!(field.basis.is_some());
    let mut empty = FieldBasis::none();
    empty.play_operator_card(&Card::AlgebraicCard(AlgebraicCard::Sqrt));
    assert!(empty.basis.is_none());
}

#[test]
fn hit_region_ids_name_selections() {
    assert_eq!(parse_selection("p1=3"), Some(Selection::Hand(1, 3)));
    assert_eq!(parse_selection("p2=0"), Some(Selection::Hand(2, 0)));
    assert_eq!(parse_selection("f=2"), Some(Selection::Field(2)));
    assert_eq!(parse_selection("x=1"), Some(Selection::Button(1)));
    assert_eq!(parse_selection("deck=1"), Some(Selection::Other));
    assert_eq!(parse_selection("f=+4"), Some(Selection::Field(4)));
    assert_eq!(parse_selection("f=4=5"), Some(Selection::Field(4)));
    assert_eq!(parse_selection("p1"), None);
    assert_eq!(parse_selection("f="), None);
    assert_eq!(parse_selection("f=+"), None);
    assert_eq!(parse_selection("f=a"), None);
    assert_eq!(parse_selection("f=-1"), None);
    assert_eq!(parse_selection("f=99999999999999999999999"), None);
}

#[test]
fn menu_ids_name_states() {
    assert_eq!(game_state_of("PLAYVS"), Some(GameState::PLAYVS));
    assert_eq!(game_state_of("CREDITS"), Some(GameState::CREDITS));
    assert_eq!(game_state_of("MENU"), Some(GameState::MENU));
    assert_eq!(game_state_of("menu"), None);
    assert_eq!(game_state_of(""), None);
}

#[test]
fn a_new_table_is_set() {
    let table = Table::new();
    assert_eq!(table.state(), GameState::MENU);
    assert_eq!(table.turn(), Turn { number: 0, phase: TurnPhase::IDLE });
    assert_eq!(table.player_1().len(), 7);
    assert_eq!(table.player_2().len(), 7);
    assert_eq!(table.deck().len(), 75 - 14);
    assert!(table.graveyard().is_empty());
    assert!(table.selected().is_empty());
    let field = table.field();
    assert_eq!(field.len(), 6);
    assert_eq!(field[1].basis.clone().unwrap(), Basis::x());
    assert_eq!(field[5].basis.clone().unwrap(), Basis::from_card(BasisCard::X2));
    assert_eq!(table.current_player_num(), 1);
}

#[test]
fn selections_out_of_turn_do_nothing() {
    let mut table = Table::new();
    // the other player's card, a field slot and an unknown region do nothing at the
    // start of a turn
    assert!(table.select(Selection::Hand(2, 0)));
    assert!(table.select(Selection::Field(0)));
    assert!(table.select(Selection::Other));
    assert!(table.selected().is_empty());
    assert_eq!(table.turn().phase, TurnPhase::IDLE);
    // a position past the end of the hand fails
    assert!(!table.select(Selection::Hand(1, 7)));
}

#[test]
fn a_card_chosen_can_be_cancelled() {
    let mut table = Table::new();
    assert!(table.select(Selection::Hand(1, 0)));
    assert_eq!(table.selected().len(), 1);
    assert!(table.select(Selection::Button(0)));
    assert!(table.selected().is_empty());
    assert_eq!(table.turn(), Turn { number: 0, phase: TurnPhase::IDLE });
}

#[test]
fn playing_the_first_card_ends_the_turn() {
    let mut table = Table::new();
    let card = table.player_1()[0];
    assert!(table.select(Selection::Hand(1, 0)));
    match card {
        Card::BasisCard(_) => {
            // no empty slot on a new field: the card cannot be played
            assert_eq!(table.turn().phase, TurnPhase::IDLE);
            return;
        }
        Card::DerivativeCard(DerivativeCard::Nabla | DerivativeCard::Laplacian) => {
            assert_eq!(table.turn().phase, TurnPhase::FIELD_SELECT(card));
            assert!(table.select(Selection::Field(4)));
            // the constant 1 is differentiated away
            assert!(table.field()[3].basis.is_none());
        }
        Card::AlgebraicCard(AlgebraicCard::Mult | AlgebraicCard::Div) => {
            assert_eq!(table.turn().phase, TurnPhase::MULTISELECT(card));
            assert!(table.select(Selection::Field(1)));
            assert!(table.select(Selection::Field(2)));
            assert_eq!(table.selected().len(), 3);
            assert!(table.select(Selection::Button(1)));
            assert!(table.field()[1].basis.is_some());
            assert!(table.field()[2].basis.is_none());
        }
        _ => {
            assert_eq!(table.turn().phase, TurnPhase::SELECT(card));
            assert!(table.select(Selection::Field(2)));
        }
    }
    assert_eq!(table.turn(), Turn { number: 1, phase: TurnPhase::IDLE });
    assert_eq!(table.current_player_num(), 2);
    assert_eq!(table.player_1().len(), 7);
    assert_eq!(table.deck().len(), 75 - 15);
    // the card played left the game; no card was added
    assert_eq!(table.deck().len() + table.player_1().len() + table.player_2().len(), 75 - 1);
    assert!(table.selected().is_empty());
}
