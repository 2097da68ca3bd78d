use blackjack::card::{Card, Suit, Value};
use blackjack::engine::BlackjackApp;

fn n(v: u8, suit: Suit) -> Card {
    Card { value: Value::Number(v), suit }
}

fn ace(suit: Suit) -> Card {
    Card { value: Value::Ace, suit }
}

fn king(suit: Suit) -> Card {
    Card { value: Value::King, suit }
}

#[test]
fn two_aces_score_twelve() {
    // First ace resolves to 11 (0 + 11 <= 21), the second to 1 (11 + 11 > 21).
    let hand = vec![ace(Suit::Hearts), ace(Suit::Spades)];
    assert_eq!(BlackjackApp::calculate_hand_value(&hand), 12);
}

#[test]
fn ace_king_scores_twenty_one() {
    let hand = vec![ace(Suit::Hearts), king(Suit::Spades)];
    assert_eq!(BlackjackApp::calculate_hand_value(&hand), 21);
}

#[test]
fn ace_king_king_scores_twenty_one() {
    // Non-ace values sum first (20), then the ace resolves to 1.
    let hand = vec![ace(Suit::Hearts), king(Suit::Spades), king(Suit::Clubs)];
    assert_eq!(BlackjackApp::calculate_hand_value(&hand), 21);
}

#[test]
fn four_aces_score_fourteen() {
    let hand = vec![
        ace(Suit::Hearts),
        ace(Suit::Diamonds),
        ace(Suit::Clubs),
        ace(Suit::Spades),
    ];
    assert_eq!(BlackjackApp::calculate_hand_value(&hand), 14);
}

#[test]
fn numbered_cards_sum_face_values() {
    let hand = vec![n(2, Suit::Hearts), n(3, Suit::Clubs), n(4, Suit::Spades)];
    assert_eq!(BlackjackApp::calculate_hand_value(&hand), 9);
}

#[test]
fn bust_hand_scores_over_twenty_one() {
    let hand = vec![n(10, Suit::Hearts), n(9, Suit::Clubs), n(5, Suit::Spades)];
    assert_eq!(BlackjackApp::calculate_hand_value(&hand), 24);
}

#[test]
fn empty_hand_scores_zero() {
    let hand: Vec<Card> = Vec::new();
    assert_eq!(BlackjackApp::calculate_hand_value(&hand), 0);
}

#[test]
fn score_ignores_suits() {
    let a = vec![n(8, Suit::Hearts), ace(Suit::Clubs)];
    let b = vec![n(8, Suit::Spades), ace(Suit::Diamonds)];
    assert_eq!(
        BlackjackApp::calculate_hand_value(&a),
        BlackjackApp::calculate_hand_value(&b)
    );
}

#[test]
fn card_values() {
    assert_eq!(n(7, Suit::Hearts).value(), 7);
    assert_eq!(Card { value: Value::Jack, suit: Suit::Clubs }.value(), 10);
    assert_eq!(Card { value: Value::Queen, suit: Suit::Clubs }.value(), 10);
    assert_eq!(king(Suit::Clubs).value(), 10);
    assert_eq!(ace(Suit::Clubs).value(), 11);
}

#[test]
fn display_texts() {
    assert_eq!(ace(Suit::Spades).display(), "A of Spades");
    assert_eq!(n(10, Suit::Hearts).display(), "10 of Hearts");
    assert_eq!(Card { value: Value::Jack, suit: Suit::Clubs }.display(), "J of Clubs");
    assert_eq!(n(2, Suit::Diamonds).display(), "2 of Diamonds");
}
