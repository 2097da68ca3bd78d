use blackjack::card::{Card, Suit, Value};
use blackjack::engine::{ActionStatus, BlackjackApp, GameState, Outcome};

fn n(v: u8, suit: Suit) -> Card {
    Card { value: Value::Number(v), suit }
}

fn king(suit: Suit) -> Card {
    Card { value: Value::King, suit }
}

fn queen(suit: Suit) -> Card {
    Card { value: Value::Queen, suit }
}

fn ace(suit: Suit) -> Card {
    Card { value: Value::Ace, suit }
}

/// A mid-round engine state with the given shoe, one or more player hands
/// and a dealer hand, during the player's turn on hand 0.
fn table(
    deck: Vec<Card>,
    hands: Vec<Vec<Card>>,
    dealer: Vec<Card>,
    bets: Vec<usize>,
    money: usize,
) -> BlackjackApp {
    BlackjackApp {
        deck,
        player_hands: hands,
        dealer_hand: dealer,
        current_hand: 0,
        game_state: GameState::PlayerTurn,
        player_bets: bets,
        total_money: money,
    }
}

fn outcomes(app: &BlackjackApp) -> Vec<Outcome> {
    match &app.game_state {
        GameState::GameOver(outs) => outs.clone(),
        _ => panic!("round is not over"),
    }
}

#[test]
fn new_game_deals_two_cards_each() {
    let app = BlackjackApp::new();
    assert_eq!(app.player_hands.len(), 1);
    assert_eq!(app.player_hands[0].len(), 2);
    assert_eq!(app.dealer_hand.len(), 2);
    assert_eq!(app.deck.len(), 48);
    assert_eq!(app.total_money, 100);
    assert_eq!(app.player_bets, vec![10]);
    assert_eq!(app.current_hand, 0);
    assert!(matches!(app.game_state, GameState::PlayerTurn));
    // All 52 cards in play are pairwise distinct.
    let mut all: Vec<Card> = app.deck.clone();
    all.extend_from_slice(&app.player_hands[0]);
    all.extend_from_slice(&app.dealer_hand);
    assert_eq!(all.len(), 52);
    for i in 0..all.len() {
        for j in (i + 1)..all.len() {
            assert!(all[i] != all[j]);
        }
    }
}

#[test]
fn create_deck_holds_thirteen_of_each_suit() {
    let deck = BlackjackApp::create_deck();
    assert_eq!(deck.len(), 52);
    for suit in [Suit::Hearts, Suit::Diamonds, Suit::Clubs, Suit::Spades] {
        let count = deck.iter().filter(|c| c.suit == suit).count();
        assert_eq!(count, 13);
    }
    let aces = deck.iter().filter(|c| c.value == Value::Ace).count();
    assert_eq!(aces, 4);
}

#[test]
fn can_split_needs_equal_values() {
    assert!(BlackjackApp::can_split(&vec![n(8, Suit::Spades), n(8, Suit::Hearts)]));
    assert!(!BlackjackApp::can_split(&vec![n(8, Suit::Spades), n(9, Suit::Hearts)]));
    // Court cards are mutually equal through their shared value of 10.
    assert!(BlackjackApp::can_split(&vec![king(Suit::Clubs), queen(Suit::Hearts)]));
    assert!(BlackjackApp::can_split(&vec![ace(Suit::Clubs), ace(Suit::Hearts)]));
    assert!(!BlackjackApp::can_split(&vec![ace(Suit::Clubs), king(Suit::Hearts)]));
    assert!(!BlackjackApp::can_split(&vec![n(8, Suit::Spades)]));
}

#[test]
fn split_pair_of_eights() {
    // The shoe pops from its end: hand 0 draws the 2 of Clubs, the new hand
    // draws the 5 of Diamonds.
    let deck = vec![n(5, Suit::Diamonds), n(2, Suit::Clubs)];
    let hands = vec![vec![n(8, Suit::Spades), n(8, Suit::Hearts)]];
    let dealer = vec![king(Suit::Diamonds), n(6, Suit::Diamonds)];
    let mut app = table(deck, hands, dealer, vec![10], 100);
    let status = app.split();
    assert_eq!(status, ActionStatus::Accepted);
    assert_eq!(app.player_hands.len(), 2);
    assert_eq!(app.player_hands[0], vec![n(8, Suit::Spades), n(2, Suit::Clubs)]);
    assert_eq!(app.player_hands[1], vec![n(8, Suit::Hearts), n(5, Suit::Diamonds)]);
    assert_eq!(app.player_bets, vec![10, 10]);
    assert_eq!(app.total_money, 90);
    assert_eq!(app.current_hand, 0);
    assert!(matches!(app.game_state, GameState::PlayerTurn));
    assert!(app.deck.is_empty());
}

#[test]
fn split_refused_on_unequal_pair() {
    let deck = vec![n(5, Suit::Diamonds), n(2, Suit::Clubs)];
    let hands = vec![vec![n(8, Suit::Spades), n(9, Suit::Hearts)]];
    let dealer = vec![king(Suit::Diamonds), n(6, Suit::Diamonds)];
    let mut app = table(deck, hands, dealer, vec![10], 100);
    let status = app.split();
    assert_eq!(status, ActionStatus::IllegalAction);
    assert_eq!(app.player_hands.len(), 1);
    assert_eq!(app.player_hands[0], vec![n(8, Suit::Spades), n(9, Suit::Hearts)]);
    assert_eq!(app.player_bets, vec![10]);
    assert_eq!(app.total_money, 100);
}

#[test]
fn split_refused_on_insufficient_funds() {
    let deck = vec![n(5, Suit::Diamonds), n(2, Suit::Clubs)];
    let hands = vec![vec![n(8, Suit::Spades), n(8, Suit::Hearts)]];
    let dealer = vec![king(Suit::Diamonds), n(6, Suit::Diamonds)];
    let mut app = table(deck, hands, dealer, vec![10], 5);
    let status = app.split();
    assert_eq!(status, ActionStatus::IllegalAction);
    assert_eq!(app.player_hands.len(), 1);
    assert_eq!(app.total_money, 5);
}

#[test]
fn double_down_deducts_bet_and_doubles_it() {
    let deck = vec![n(9, Suit::Clubs)];
    let hands = vec![
        vec![n(5, Suit::Diamonds), n(5, Suit::Clubs)],
        vec![n(7, Suit::Diamonds), n(7, Suit::Clubs)],
    ];
    let dealer = vec![king(Suit::Diamonds), n(6, Suit::Diamonds)];
    let mut app = table(deck, hands, dealer, vec![10, 10], 100);
    let status = app.double_down();
    assert_eq!(status, ActionStatus::Accepted);
    assert_eq!(app.total_money, 90);
    assert_eq!(app.player_bets, vec![20, 10]);
    assert_eq!(app.player_hands[0].len(), 3);
    // The hand's turn always ends, bust or not.
    assert_eq!(app.current_hand, 1);
    assert!(matches!(app.game_state, GameState::PlayerTurn));
}

#[test]
fn double_down_ends_turn_even_on_bust() {
    let deck = vec![king(Suit::Clubs)];
    let hands = vec![
        vec![n(10, Suit::Diamonds), n(9, Suit::Clubs)],
        vec![n(7, Suit::Diamonds), n(7, Suit::Clubs)],
    ];
    let dealer = vec![king(Suit::Diamonds), n(6, Suit::Diamonds)];
    let mut app = table(deck, hands, dealer, vec![10, 10], 100);
    let status = app.double_down();
    assert_eq!(status, ActionStatus::Accepted);
    assert_eq!(app.total_money, 90);
    assert_eq!(app.player_bets, vec![20, 10]);
    assert_eq!(app.current_hand, 1);
    assert!(matches!(app.game_state, GameState::PlayerTurn));
}

#[test]
fn double_down_refused_on_insufficient_funds() {
    let deck = vec![n(9, Suit::Clubs)];
    let hands = vec![vec![n(5, Suit::Diamonds), n(5, Suit::Clubs)]];
    let dealer = vec![king(Suit::Diamonds), n(6, Suit::Diamonds)];
    let mut app = table(deck, hands, dealer, vec![10], 5);
    let status = app.double_down();
    assert_eq!(status, ActionStatus::IllegalAction);
    assert_eq!(app.total_money, 5);
    assert_eq!(app.player_bets, vec![10]);
    assert_eq!(app.player_hands[0].len(), 2);
}

#[test]
fn double_down_refused_on_empty_shoe() {
    let hands = vec![vec![n(5, Suit::Diamonds), n(5, Suit::Clubs)]];
    let dealer = vec![king(Suit::Diamonds), n(6, Suit::Diamonds)];
    let mut app = table(Vec::new(), hands, dealer, vec![10], 100);
    let status = app.double_down();
    assert_eq!(status, ActionStatus::ShoeDepleted);
    assert_eq!(app.total_money, 100);
    assert_eq!(app.player_bets, vec![10]);
    assert!(matches!(app.game_state, GameState::PlayerTurn));
}

#[test]
fn split_refused_when_shoe_cannot_deal_two() {
    let hands = vec![vec![n(8, Suit::Spades), n(8, Suit::Hearts)]];
    let dealer = vec![king(Suit::Diamonds), n(6, Suit::Diamonds)];
    let mut app = table(vec![n(2, Suit::Clubs)], hands, dealer, vec![10], 100);
    let status = app.split();
    assert_eq!(status, ActionStatus::ShoeDepleted);
    assert_eq!(app.player_hands.len(), 1);
    assert_eq!(app.total_money, 100);
}

#[test]
fn hit_draws_one_card() {
    let deck = vec![n(9, Suit::Clubs)];
    let hands = vec![vec![n(5, Suit::Diamonds), n(5, Suit::Clubs)]];
    let dealer = vec![king(Suit::Diamonds), n(6, Suit::Diamonds)];
    let mut app = table(deck, hands, dealer, vec![10], 100);
    let status = app.hit();
    assert_eq!(status, ActionStatus::Accepted);
    assert_eq!(app.player_hands[0], vec![n(5, Suit::Diamonds), n(5, Suit::Clubs), n(9, Suit::Clubs)]);
    assert_eq!(app.current_hand, 0);
    assert!(matches!(app.game_state, GameState::PlayerTurn));
    assert!(app.deck.is_empty());
}

#[test]
fn hit_bust_ends_round_immediately() {
    // 10 + 9 + 5 = 24: the hand busts and, it being the only hand, the
    // dealer's turn and settlement run at once; no further hit is possible.
    let deck = vec![n(5, Suit::Clubs)];
    let hands = vec![vec![n(10, Suit::Diamonds), n(9, Suit::Clubs)]];
    let dealer = vec![king(Suit::Hearts), king(Suit::Spades)];
    let mut app = table(deck, hands, dealer, vec![10], 100);
    let status = app.hit();
    assert_eq!(status, ActionStatus::Accepted);
    assert_eq!(outcomes(&app), vec![Outcome::Busted]);
    assert_eq!(app.total_money, 100);
}

#[test]
fn hit_bust_advances_to_next_split_hand() {
    let deck = vec![n(5, Suit::Clubs)];
    let hands = vec![
        vec![n(10, Suit::Diamonds), n(9, Suit::Clubs)],
        vec![n(2, Suit::Diamonds), n(2, Suit::Clubs)],
    ];
    let dealer = vec![king(Suit::Hearts), n(6, Suit::Spades)];
    let mut app = table(deck, hands, dealer, vec![10, 10], 100);
    let status = app.hit();
    assert_eq!(status, ActionStatus::Accepted);
    assert_eq!(app.current_hand, 1);
    assert!(matches!(app.game_state, GameState::PlayerTurn));
}

#[test]
fn hit_refused_on_empty_shoe() {
    let hands = vec![vec![n(5, Suit::Diamonds), n(5, Suit::Clubs)]];
    let dealer = vec![king(Suit::Diamonds), n(6, Suit::Diamonds)];
    let mut app = table(Vec::new(), hands, dealer, vec![10], 100);
    let status = app.hit();
    assert_eq!(status, ActionStatus::ShoeDepleted);
    assert_eq!(app.player_hands[0].len(), 2);
    assert!(matches!(app.game_state, GameState::PlayerTurn));
}

#[test]
fn actions_refused_outside_player_turn() {
    let hands = vec![vec![n(5, Suit::Diamonds), n(5, Suit::Clubs)]];
    let dealer = vec![king(Suit::Diamonds), n(6, Suit::Diamonds)];
    let mut app = table(vec![n(2, Suit::Clubs)], hands, dealer, vec![10], 100);
    app.game_state = GameState::GameOver(vec![Outcome::Lost]);
    assert_eq!(app.hit(), ActionStatus::IllegalAction);
    assert_eq!(app.stand(), ActionStatus::IllegalAction);
    assert_eq!(app.double_down(), ActionStatus::IllegalAction);
    assert_eq!(app.split(), ActionStatus::IllegalAction);
    assert_eq!(app.total_money, 100);
    assert_eq!(app.player_hands[0].len(), 2);
}

#[test]
fn stand_win_pays_double_the_bet() {
    // Player holds 19; the dealer holds 16, draws a 2 and stands on 18.
    let deck = vec![n(2, Suit::Diamonds)];
    let hands = vec![vec![n(10, Suit::Diamonds), n(9, Suit::Clubs)]];
    let dealer = vec![n(10, Suit::Hearts), n(6, Suit::Spades)];
    let mut app = table(deck, hands, dealer, vec![10], 100);
    let status = app.stand();
    assert_eq!(status, ActionStatus::Accepted);
    assert_eq!(app.dealer_hand.len(), 3);
    assert_eq!(outcomes(&app), vec![Outcome::Won]);
    assert_eq!(app.total_money, 120);
}

#[test]
fn stand_moves_to_next_split_hand() {
    let hands = vec![
        vec![n(5, Suit::Diamonds), n(5, Suit::Clubs)],
        vec![n(7, Suit::Diamonds), n(7, Suit::Clubs)],
    ];
    let dealer = vec![king(Suit::Diamonds), n(6, Suit::Diamonds)];
    let mut app = table(vec![n(2, Suit::Clubs)], hands, dealer, vec![10, 10], 100);
    let status = app.stand();
    assert_eq!(status, ActionStatus::Accepted);
    assert_eq!(app.current_hand, 1);
    assert!(matches!(app.game_state, GameState::PlayerTurn));
    assert_eq!(app.dealer_hand.len(), 2);
}

#[test]
fn push_returns_the_stake() {
    let hands = vec![vec![n(10, Suit::Diamonds), n(8, Suit::Clubs)]];
    let dealer = vec![n(10, Suit::Hearts), n(8, Suit::Spades)];
    let mut app = table(Vec::new(), hands, dealer, vec![10], 100);
    app.stand();
    assert_eq!(outcomes(&app), vec![Outcome::Push]);
    assert_eq!(app.total_money, 110);
}

#[test]
fn dealer_bust_wins_for_live_hands() {
    // Dealer holds 16, draws a king and busts on 26; even a weak live hand wins.
    let deck = vec![king(Suit::Clubs)];
    let hands = vec![vec![n(2, Suit::Diamonds), n(3, Suit::Clubs)]];
    let dealer = vec![n(10, Suit::Hearts), n(6, Suit::Spades)];
    let mut app = table(deck, hands, dealer, vec![10], 100);
    app.stand();
    assert_eq!(outcomes(&app), vec![Outcome::Won]);
    assert_eq!(app.total_money, 120);
}

#[test]
fn dealer_outscore_loses_the_stake() {
    let hands = vec![vec![n(10, Suit::Diamonds), n(7, Suit::Clubs)]];
    let dealer = vec![n(10, Suit::Hearts), n(9, Suit::Spades)];
    let mut app = table(Vec::new(), hands, dealer, vec![10], 100);
    app.stand();
    assert_eq!(outcomes(&app), vec![Outcome::Lost]);
    assert_eq!(app.total_money, 100);
}

#[test]
fn dealer_draws_while_under_seventeen() {
    // Dealer starts at 5, draws a king (15), draws a 9 (24) and stops busted.
    let deck = vec![n(9, Suit::Diamonds), king(Suit::Hearts)];
    let hands = vec![vec![n(5, Suit::Diamonds), n(4, Suit::Clubs)]];
    let dealer = vec![n(2, Suit::Hearts), n(3, Suit::Spades)];
    let mut app = table(deck, hands, dealer, vec![10], 100);
    app.dealer_turn();
    assert_eq!(app.dealer_hand.len(), 4);
    assert_eq!(BlackjackApp::calculate_hand_value(&app.dealer_hand), 24);
    assert_eq!(outcomes(&app), vec![Outcome::Won]);
}

#[test]
fn dealer_stops_when_shoe_runs_out() {
    let hands = vec![vec![n(10, Suit::Diamonds), n(9, Suit::Clubs)]];
    let dealer = vec![n(2, Suit::Hearts), n(3, Suit::Spades)];
    let mut app = table(Vec::new(), hands, dealer, vec![10], 100);
    app.dealer_turn();
    assert_eq!(app.dealer_hand.len(), 2);
    assert_eq!(outcomes(&app), vec![Outcome::Won]);
}

#[test]
fn settlement_handles_each_hand_in_order() {
    // Dealer stands on 18: hand 0 (19) wins, hand 1 (18) pushes, hand 2 busts.
    let hands = vec![
        vec![n(10, Suit::Diamonds), n(9, Suit::Clubs)],
        vec![n(10, Suit::Clubs), n(8, Suit::Diamonds)],
        vec![n(10, Suit::Spades), n(9, Suit::Hearts), n(5, Suit::Spades)],
    ];
    let dealer = vec![n(10, Suit::Hearts), n(8, Suit::Spades)];
    let mut app = table(Vec::new(), hands, dealer, vec![10, 20, 30], 100);
    app.evaluate_game_outcomes();
    assert_eq!(
        outcomes(&app),
        vec![Outcome::Won, Outcome::Push, Outcome::Busted]
    );
    assert_eq!(app.total_money, 100 + 20 + 20);
}

#[test]
fn new_round_clears_split_hands_and_keeps_first_bet() {
    let hands = vec![
        vec![n(8, Suit::Spades), n(2, Suit::Clubs)],
        vec![n(8, Suit::Hearts), n(5, Suit::Diamonds)],
    ];
    let dealer = vec![king(Suit::Diamonds), n(6, Suit::Diamonds)];
    let mut app = table(Vec::new(), hands, dealer, vec![25, 25], 80);
    app.game_state = GameState::GameOver(vec![Outcome::Lost, Outcome::Lost]);
    app.new_round();
    assert_eq!(app.player_hands.len(), 1);
    assert_eq!(app.player_hands[0].len(), 2);
    assert_eq!(app.dealer_hand.len(), 2);
    assert_eq!(app.deck.len(), 48);
    assert_eq!(app.player_bets, vec![25]);
    assert_eq!(app.total_money, 80);
    assert_eq!(app.current_hand, 0);
    assert!(matches!(app.game_state, GameState::PlayerTurn));
}

#[test]
fn actions_never_duplicate_or_lose_cards() {
    let mut app = BlackjackApp::new();
    app.hit();
    if matches!(app.game_state, GameState::PlayerTurn) {
        app.split();
        app.double_down();
    }
    if matches!(app.game_state, GameState::PlayerTurn) {
        app.stand();
    }
    let mut all: Vec<Card> = app.deck.clone();
    all.extend_from_slice(&app.dealer_hand);
    for hand in &app.player_hands {
        all.extend_from_slice(hand);
    }
    assert_eq!(all.len(), 52);
    for i in 0..all.len() {
        for j in (i + 1)..all.len() {
            assert!(all[i] != all[j]);
        }
    }
}

#[test]
fn summary_lists_every_hand_in_order() {
    let hands = vec![
        vec![n(10, Suit::Diamonds), n(9, Suit::Clubs)],
        vec![n(10, Suit::Clubs), n(8, Suit::Diamonds)],
        vec![n(10, Suit::Spades), n(9, Suit::Hearts), n(5, Suit::Spades)],
        vec![n(10, Suit::Hearts), n(7, Suit::Hearts)],
    ];
    let dealer = vec![n(10, Suit::Hearts), n(8, Suit::Spades)];
    let mut app = table(Vec::new(), hands, dealer, vec![10, 10, 10, 10], 100);
    app.evaluate_game_outcomes();
    assert_eq!(
        app.outcome_summary(),
        "Round Over: Hand 1 Won! Hand 2 Push. Hand 3 Busted. Hand 4 Lost. "
    );
}

#[test]
fn summary_renders_two_digit_hand_numbers() {
    let mut hands: Vec<Vec<Card>> = Vec::new();
    for _ in 0..12 {
        hands.push(vec![n(10, Suit::Diamonds), n(9, Suit::Clubs)]);
    }
    let dealer = vec![n(10, Suit::Hearts), n(8, Suit::Spades)];
    let mut app = table(Vec::new(), hands, dealer, vec![10; 12], 100);
    app.evaluate_game_outcomes();
    let text = app.outcome_summary();
    assert!(text.ends_with("Hand 12 Won! "));
}

#[test]
fn default_matches_new() {
    let app = BlackjackApp::default();
    assert_eq!(app.total_money, 100);
    assert_eq!(app.player_bets, vec![10]);
    assert_eq!(app.player_hands.len(), 1);
    assert!(matches!(app.game_state, GameState::PlayerTurn));
}
