//! The game engine: one aggregate owning the shoe, hands, bets, bankroll and
//! phase, mutated only by the action methods, each of which runs to
//! completion and leaves the engine in a consistent phase.

use vstd::prelude::*;
use vstd::seq_lib::group_to_multiset_ensures;
use vstd::seq_lib::lemma_multiset_commutative;
use vstd::multiset::Multiset;
use rand::seq::SliceRandom;
use crate::card::{Card, Suit, Value, card_points};

verus! {

broadcast use group_to_multiset_ensures, vstd::multiset::group_multiset_axioms;

/// Relies on rand's `SliceRandom::shuffle`: an in-place Fisher-Yates shuffle
/// that only swaps elements of the slice, so the result is a permutation of
/// the input.
#[verifier::external_body]
fn shuffle_cards(deck: &mut Vec<Card>)
    ensures
        final(deck)@.to_multiset() == old(deck)@.to_multiset(),
        final(deck)@.len() == old(deck)@.len(),
{
    deck.as_mut_slice().shuffle(&mut rand::thread_rng());
}

/// A permutation of a duplicate-free sequence is itself duplicate-free.
pub proof fn lemma_permutation_no_dup(a: Seq<Card>, b: Seq<Card>)
    requires
        a.to_multiset() == b.to_multiset(),
        a.no_duplicates(),
    ensures
        b.no_duplicates(),
{
    a.lemma_multiset_has_no_duplicates();
    b.lemma_multiset_has_no_duplicates_conv();
}

/// A permutation of a sequence of valid cards holds only valid cards.
pub proof fn lemma_permutation_valid(a: Seq<Card>, b: Seq<Card>)
    requires
        a.to_multiset() == b.to_multiset(),
        valid_cards(a),
    ensures
        valid_cards(b),
{
    assert forall|i: int| 0 <= i < b.len() implies (#[trigger] b[i]).valid() by {
        assert(b.contains(b[i]));
        assert(b.to_multiset().count(b[i]) > 0);
        assert(a.contains(b[i]));
    }
}

/// One suit's thirteen ranks, in deck-building order: 2..10, J, Q, K, A.
pub open spec fn value_of_index(j: int) -> Value {
    if j <= 8 {
        Value::Number((j + 2) as u8)
    } else if j == 9 {
        Value::Jack
    } else if j == 10 {
        Value::Queen
    } else if j == 11 {
        Value::King
    } else {
        Value::Ace
    }
}

/// The thirteen cards of one suit, in deck-building order.
pub open spec fn suit_run(s: Suit) -> Seq<Card> {
    Seq::new(13, |j: int| Card { value: value_of_index(j), suit: s })
}

/// The unshuffled 52-card deck: four suit runs back to back.
pub open spec fn full_deck() -> Seq<Card> {
    suit_run(Suit::Hearts) + suit_run(Suit::Diamonds) + suit_run(Suit::Clubs) + suit_run(
        Suit::Spades,
    )
}

/// The full deck holds 52 pairwise distinct, valid cards.
pub proof fn lemma_full_deck_properties()
    ensures
        full_deck().len() == 52,
        full_deck().no_duplicates(),
        forall|i: int| 0 <= i < 52 ==> (#[trigger] full_deck()[i]).valid(),
{
    assert forall|j1: int, j2: int| 0 <= j1 < j2 < 13 implies value_of_index(j1)
        != value_of_index(j2) by {}
    assert forall|i: int, k: int| 0 <= i < k < 52 implies full_deck()[i] != full_deck()[k] by {
        let a = full_deck()[i];
        let b = full_deck()[k];
        if i / 13 == k / 13 {
            assert(a.value != b.value);
        } else {
            assert(a.suit != b.suit);
        }
    }
    assert forall|i: int| 0 <= i < 52 implies (#[trigger] full_deck()[i]).valid() by {}
}

impl BlackjackApp {
    /// Build the unshuffled 52-card deck: 4 suits by 13 ranks, no jokers.
    pub fn create_deck() -> (deck: Vec<Card>)
        ensures
            deck@ == full_deck(),
    {
        let mut deck: Vec<Card> = Vec::new();
        Self::push_suit(&mut deck, Suit::Hearts);
        Self::push_suit(&mut deck, Suit::Diamonds);
        Self::push_suit(&mut deck, Suit::Clubs);
        Self::push_suit(&mut deck, Suit::Spades);
        assert(deck@ =~= full_deck());
        deck
    }

    /// Append the thirteen cards of one suit to the deck under construction.
    fn push_suit(deck: &mut Vec<Card>, s: Suit)
        ensures
            final(deck)@ == old(deck)@ + suit_run(s),
    {
        let ghost start = deck@;
        for j in 0..13usize
            invariant
                deck@ == start + suit_run(s).take(j as int),
        {
            let v: Value = if j <= 8 {
                Value::Number((j + 2) as u8)
            } else if j == 9 {
                Value::Jack
            } else if j == 10 {
                Value::Queen
            } else if j == 11 {
                Value::King
            } else {
                Value::Ace
            };
            deck.push(Card { value: v, suit: s });
            assert(deck@ =~= start + suit_run(s).take(j + 1 as int));
        }
        assert(deck@ =~= start + suit_run(s));
    }
}

/// The set of phases a round moves through. The dealer's turn runs to
/// completion inside the triggering action, so `DealerTurn` is only ever
/// observed transiently; a finished round carries one outcome per hand.
pub enum GameState {
    Betting,
    PlayerTurn,
    DealerTurn,
    GameOver(Vec<Outcome>),
}

/// Settlement result of a single player hand.
#[derive(Clone, Copy, PartialEq, Eq, Structural, Debug)]
pub enum Outcome {
    Busted,
    Won,
    Push,
    Lost,
}

/// What an action method reports: carried out, refused because the shoe had
/// no card to draw, or refused as illegal (wrong phase, bad preconditions or
/// insufficient funds). A refused action leaves the engine unchanged.
#[derive(Clone, Copy, PartialEq, Eq, Structural, Debug)]
pub enum ActionStatus {
    Accepted,
    ShoeDepleted,
    IllegalAction,
}

pub struct BlackjackApp {
    pub deck: Vec<Card>,
    pub player_hands: Vec<Vec<Card>>,
    pub dealer_hand: Vec<Card>,
    pub current_hand: usize,
    pub game_state: GameState,
    pub player_bets: Vec<usize>,
    pub total_money: usize,
}

/// Every card of the sequence is a valid card.
pub open spec fn valid_cards(cards: Seq<Card>) -> bool {
    forall|i: int| 0 <= i < cards.len() ==> (#[trigger] cards[i]).valid()
}

/// Every hand of the sequence holds only valid cards.
pub open spec fn valid_hands(hands: Seq<Vec<Card>>) -> bool {
    forall|i: int| 0 <= i < hands.len() ==> valid_cards(#[trigger] hands[i]@)
}

/// Total number of cards across all player hands.
pub open spec fn player_card_count(hands: Seq<Vec<Card>>) -> nat
    decreases hands.len(),
{
    if hands.len() == 0 {
        0
    } else {
        player_card_count(hands.drop_last()) + hands.last()@.len()
    }
}

pub proof fn lemma_card_count_hand(hands: Seq<Vec<Card>>, i: int)
    requires
        0 <= i < hands.len(),
    ensures
        hands[i]@.len() <= player_card_count(hands),
    decreases hands.len(),
{
    if i < hands.len() - 1 {
        lemma_card_count_hand(hands.drop_last(), i);
    }
}

/// Replacing the hand at index `i` changes the card count by the difference
/// of the two hand lengths.
pub proof fn lemma_card_count_update(hands: Seq<Vec<Card>>, hands2: Seq<Vec<Card>>, i: int)
    requires
        hands.len() == hands2.len(),
        0 <= i < hands.len(),
        forall|j: int| 0 <= j < hands.len() && j != i ==> hands2[j] == hands[j],
    ensures
        player_card_count(hands2) + hands[i]@.len() == player_card_count(hands) + hands2[i]@.len(),
    decreases hands.len(),
{
    if i == hands.len() - 1 {
        assert(hands2.drop_last() =~= hands.drop_last());
    } else {
        assert(hands2.drop_last().len() == hands.drop_last().len());
        lemma_card_count_update(hands.drop_last(), hands2.drop_last(), i);
    }
}

pub proof fn lemma_card_count_push(hands: Seq<Vec<Card>>, hand: Vec<Card>)
    ensures
        player_card_count(hands.push(hand)) == player_card_count(hands) + hand@.len(),
{
    assert(hands.push(hand).drop_last() =~= hands);
}

// ---------------------------------------------------------------------------
// Scoring
// ---------------------------------------------------------------------------

/// Sum of the base point values of all non-Ace cards of a hand.
pub open spec fn non_ace_total(cards: Seq<Card>) -> int
    decreases cards.len(),
{
    if cards.len() == 0 {
        0
    } else {
        non_ace_total(cards.drop_last()) + (if cards.last().value is Ace {
            0
        } else {
            card_points(cards.last().value)
        })
    }
}

/// Number of Aces in a hand.
pub open spec fn ace_count(cards: Seq<Card>) -> nat
    decreases cards.len(),
{
    if cards.len() == 0 {
        0
    } else {
        ace_count(cards.drop_last()) + (if cards.last().value is Ace {
            1nat
        } else {
            0
        })
    }
}

/// Greedy per-Ace resolution: each Ace in turn adds 11 if that keeps the
/// running total at most 21, else adds 1, with no look-ahead across later
/// Aces.
pub open spec fn resolve_aces(total: int, aces: nat) -> int
    decreases aces,
{
    if aces == 0 {
        total
    } else {
        resolve_aces(
            if total + 11 > 21 {
                total + 1
            } else {
                total + 11
            },
            (aces - 1) as nat,
        )
    }
}

/// Score of a hand: all non-Ace values summed first, then each Ace resolved
/// greedily against the running total. A pure function of the card sequence
/// alone, independent of any other engine state.
pub open spec fn hand_value(cards: Seq<Card>) -> int {
    resolve_aces(non_ace_total(cards), ace_count(cards))
}

impl BlackjackApp {
    /// Score a hand: sum the non-Ace base values, then resolve each Ace in
    /// encounter order, adding 11 where the running total stays at most 21
    /// and 1 otherwise. The result is reproducible from the card sequence
    /// alone.
    pub fn calculate_hand_value(hand: &Vec<Card>) -> (score: usize)
        requires
            valid_cards(hand@),
            11 * hand@.len() <= usize::MAX,
        ensures
            score as int == hand_value(hand@),
    {
        let n = hand.len();
        let mut value: usize = 0;
        let mut aces: usize = 0;
        for i in 0..n
            invariant
                n == hand@.len(),
                valid_cards(hand@),
                11 * n <= usize::MAX,
                value == non_ace_total(hand@.take(i as int)),
                aces == ace_count(hand@.take(i as int)),
                value <= 10 * (i - aces),
                aces <= i,
        {
            proof {
                assert(hand@.take(i + 1int).drop_last() =~= hand@.take(i as int));
                assert(hand@.take(i + 1int).last() == hand@[i as int]);
                assert(hand@[i as int].valid());
            }
            match hand[i].value {
                Value::Ace => {
                    aces = aces + 1;
                },
                _ => {
                    value = value + hand[i].value() as usize;
                },
            }
        }
        proof {
            assert(hand@.take(n as int) =~= hand@);
        }
        let ghost goal = hand_value(hand@);
        let total_aces = aces;
        let mut k: usize = 0;
        while k < total_aces
            invariant
                k <= total_aces,
                total_aces == ace_count(hand@),
                total_aces <= hand@.len(),
                11 * hand@.len() <= usize::MAX,
                value <= 10 * (hand@.len() - total_aces) + 11 * k,
                resolve_aces(value as int, (total_aces - k) as nat) == goal,
            decreases total_aces - k,
        {
            if value + 11 > 21 {
                value = value + 1;
            } else {
                value = value + 11;
            }
            k = k + 1;
        }
        value
    }
}

// ---------------------------------------------------------------------------
// Well-formedness and round start
// ---------------------------------------------------------------------------

/// All cards of the round: remaining shoe, then dealer hand, then every
/// player hand in order.
pub open spec fn cards_in_play(app: BlackjackApp) -> Seq<Card> {
    app.deck@ + app.dealer_hand@ + flatten_hands(app.player_hands@)
}

/// The concatenation of all player hands, in hand order.
pub open spec fn flatten_hands(hands: Seq<Vec<Card>>) -> Seq<Card>
    decreases hands.len(),
{
    if hands.len() == 0 {
        Seq::empty()
    } else {
        flatten_hands(hands.drop_last()) + hands.last()@
    }
}

/// The multiset of cards across all player hands.
pub open spec fn hands_multiset(hands: Seq<Vec<Card>>) -> Multiset<Card>
    decreases hands.len(),
{
    if hands.len() == 0 {
        Multiset::empty()
    } else {
        hands_multiset(hands.drop_last()).add(hands.last()@.to_multiset())
    }
}

/// The multiset of all cards in play, split by owner.
pub open spec fn play_multiset(app: BlackjackApp) -> Multiset<Card> {
    app.deck@.to_multiset().add(app.dealer_hand@.to_multiset()).add(
        hands_multiset(app.player_hands@),
    )
}

pub proof fn lemma_flatten_multiset(hands: Seq<Vec<Card>>)
    ensures
        flatten_hands(hands).to_multiset() == hands_multiset(hands),
    decreases hands.len(),
{
    if hands.len() > 0 {
        lemma_flatten_multiset(hands.drop_last());
        lemma_multiset_commutative(flatten_hands(hands.drop_last()), hands.last()@);
    }
}

/// The cards in play, counted with multiplicity, are the same whether read
/// off the one concatenated sequence or owner by owner.
pub proof fn lemma_cards_in_play_multiset(app: BlackjackApp)
    ensures
        cards_in_play(app).to_multiset() == play_multiset(app),
{
    lemma_multiset_commutative(app.deck@ + app.dealer_hand@, flatten_hands(app.player_hands@));
    lemma_multiset_commutative(app.deck@, app.dealer_hand@);
    lemma_flatten_multiset(app.player_hands@);
}

/// Replacing the hand at index `i` exchanges exactly that hand's cards in
/// the combined multiset.
pub proof fn lemma_hands_multiset_update(hands: Seq<Vec<Card>>, hands2: Seq<Vec<Card>>, i: int)
    requires
        hands.len() == hands2.len(),
        0 <= i < hands.len(),
        forall|j: int| 0 <= j < hands.len() && j != i ==> hands2[j] == hands[j],
    ensures
        hands_multiset(hands2).add(hands[i]@.to_multiset()) == hands_multiset(hands).add(
            hands2[i]@.to_multiset(),
        ),
    decreases hands.len(),
{
    let x1 = hands[i]@.to_multiset();
    let x2 = hands2[i]@.to_multiset();
    if i == hands.len() - 1 {
        let d = hands_multiset(hands.drop_last());
        assert(hands2.drop_last() =~= hands.drop_last());
        assert(hands_multiset(hands2) == d.add(x2));
        assert(hands_multiset(hands) == d.add(x1));
        assert(d.add(x2).add(x1) =~= d.add(x1).add(x2));
    } else {
        let d = hands_multiset(hands.drop_last());
        let d2 = hands_multiset(hands2.drop_last());
        let l = hands.last()@.to_multiset();
        assert(hands2.drop_last().len() == hands.drop_last().len());
        lemma_hands_multiset_update(hands.drop_last(), hands2.drop_last(), i);
        assert(d2.add(x1) == d.add(x2));
        assert(hands2.last() == hands.last());
        assert(hands_multiset(hands2) == d2.add(l));
        assert(hands_multiset(hands) == d.add(l));
        assert(d2.add(l).add(x1) =~= d2.add(x1).add(l));
        assert(d.add(x2).add(l) =~= d.add(l).add(x2));
    }
}

pub proof fn lemma_hands_multiset_push(hands: Seq<Vec<Card>>, hand: Vec<Card>)
    ensures
        hands_multiset(hands.push(hand)) == hands_multiset(hands).add(hand@.to_multiset()),
{
    assert(hands.push(hand).drop_last() =~= hands);
}

/// The invariant a round keeps from deal to settlement: every action
/// conserves the cards in play, so they stay a duplicate-free permutation of
/// the one 52-card shoe the round was dealt from -- no card ever appears
/// twice across the hands and the remaining shoe.
pub proof fn lemma_round_cards_invariant(pre: BlackjackApp, post: BlackjackApp)
    requires
        cards_in_play(pre).to_multiset() == full_deck().to_multiset(),
        play_multiset(post) == play_multiset(pre),
    ensures
        cards_in_play(post).to_multiset() == full_deck().to_multiset(),
        cards_in_play(post).no_duplicates(),
{
    lemma_cards_in_play_multiset(pre);
    lemma_cards_in_play_multiset(post);
    lemma_full_deck_properties();
    lemma_permutation_no_dup(full_deck(), cards_in_play(post));
}

impl BlackjackApp {
    /// Structural invariant of the engine: one bet per hand, at least one
    /// hand, a valid active-hand index, no more than the 52 cards of one
    /// shoe in play, and only valid cards anywhere.
    pub open spec fn wf(self) -> bool {
        &&& self.player_hands@.len() == self.player_bets@.len()
        &&& self.player_hands@.len() >= 1
        &&& (self.current_hand as int) < self.player_hands@.len()
        &&& self.deck@.len() + self.dealer_hand@.len() + player_card_count(self.player_hands@)
            <= 52
        &&& valid_cards(self.deck@)
        &&& valid_cards(self.dealer_hand@)
        &&& valid_hands(self.player_hands@)
    }
}

/// What `new_round` guarantees: a single 2-card player hand, a 2-card dealer
/// hand, 48 cards left in the shoe, the player to act on hand 0, and the 52
/// cards in play a duplicate-free permutation of the full deck.
pub open spec fn round_started(app: BlackjackApp) -> bool {
    &&& app.player_hands@.len() == 1
    &&& app.player_hands@[0]@.len() == 2
    &&& app.dealer_hand@.len() == 2
    &&& app.deck@.len() == 48
    &&& app.current_hand == 0
    &&& app.game_state is PlayerTurn
    &&& app.player_bets@.len() == 1
    &&& cards_in_play(app).to_multiset() == full_deck().to_multiset()
    &&& cards_in_play(app).no_duplicates()
}

impl BlackjackApp {
    /// Discard the old shoe, build and shuffle a fresh 52-card one, deal two
    /// cards to a single player hand and two to the dealer, and enter the
    /// player's turn. The bet of the first hand carries over; split hands
    /// from the prior round are cleared.
    pub fn new_round(&mut self)
        requires
            old(self).wf(),
        ensures
            final(self).wf(),
            round_started(*final(self)),
            final(self).total_money == old(self).total_money,
            final(self).player_bets@ == seq![old(self).player_bets@[0]],
    {
        let first_bet = self.player_bets[0];
        self.deck = Self::create_deck();
        shuffle_cards(&mut self.deck);
        let ghost shuffled = self.deck@;
        proof {
            lemma_full_deck_properties();
            lemma_permutation_no_dup(full_deck(), shuffled);
            lemma_permutation_valid(full_deck(), shuffled);
        }
        let p1 = self.deck.pop().unwrap();
        let p2 = self.deck.pop().unwrap();
        let mut first_hand: Vec<Card> = Vec::new();
        first_hand.push(p1);
        first_hand.push(p2);
        self.player_hands = Vec::new();
        self.player_hands.push(first_hand);
        let d1 = self.deck.pop().unwrap();
        let d2 = self.deck.pop().unwrap();
        let mut dealer: Vec<Card> = Vec::new();
        dealer.push(d1);
        dealer.push(d2);
        self.dealer_hand = dealer;
        self.current_hand = 0;
        self.game_state = GameState::PlayerTurn;
        let mut bets: Vec<usize> = Vec::new();
        bets.push(first_bet);
        self.player_bets = bets;
        proof {
            assert(self.player_bets@ =~= seq![old(self).player_bets@[0]]);
            assert(self.deck@ =~= shuffled.take(48));
            let hands = self.player_hands@;
            assert(hands.drop_last() =~= Seq::<Vec<Card>>::empty());
            assert(player_card_count(Seq::<Vec<Card>>::empty()) == 0);
            assert(flatten_hands(Seq::<Vec<Card>>::empty()) =~= Seq::<Card>::empty());
            assert(hands.last()@ =~= seq![shuffled[51], shuffled[50]]);
            assert(player_card_count(hands) == 2);
            assert(flatten_hands(hands) =~= seq![shuffled[51], shuffled[50]]);
            let all = cards_in_play(*self);
            assert(all =~= shuffled.take(48) + seq![shuffled[49], shuffled[48]] + seq![
                shuffled[51],
                shuffled[50],
            ]);
            assert(shuffled =~= shuffled.take(48).push(shuffled[48]).push(shuffled[49]).push(
                shuffled[50],
            ).push(shuffled[51]));
            assert(all =~= shuffled.take(48).push(shuffled[49]).push(shuffled[48]).push(
                shuffled[51],
            ).push(shuffled[50]));
            assert(all.to_multiset() =~= shuffled.to_multiset());
            lemma_permutation_no_dup(shuffled, all);
            lemma_permutation_valid(shuffled, all);
            assert(valid_cards(self.deck@)) by {
                assert(forall|i: int| 0 <= i < 48 ==> all[i] == self.deck@[i]);
            }
            assert(valid_cards(self.dealer_hand@)) by {
                assert(self.dealer_hand@[0] == all[48]);
                assert(self.dealer_hand@[1] == all[49]);
            }
            assert(valid_hands(hands)) by {
                assert(hands[0]@[0] == all[50]);
                assert(hands[0]@[1] == all[51]);
            }
        }
    }

    /// A fresh engine: bankroll of 100, an initial bet of 10, and a first
    /// round already dealt.
    pub fn new() -> (app: BlackjackApp)
        ensures
            app.wf(),
            round_started(app),
            app.total_money == 100,
            app.player_bets@ == seq![10usize],
    {
        let mut empty_hand: Vec<Vec<Card>> = Vec::new();
        empty_hand.push(Vec::new());
        let mut bets: Vec<usize> = Vec::new();
        bets.push(10);
        let mut app = BlackjackApp {
            deck: Vec::new(),
            player_hands: empty_hand,
            dealer_hand: Vec::new(),
            current_hand: 0,
            game_state: GameState::Betting,
            player_bets: bets,
            total_money: 100,
        };
        proof {
            assert(app.player_hands@.drop_last() =~= Seq::<Vec<Card>>::empty());
            assert(player_card_count(Seq::<Vec<Card>>::empty()) == 0);
            assert(player_card_count(app.player_hands@) == 0);
        }
        app.new_round();
        app
    }
}

// ---------------------------------------------------------------------------
// Dealer policy and settlement
// ---------------------------------------------------------------------------

/// Dealer policy: draw from the end of the shoe while the dealer's score is
/// strictly below 17, stopping early if the shoe runs out. Returns the
/// remaining shoe and the final dealer hand.
pub open spec fn dealer_result(deck: Seq<Card>, dealer: Seq<Card>) -> (Seq<Card>, Seq<Card>)
    decreases deck.len(),
{
    if hand_value(dealer) >= 17 || deck.len() == 0 {
        (deck, dealer)
    } else {
        dealer_result(deck.drop_last(), dealer.push(deck.last()))
    }
}

/// Settlement of one hand against the dealer's score: a busted hand forfeits
/// its stake; otherwise the hand wins when the dealer busts or it outscores
/// the dealer, pushes on a tie, and loses when the dealer outscores it.
pub open spec fn outcome_of(hand_score: int, dealer_score: int) -> Outcome {
    if hand_score > 21 {
        Outcome::Busted
    } else if dealer_score > 21 || hand_score > dealer_score {
        Outcome::Won
    } else if hand_score == dealer_score {
        Outcome::Push
    } else {
        Outcome::Lost
    }
}

/// One outcome per player hand, in hand order.
pub open spec fn outcomes_of(hands: Seq<Vec<Card>>, dealer_score: int) -> Seq<Outcome> {
    Seq::new(hands.len(), |i: int| outcome_of(hand_value(hands[i]@), dealer_score))
}

/// What settlement pays back into the bankroll: twice the bet on a win, the
/// bet itself on a push, nothing otherwise.
pub open spec fn payout(outcome: Outcome, bet: nat) -> nat {
    match outcome {
        Outcome::Won => 2 * bet,
        Outcome::Push => bet,
        Outcome::Busted => 0,
        Outcome::Lost => 0,
    }
}

/// Bankroll addition, capped at the bankroll type's maximum.
pub open spec fn sat_add(a: nat, b: nat) -> nat {
    if a + b > usize::MAX {
        usize::MAX as nat
    } else {
        a + b
    }
}

/// The bankroll after settling every hand in order against the dealer's
/// score.
pub open spec fn settled_money(
    money: nat,
    hands: Seq<Vec<Card>>,
    bets: Seq<usize>,
    dealer_score: int,
) -> nat
    decreases hands.len(),
{
    if hands.len() == 0 {
        money
    } else {
        settled_money(
            sat_add(
                money,
                payout(outcome_of(hand_value(hands.first()@), dealer_score), bets.first() as nat),
            ),
            hands.drop_first(),
            bets.drop_first(),
            dealer_score,
        )
    }
}

/// The player-side state the dealer's turn and settlement never touch.
pub open spec fn player_state_unchanged(pre: BlackjackApp, post: BlackjackApp) -> bool {
    &&& post.player_hands == pre.player_hands
    &&& post.player_bets == pre.player_bets
    &&& post.current_hand == pre.current_hand
}

/// Post-state of running the dealer policy from the given shoe and dealer
/// hand and then settling: the round is over, carrying one outcome per hand,
/// and the bankroll has received each hand's payout in order.
pub open spec fn dealer_settled(
    deck0: Seq<Card>,
    dealer0: Seq<Card>,
    money0: nat,
    post: BlackjackApp,
) -> bool {
    let drawn = dealer_result(deck0, dealer0);
    let score = hand_value(drawn.1);
    &&& post.deck@ == drawn.0
    &&& post.dealer_hand@ == drawn.1
    &&& (post.game_state matches GameState::GameOver(outs) && outs@ == outcomes_of(
        post.player_hands@,
        score,
    ))
    &&& post.total_money as nat == settled_money(
        money0,
        post.player_hands@,
        post.player_bets@,
        score,
    )
}

fn add_capped(a: usize, b: usize) -> (r: usize)
    ensures
        r as nat == sat_add(a as nat, b as nat),
{
    if a <= usize::MAX - b {
        a + b
    } else {
        usize::MAX
    }
}

fn apply_payout(money: usize, outcome: Outcome, bet: usize) -> (r: usize)
    ensures
        r as nat == sat_add(money as nat, payout(outcome, bet as nat)),
{
    match outcome {
        Outcome::Won => {
            let r = add_capped(add_capped(money, bet), bet);
            assert(r as nat == sat_add(money as nat, 2 * bet as nat));
            r
        },
        Outcome::Push => add_capped(money, bet),
        Outcome::Busted => money,
        Outcome::Lost => money,
    }
}

impl BlackjackApp {
    /// Settle every player hand against the dealer's final score, pay the
    /// bankroll, and end the round with one outcome per hand.
    pub fn evaluate_game_outcomes(&mut self)
        requires
            old(self).wf(),
        ensures
            final(self).wf(),
            final(self).deck == old(self).deck,
            final(self).dealer_hand == old(self).dealer_hand,
            player_state_unchanged(*old(self), *final(self)),
            (final(self).game_state matches GameState::GameOver(outs) && outs@ == outcomes_of(
                old(self).player_hands@,
                hand_value(old(self).dealer_hand@),
            )),
            final(self).total_money as nat == settled_money(
                old(self).total_money as nat,
                old(self).player_hands@,
                old(self).player_bets@,
                hand_value(old(self).dealer_hand@),
            ),
            play_multiset(*final(self)) == play_multiset(*old(self)),
    {
        let ghost pre = *self;
        let ghost dv = hand_value(pre.dealer_hand@);
        let dealer_value = Self::calculate_hand_value(&self.dealer_hand);
        let mut outcomes: Vec<Outcome> = Vec::new();
        let n = self.player_hands.len();
        let mut i: usize = 0;
        proof {
            assert(pre.player_hands@.skip(0) =~= pre.player_hands@);
            assert(pre.player_bets@.skip(0) =~= pre.player_bets@);
        }
        while i < n
            invariant
                i <= n,
                n == self.player_hands@.len(),
                pre.wf(),
                self.player_hands == pre.player_hands,
                self.player_bets == pre.player_bets,
                self.deck == pre.deck,
                self.dealer_hand == pre.dealer_hand,
                self.current_hand == pre.current_hand,
                dealer_value as int == dv,
                outcomes@.len() == i,
                forall|k: int|
                    0 <= k < i ==> outcomes@[k] == outcome_of(
                        hand_value(pre.player_hands@[k]@),
                        dv,
                    ),
                settled_money(
                    self.total_money as nat,
                    pre.player_hands@.skip(i as int),
                    pre.player_bets@.skip(i as int),
                    dv,
                ) == settled_money(pre.total_money as nat, pre.player_hands@, pre.player_bets@, dv),
            decreases n - i,
        {
            proof {
                lemma_card_count_hand(pre.player_hands@, i as int);
            }
            let hand_score = Self::calculate_hand_value(&self.player_hands[i]);
            let outcome = if hand_score > 21 {
                Outcome::Busted
            } else if dealer_value > 21 || hand_score > dealer_value {
                Outcome::Won
            } else if hand_score == dealer_value {
                Outcome::Push
            } else {
                Outcome::Lost
            };
            let bet = self.player_bets[i];
            proof {
                assert(pre.player_hands@.skip(i as int).first() == pre.player_hands@[i as int]);
                assert(pre.player_hands@.skip(i as int).drop_first() =~= pre.player_hands@.skip(
                    i + 1int,
                ));
                assert(pre.player_bets@.skip(i as int).first() == pre.player_bets@[i as int]);
                assert(pre.player_bets@.skip(i as int).drop_first() =~= pre.player_bets@.skip(
                    i + 1int,
                ));
            }
            self.total_money = apply_payout(self.total_money, outcome, bet);
            outcomes.push(outcome);
            i = i + 1;
        }
        proof {
            assert(pre.player_hands@.skip(n as int) =~= Seq::<Vec<Card>>::empty());
            assert(pre.player_bets@.skip(n as int) =~= Seq::<usize>::empty());
            assert(outcomes@ =~= outcomes_of(pre.player_hands@, dv));
        }
        self.game_state = GameState::GameOver(outcomes);
    }

    /// Run the dealer's turn: draw while the dealer scores below 17 and the
    /// shoe is not empty, then settle the round.
    pub fn dealer_turn(&mut self)
        requires
            old(self).wf(),
        ensures
            final(self).wf(),
            player_state_unchanged(*old(self), *final(self)),
            dealer_settled(
                old(self).deck@,
                old(self).dealer_hand@,
                old(self).total_money as nat,
                *final(self),
            ),
            play_multiset(*final(self)) == play_multiset(*old(self)),
    {
        let ghost pre = *self;
        while self.deck.len() != 0 && Self::calculate_hand_value(&self.dealer_hand) < 17
            invariant
                self.wf(),
                self.player_hands == pre.player_hands,
                self.player_bets == pre.player_bets,
                self.current_hand == pre.current_hand,
                self.total_money == pre.total_money,
                self.game_state == pre.game_state,
                dealer_result(self.deck@, self.dealer_hand@) == dealer_result(
                    pre.deck@,
                    pre.dealer_hand@,
                ),
                play_multiset(*self) == play_multiset(pre),
            decreases self.deck@.len(),
        {
            let ghost deck0 = self.deck@;
            let ghost dealer0 = self.dealer_hand@;
            let ghost played0 = play_multiset(*self);
            let card = self.deck.pop().unwrap();
            self.dealer_hand.push(card);
            proof {
                assert(self.deck@ =~= deck0.drop_last());
                assert(deck0.drop_last() =~= deck0.remove(deck0.len() - 1));
                assert(self.deck@.to_multiset() == deck0.to_multiset().remove(deck0.last()));
                assert(deck0.contains(deck0.last()));
                assert(self.dealer_hand@.to_multiset() == dealer0.to_multiset().insert(
                    deck0.last(),
                ));
                assert(play_multiset(*self) =~= played0);
                assert(self.dealer_hand@ == dealer0.push(deck0.last()));
                assert(dealer_result(deck0, dealer0) == dealer_result(
                    self.deck@,
                    self.dealer_hand@,
                ));
                assert(valid_cards(self.deck@));
                assert(valid_cards(self.dealer_hand@)) by {
                    assert(deck0.last().valid());
                    assert(forall|i: int|
                        0 <= i < dealer0.len() ==> self.dealer_hand@[i] == dealer0[i]);
                }
            }
        }
        proof {
            assert(dealer_result(self.deck@, self.dealer_hand@) == (
                self.deck@,
                self.dealer_hand@,
            ));
        }
        self.evaluate_game_outcomes();
    }
}

// ---------------------------------------------------------------------------
// The round-over summary message
// ---------------------------------------------------------------------------

/// The decimal digit characters.
pub open spec fn digit_char(d: nat) -> char {
    if d == 0 {
        '0'
    } else if d == 1 {
        '1'
    } else if d == 2 {
        '2'
    } else if d == 3 {
        '3'
    } else if d == 4 {
        '4'
    } else if d == 5 {
        '5'
    } else if d == 6 {
        '6'
    } else if d == 7 {
        '7'
    } else if d == 8 {
        '8'
    } else {
        '9'
    }
}

/// The decimal rendering of a number, most significant digit first.
pub open spec fn dec_digits(n: nat) -> Seq<char>
    decreases n,
{
    if n < 10 {
        seq![digit_char(n)]
    } else {
        dec_digits(n / 10).push(digit_char(n % 10))
    }
}

/// The summary word for one hand's outcome, with its punctuation.
pub open spec fn outcome_word(outcome: Outcome) -> Seq<char> {
    match outcome {
        Outcome::Busted => "Busted."@,
        Outcome::Won => "Won!"@,
        Outcome::Push => "Push."@,
        Outcome::Lost => "Lost."@,
    }
}

/// One hand's entry in the summary: "Hand ", its 1-based number, the
/// outcome word, all blank-separated and blank-terminated.
pub open spec fn hand_entry(number: nat, outcome: Outcome) -> Seq<char> {
    "Hand "@ + dec_digits(number) + " "@ + outcome_word(outcome) + " "@
}

/// The entries of all hands, in hand order.
pub open spec fn summary_entries(outs: Seq<Outcome>) -> Seq<char>
    decreases outs.len(),
{
    if outs.len() == 0 {
        Seq::empty()
    } else {
        summary_entries(outs.drop_last()) + hand_entry(outs.len() as nat, outs.last())
    }
}

/// The combined round-over message listing every hand's outcome in order.
pub open spec fn summary_of(outs: Seq<Outcome>) -> Seq<char> {
    "Round Over: "@ + summary_entries(outs)
}

fn digit_str(d: usize) -> (s: &'static str)
    requires
        d < 10,
    ensures
        s@ == seq![digit_char(d as nat)],
{
    proof {
        reveal_strlit("0");
        reveal_strlit("1");
        reveal_strlit("2");
        reveal_strlit("3");
        reveal_strlit("4");
        reveal_strlit("5");
        reveal_strlit("6");
        reveal_strlit("7");
        reveal_strlit("8");
        reveal_strlit("9");
    }
    let s: &'static str = if d == 0 {
        "0"
    } else if d == 1 {
        "1"
    } else if d == 2 {
        "2"
    } else if d == 3 {
        "3"
    } else if d == 4 {
        "4"
    } else if d == 5 {
        "5"
    } else if d == 6 {
        "6"
    } else if d == 7 {
        "7"
    } else if d == 8 {
        "8"
    } else {
        "9"
    };
    assert(s@ =~= seq![digit_char(d as nat)]);
    s
}

fn dec_string(n: usize) -> (s: String)
    ensures
        s@ == dec_digits(n as nat),
    decreases n,
{
    if n < 10 {
        String::from_str(digit_str(n))
    } else {
        let mut s = dec_string(n / 10);
        s.append(digit_str(n % 10));
        proof {
            assert(s@ =~= dec_digits(n as nat / 10).push(digit_char(n as nat % 10)));
        }
        s
    }
}

impl BlackjackApp {
    /// The human-readable settlement summary of a finished round, e.g.
    /// "Round Over: Hand 1 Won! Hand 2 Push. ".
    pub fn outcome_summary(&self) -> (text: String)
        requires
            self.game_state is GameOver,
        ensures
            (self.game_state matches GameState::GameOver(outs) ==> text@ == summary_of(outs@)),
    {
        let outs: &Vec<Outcome> = match &self.game_state {
            GameState::GameOver(outs) => outs,
            _ => {
                return String::new();
            },
        };
        let mut text = String::from_str("Round Over: ");
        let ghost head = "Round Over: "@;
        let n = outs.len();
        let mut i: usize = 0;
        proof {
            assert(outs@.take(0) =~= Seq::<Outcome>::empty());
            assert(text@ =~= head + summary_entries(outs@.take(0)));
        }
        while i < n
            invariant
                i <= n,
                n == outs@.len(),
                text@ == head + summary_entries(outs@.take(i as int)),
            decreases n - i,
        {
            let outcome = outs[i];
            text.append("Hand ");
            let number = dec_string(i + 1);
            text.append(number.as_str());
            text.append(" ");
            let word: &'static str = match outcome {
                Outcome::Busted => "Busted.",
                Outcome::Won => "Won!",
                Outcome::Push => "Push.",
                Outcome::Lost => "Lost.",
            };
            text.append(word);
            text.append(" ");
            proof {
                assert(outs@.take(i + 1int).drop_last() =~= outs@.take(i as int));
                assert(outs@.take(i + 1int).last() == outs@[i as int]);
                assert(text@ =~= head + summary_entries(outs@.take(i + 1int)));
            }
            i = i + 1;
        }
        proof {
            assert(outs@.take(n as int) =~= outs@);
        }
        text
    }
}

// ---------------------------------------------------------------------------
// Player actions
// ---------------------------------------------------------------------------

/// A hand may be split when it holds exactly two cards of equal base point
/// value (the court cards are mutually equal through their shared value of
/// 10; an Ace only equals another Ace).
pub open spec fn splittable(hand: Seq<Card>) -> bool {
    hand.len() == 2 && card_points(hand[0].value) == card_points(hand[1].value)
}

/// Post-state of ending the active hand's turn: if another hand waits after
/// the active one, play moves to it with nothing else changed; otherwise the
/// dealer draws and the round settles.
pub open spec fn turn_advanced(pre: BlackjackApp, post: BlackjackApp) -> bool {
    if pre.current_hand + 1 < pre.player_hands@.len() {
        &&& post.deck == pre.deck
        &&& post.player_hands == pre.player_hands
        &&& post.dealer_hand == pre.dealer_hand
        &&& post.current_hand == pre.current_hand + 1
        &&& post.game_state == pre.game_state
        &&& post.player_bets == pre.player_bets
        &&& post.total_money == pre.total_money
    } else {
        &&& player_state_unchanged(pre, post)
        &&& dealer_settled(pre.deck@, pre.dealer_hand@, pre.total_money as nat, post)
    }
}

/// Full description of `hit`: refused outside the player's turn and on an
/// empty shoe (both leaving the engine unchanged); otherwise the top card of
/// the shoe joins the active hand, and a hand driven over 21 has its turn
/// ended at once, exactly as by `stand`.
pub open spec fn hit_step(pre: BlackjackApp, post: BlackjackApp, status: ActionStatus) -> bool {
    if !(pre.game_state is PlayerTurn) {
        status == ActionStatus::IllegalAction && post == pre
    } else if pre.deck@.len() == 0 {
        status == ActionStatus::ShoeDepleted && post == pre
    } else {
        let cur = pre.current_hand as int;
        let grown = pre.player_hands@[cur]@.push(pre.deck@.last());
        &&& status == ActionStatus::Accepted
        &&& post.player_hands@.len() == pre.player_hands@.len()
        &&& post.player_hands@[cur]@ == grown
        &&& forall|j: int|
            0 <= j < pre.player_hands@.len() && j != cur ==> post.player_hands@[j]
                == pre.player_hands@[j]
        &&& if hand_value(grown) > 21 {
            if cur + 1 < pre.player_hands@.len() {
                &&& post.deck@ == pre.deck@.drop_last()
                &&& post.dealer_hand == pre.dealer_hand
                &&& post.current_hand == pre.current_hand + 1
                &&& post.game_state is PlayerTurn
                &&& post.player_bets == pre.player_bets
                &&& post.total_money == pre.total_money
            } else {
                &&& post.player_bets == pre.player_bets
                &&& post.current_hand == pre.current_hand
                &&& dealer_settled(
                    pre.deck@.drop_last(),
                    pre.dealer_hand@,
                    pre.total_money as nat,
                    post,
                )
            }
        } else {
            &&& post.deck@ == pre.deck@.drop_last()
            &&& post.dealer_hand == pre.dealer_hand
            &&& post.current_hand == pre.current_hand
            &&& post.game_state is PlayerTurn
            &&& post.player_bets == pre.player_bets
            &&& post.total_money == pre.total_money
        }
    }
}

/// Full description of `double_down`: refused outside the player's turn, on
/// insufficient funds, when the doubled bet would not fit the bankroll type,
/// or on an empty shoe; otherwise exactly the active bet leaves the
/// bankroll, the stored bet doubles, one card is drawn, and the hand's turn
/// ends regardless of a bust.
pub open spec fn double_step(pre: BlackjackApp, post: BlackjackApp, status: ActionStatus) -> bool {
    let cur = pre.current_hand as int;
    let bet = pre.player_bets@[cur];
    if !(pre.game_state is PlayerTurn) {
        status == ActionStatus::IllegalAction && post == pre
    } else if pre.total_money < bet {
        status == ActionStatus::IllegalAction && post == pre
    } else if bet > usize::MAX / 2 {
        status == ActionStatus::IllegalAction && post == pre
    } else if pre.deck@.len() == 0 {
        status == ActionStatus::ShoeDepleted && post == pre
    } else {
        let grown = pre.player_hands@[cur]@.push(pre.deck@.last());
        let money1 = (pre.total_money - bet) as nat;
        &&& status == ActionStatus::Accepted
        &&& post.player_hands@.len() == pre.player_hands@.len()
        &&& post.player_hands@[cur]@ == grown
        &&& forall|j: int|
            0 <= j < pre.player_hands@.len() && j != cur ==> post.player_hands@[j]
                == pre.player_hands@[j]
        &&& post.player_bets@ == pre.player_bets@.update(cur, (2 * bet) as usize)
        &&& if cur + 1 < pre.player_hands@.len() {
            &&& post.deck@ == pre.deck@.drop_last()
            &&& post.dealer_hand == pre.dealer_hand
            &&& post.current_hand == pre.current_hand + 1
            &&& post.game_state is PlayerTurn
            &&& post.total_money == money1
        } else {
            &&& post.current_hand == pre.current_hand
            &&& dealer_settled(pre.deck@.drop_last(), pre.dealer_hand@, money1, post)
        }
    }
}

/// Full description of `split`: refused outside the player's turn, on a hand
/// that is not a splittable pair, or on insufficient funds (all silent
/// no-ops); refused without effect when fewer than two cards remain to deal.
/// Otherwise one extra bet unit leaves the bankroll, the active hand keeps
/// its first card and draws a replacement, and a new hand of the removed
/// card plus one fresh card is appended after all existing hands.
pub open spec fn split_step(pre: BlackjackApp, post: BlackjackApp, status: ActionStatus) -> bool {
    let cur = pre.current_hand as int;
    let hand = pre.player_hands@[cur]@;
    let bet = pre.player_bets@[cur];
    if !(pre.game_state is PlayerTurn) {
        status == ActionStatus::IllegalAction && post == pre
    } else if !splittable(hand) {
        status == ActionStatus::IllegalAction && post == pre
    } else if pre.total_money < bet {
        status == ActionStatus::IllegalAction && post == pre
    } else if pre.deck@.len() < 2 {
        status == ActionStatus::ShoeDepleted && post == pre
    } else {
        let replacement = pre.deck@.last();
        let fresh = pre.deck@[pre.deck@.len() - 2];
        &&& status == ActionStatus::Accepted
        &&& post.deck@ == pre.deck@.take(pre.deck@.len() - 2)
        &&& post.player_hands@.len() == pre.player_hands@.len() + 1
        &&& post.player_hands@[cur]@ == seq![hand[0], replacement]
        &&& post.player_hands@.last()@ == seq![hand[1], fresh]
        &&& forall|j: int|
            0 <= j < pre.player_hands@.len() && j != cur ==> post.player_hands@[j]
                == pre.player_hands@[j]
        &&& post.player_bets@ == pre.player_bets@.push(bet)
        &&& post.total_money == pre.total_money - bet
        &&& post.current_hand == pre.current_hand
        &&& post.game_state is PlayerTurn
        &&& post.dealer_hand == pre.dealer_hand
    }
}

impl BlackjackApp {
    /// True exactly when the hand is a splittable pair.
    pub fn can_split(hand: &Vec<Card>) -> (ok: bool)
        ensures
            ok == splittable(hand@),
    {
        if hand.len() != 2 {
            return false;
        }
        let first_card_value = hand[0].value();
        let second_card_value = hand[1].value();
        first_card_value == second_card_value
    }

    /// End the active hand's turn: move on to the next split hand if one
    /// remains, else hand control to the dealer and settle the round.
    fn advance_turn(&mut self)
        requires
            old(self).wf(),
            old(self).game_state is PlayerTurn,
        ensures
            final(self).wf(),
            turn_advanced(*old(self), *final(self)),
            play_multiset(*final(self)) == play_multiset(*old(self)),
    {
        if self.current_hand < self.player_hands.len() - 1 {
            self.current_hand = self.current_hand + 1;
        } else {
            self.game_state = GameState::DealerTurn;
            self.dealer_turn();
        }
    }

    /// Stand on the active hand. Valid only during the player's turn;
    /// advances to the next split hand or runs the dealer and settlement.
    pub fn stand(&mut self) -> (status: ActionStatus)
        requires
            old(self).wf(),
        ensures
            final(self).wf(),
            if old(self).game_state is PlayerTurn {
                status == ActionStatus::Accepted && turn_advanced(*old(self), *final(self))
            } else {
                status == ActionStatus::IllegalAction && *final(self) == *old(self)
            },
            play_multiset(*final(self)) == play_multiset(*old(self)),
    {
        match self.game_state {
            GameState::PlayerTurn => {},
            _ => {
                return ActionStatus::IllegalAction;
            },
        }
        self.advance_turn();
        ActionStatus::Accepted
    }

    /// Draw one card from the shoe onto the active hand. A hand pushed over
    /// 21 busts and its turn ends immediately, with no further hits
    /// possible on it.
    pub fn hit(&mut self) -> (status: ActionStatus)
        requires
            old(self).wf(),
        ensures
            final(self).wf(),
            hit_step(*old(self), *final(self), status),
            play_multiset(*final(self)) == play_multiset(*old(self)),
    {
        match self.game_state {
            GameState::PlayerTurn => {},
            _ => {
                return ActionStatus::IllegalAction;
            },
        }
        if self.deck.len() == 0 {
            return ActionStatus::ShoeDepleted;
        }
        let ghost pre = *self;
        let card = self.deck.pop().unwrap();
        let cur = self.current_hand;
        self.player_hands[cur].push(card);
        proof {
            lemma_card_count_update(pre.player_hands@, self.player_hands@, cur as int);
            lemma_card_count_hand(pre.player_hands@, cur as int);
            assert(self.deck@ =~= pre.deck@.drop_last());
            assert(valid_cards(self.deck@));
            assert(pre.deck@.last().valid());
            assert(valid_hands(self.player_hands@)) by {
                assert(forall|i: int|
                    0 <= i < pre.player_hands@[cur as int]@.len()
                        ==> self.player_hands@[cur as int]@[i] == pre.player_hands@[cur as int]@[i]);
            }
            assert(self.wf());
            lemma_hands_multiset_update(pre.player_hands@, self.player_hands@, cur as int);
            assert(pre.deck@.drop_last() =~= pre.deck@.remove(pre.deck@.len() - 1));
            assert(self.deck@.to_multiset() == pre.deck@.to_multiset().remove(pre.deck@.last()));
            assert(pre.deck@.contains(pre.deck@.last()));
            assert(self.player_hands@[cur as int]@.to_multiset() == pre.player_hands@[
                cur as int
            ]@.to_multiset().insert(pre.deck@.last()));
            assert forall|c: Card|
                play_multiset(*self).count(c) == play_multiset(pre).count(c) by {
                assert(hands_multiset(self.player_hands@).add(
                    pre.player_hands@[cur as int]@.to_multiset(),
                ).count(c) == hands_multiset(pre.player_hands@).add(
                    self.player_hands@[cur as int]@.to_multiset(),
                ).count(c));
            }
            assert(play_multiset(*self) =~= play_multiset(pre));
        }
        let score = Self::calculate_hand_value(&self.player_hands[cur]);
        if score > 21 {
            self.advance_turn();
        }
        ActionStatus::Accepted
    }

    /// Double down on the active hand: deduct the current bet once more,
    /// double the stored bet, draw exactly one card, and end the hand's
    /// turn whether or not it busts.
    pub fn double_down(&mut self) -> (status: ActionStatus)
        requires
            old(self).wf(),
        ensures
            final(self).wf(),
            double_step(*old(self), *final(self), status),
            play_multiset(*final(self)) == play_multiset(*old(self)),
    {
        match self.game_state {
            GameState::PlayerTurn => {},
            _ => {
                return ActionStatus::IllegalAction;
            },
        }
        let cur = self.current_hand;
        let bet = self.player_bets[cur];
        if self.total_money < bet {
            return ActionStatus::IllegalAction;
        }
        if bet > usize::MAX / 2 {
            return ActionStatus::IllegalAction;
        }
        if self.deck.len() == 0 {
            return ActionStatus::ShoeDepleted;
        }
        let ghost pre = *self;
        self.total_money = self.total_money - bet;
        self.player_bets[cur] = 2 * bet;
        let card = self.deck.pop().unwrap();
        self.player_hands[cur].push(card);
        proof {
            lemma_card_count_update(pre.player_hands@, self.player_hands@, cur as int);
            lemma_card_count_hand(pre.player_hands@, cur as int);
            assert(self.deck@ =~= pre.deck@.drop_last());
            assert(valid_cards(self.deck@));
            assert(pre.deck@.last().valid());
            assert(valid_hands(self.player_hands@)) by {
                assert(forall|i: int|
                    0 <= i < pre.player_hands@[cur as int]@.len()
                        ==> self.player_hands@[cur as int]@[i] == pre.player_hands@[cur as int]@[i]);
            }
            assert(self.wf());
            lemma_hands_multiset_update(pre.player_hands@, self.player_hands@, cur as int);
            assert(pre.deck@.drop_last() =~= pre.deck@.remove(pre.deck@.len() - 1));
            assert(self.deck@.to_multiset() == pre.deck@.to_multiset().remove(pre.deck@.last()));
            assert(pre.deck@.contains(pre.deck@.last()));
            assert(self.player_hands@[cur as int]@.to_multiset() == pre.player_hands@[
                cur as int
            ]@.to_multiset().insert(pre.deck@.last()));
            assert forall|c: Card|
                play_multiset(*self).count(c) == play_multiset(pre).count(c) by {
                assert(hands_multiset(self.player_hands@).add(
                    pre.player_hands@[cur as int]@.to_multiset(),
                ).count(c) == hands_multiset(pre.player_hands@).add(
                    self.player_hands@[cur as int]@.to_multiset(),
                ).count(c));
            }
            assert(play_multiset(*self) =~= play_multiset(pre));
        }
        self.advance_turn();
        ActionStatus::Accepted
    }

    /// Split the active hand's pair into two hands, each dealt one fresh
    /// card, with a duplicate bet deducted from the bankroll. The active
    /// hand index does not change; the new hand is played after it through
    /// later stands.
    pub fn split(&mut self) -> (status: ActionStatus)
        requires
            old(self).wf(),
        ensures
            final(self).wf(),
            split_step(*old(self), *final(self), status),
            play_multiset(*final(self)) == play_multiset(*old(self)),
    {
        match self.game_state {
            GameState::PlayerTurn => {},
            _ => {
                return ActionStatus::IllegalAction;
            },
        }
        let cur = self.current_hand;
        if !Self::can_split(&self.player_hands[cur]) {
            return ActionStatus::IllegalAction;
        }
        let bet = self.player_bets[cur];
        if self.total_money < bet {
            return ActionStatus::IllegalAction;
        }
        if self.deck.len() < 2 {
            return ActionStatus::ShoeDepleted;
        }
        let ghost pre = *self;
        self.total_money = self.total_money - bet;
        self.player_bets.push(bet);
        let moved = self.player_hands[cur][1];
        let replacement = self.deck.pop().unwrap();
        self.player_hands[cur].pop();
        self.player_hands[cur].push(replacement);
        let fresh = self.deck.pop().unwrap();
        let mut new_hand: Vec<Card> = Vec::new();
        new_hand.push(moved);
        new_hand.push(fresh);
        self.player_hands.push(new_hand);
        proof {
            let ghost mid = pre.player_hands@.update(
                cur as int,
                self.player_hands@[cur as int],
            );
            assert(self.player_hands@ =~= mid.push(self.player_hands@.last()));
            lemma_card_count_update(pre.player_hands@, mid, cur as int);
            lemma_card_count_push(mid, self.player_hands@.last());
            lemma_card_count_hand(pre.player_hands@, cur as int);
            assert(self.deck@ =~= pre.deck@.take(pre.deck@.len() - 2));
            assert(valid_cards(self.deck@));
            assert(self.player_hands@[cur as int]@ =~= seq![
                pre.player_hands@[cur as int]@[0],
                pre.deck@.last(),
            ]);
            assert(self.player_hands@.last()@ =~= seq![
                pre.player_hands@[cur as int]@[1],
                pre.deck@[pre.deck@.len() - 2],
            ]);
            assert(pre.deck@.last().valid());
            assert(pre.deck@[pre.deck@.len() - 2].valid());
            assert(valid_hands(self.player_hands@));
            assert(self.player_bets@ =~= pre.player_bets@.push(bet));
            assert(self.wf());
            let n = pre.deck@.len();
            let c1 = pre.deck@.last();
            let c2 = pre.deck@[n - 2];
            let d1 = pre.deck@.drop_last();
            lemma_hands_multiset_update(pre.player_hands@, mid, cur as int);
            lemma_hands_multiset_push(mid, self.player_hands@.last());
            assert(d1 =~= pre.deck@.remove(n - 1));
            assert(d1.to_multiset() == pre.deck@.to_multiset().remove(c1));
            assert(pre.deck@.contains(c1));
            assert(self.deck@ =~= d1.drop_last());
            assert(d1.drop_last() =~= d1.remove(n - 2));
            assert(d1.last() == c2);
            assert(self.deck@.to_multiset() == d1.to_multiset().remove(c2));
            assert(d1.contains(c2));
            let h = pre.player_hands@[cur as int]@;
            let a = h[0];
            let b = h[1];
            assert(h =~= Seq::<Card>::empty().push(a).push(b));
            assert(h.to_multiset() == Multiset::<Card>::empty().insert(a).insert(b));
            assert(mid[cur as int]@ =~= Seq::<Card>::empty().push(a).push(c1));
            assert(mid[cur as int]@.to_multiset() == Multiset::<Card>::empty().insert(a).insert(
                c1,
            ));
            assert(self.player_hands@.last()@ =~= Seq::<Card>::empty().push(b).push(c2));
            assert(self.player_hands@.last()@.to_multiset()
                == Multiset::<Card>::empty().insert(b).insert(c2));
            assert forall|c: Card|
                play_multiset(*self).count(c) == play_multiset(pre).count(c) by {
                assert(hands_multiset(mid).add(h.to_multiset()).count(c) == hands_multiset(
                    pre.player_hands@,
                ).add(mid[cur as int]@.to_multiset()).count(c));
                assert(hands_multiset(self.player_hands@).count(c) == hands_multiset(mid).add(
                    self.player_hands@.last()@.to_multiset(),
                ).count(c));
            }
            assert(play_multiset(*self) =~= play_multiset(pre));
        }
        ActionStatus::Accepted
    }
}

impl Default for BlackjackApp {
    fn default() -> (app: Self)
        ensures
            app.wf(),
            round_started(app),
            app.total_money == 100,
            app.player_bets@ == seq![10usize],
    {
        Self::new()
    }
}

} // verus!
