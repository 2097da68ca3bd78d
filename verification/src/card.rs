//! Cards: a rank (2-10, Jack, Queen, King, Ace) and a suit. The suit carries
//! no gameplay effect; only the rank's base point value matters for scoring.

use vstd::prelude::*;
use vstd::string::StringExecFns;

verus! {

#[derive(Clone, Copy, PartialEq, Eq, Structural, Debug)]
pub enum Suit {
    Hearts,
    Diamonds,
    Clubs,
    Spades,
}

#[derive(Clone, Copy, PartialEq, Eq, Structural, Debug)]
pub enum Value {
    Number(u8),
    Jack,
    Queen,
    King,
    Ace,
}

#[derive(Clone, Copy, PartialEq, Eq, Structural, Debug)]
pub struct Card {
    pub value: Value,
    pub suit: Suit,
}

/// Base point value of a rank: 2-10 count face value, court cards count 10,
/// and an Ace counts a nominal 11 (scoring later demotes Aces to 1 as needed).
pub open spec fn card_points(v: Value) -> int {
    match v {
        Value::Number(n) => n as int,
        Value::Jack => 10,
        Value::Queen => 10,
        Value::King => 10,
        Value::Ace => 11,
    }
}

impl Card {
    /// A card is valid when a numbered rank lies in 2..=10; court cards and
    /// Aces are always valid. Every card of a freshly built deck is valid.
    pub open spec fn valid(self) -> bool {
        match self.value {
            Value::Number(n) => 2 <= n <= 10,
            _ => true,
        }
    }

    pub fn value(&self) -> (points: u8)
        ensures
            points as int == card_points(self.value),
    {
        match self.value {
            Value::Number(num) => num,
            Value::Jack => 10,
            Value::Queen => 10,
            Value::King => 10,
            Value::Ace => 11,
        }
    }

    pub fn display(&self) -> (text: String)
        requires
            self.valid(),
        ensures
            text@ == display_of(*self),
    {
        let token: &str = match self.value {
            Value::Number(n) => {
                if n == 2 {
                    "2"
                } else if n == 3 {
                    "3"
                } else if n == 4 {
                    "4"
                } else if n == 5 {
                    "5"
                } else if n == 6 {
                    "6"
                } else if n == 7 {
                    "7"
                } else if n == 8 {
                    "8"
                } else if n == 9 {
                    "9"
                } else {
                    "10"
                }
            },
            Value::Jack => "J",
            Value::Queen => "Q",
            Value::King => "K",
            Value::Ace => "A",
        };
        let suit: &str = match self.suit {
            Suit::Hearts => "Hearts",
            Suit::Diamonds => "Diamonds",
            Suit::Clubs => "Clubs",
            Suit::Spades => "Spades",
        };
        let mut text = String::from_str(token);
        text.append(" of ");
        text.append(suit);
        text
    }
}

/// Display token of a rank: the number as digits, or J/Q/K/A.
pub open spec fn value_token(v: Value) -> Seq<char> {
    match v {
        Value::Number(n) => {
            if n == 2 {
                "2"@
            } else if n == 3 {
                "3"@
            } else if n == 4 {
                "4"@
            } else if n == 5 {
                "5"@
            } else if n == 6 {
                "6"@
            } else if n == 7 {
                "7"@
            } else if n == 8 {
                "8"@
            } else if n == 9 {
                "9"@
            } else {
                "10"@
            }
        },
        Value::Jack => "J"@,
        Value::Queen => "Q"@,
        Value::King => "K"@,
        Value::Ace => "A"@,
    }
}

/// Display name of a suit.
pub open spec fn suit_name(s: Suit) -> Seq<char> {
    match s {
        Suit::Hearts => "Hearts"@,
        Suit::Diamonds => "Diamonds"@,
        Suit::Clubs => "Clubs"@,
        Suit::Spades => "Spades"@,
    }
}

/// The full display text of a card, e.g. the queen of hearts reads
/// as its rank token, " of ", and the suit name.
pub open spec fn display_of(c: Card) -> Seq<char> {
    value_token(c.value) + " of "@ + suit_name(c.suit)
}

} // verus!
