//! Suits, ranks and cards of the French deck.

use vstd::prelude::*;
use vstd::string::*;

verus! {

/// The four suits. Hands are laid out in the order in which they are listed
/// here.
#[derive(Copy, Clone, Debug, PartialEq, Eq, Structural, PartialOrd, Ord, Hash)]
pub enum Suit {
    Hearts,
    Clubs,
    Diamonds,
    Spades,
}

/// The thirteen ranks, from the ace upwards.
#[derive(Copy, Clone, Debug, PartialEq, Eq, Structural, PartialOrd, Ord, Hash)]
pub enum Number {
    Ace,
    Two,
    Three,
    Four,
    Five,
    Six,
    Seven,
    Eight,
    Nine,
    Ten,
    Jack,
    Queen,
    King,
}

/// A playing card: one rank of one suit.
#[derive(Copy, Clone, Debug, PartialEq, Eq, Structural, Hash)]
pub struct Card {
    pub suit: Suit,
    pub number: Number,
}

/// The rank that a card's text opens with: `A`, `2` to `9`, `1` for the ten,
/// `J`, `Q`, `K`.
pub open spec fn number_of_char(c: char) -> Option<Number> {
    if c == 'A' {
        Some(Number::Ace)
    } else if c == '2' {
        Some(Number::Two)
    } else if c == '3' {
        Some(Number::Three)
    } else if c == '4' {
        Some(Number::Four)
    } else if c == '5' {
        Some(Number::Five)
    } else if c == '6' {
        Some(Number::Six)
    } else if c == '7' {
        Some(Number::Seven)
    } else if c == '8' {
        Some(Number::Eight)
    } else if c == '9' {
        Some(Number::Nine)
    } else if c == '1' {
        Some(Number::Ten)
    } else if c == 'J' {
        Some(Number::Jack)
    } else if c == 'Q' {
        Some(Number::Queen)
    } else if c == 'K' {
        Some(Number::King)
    } else {
        None
    }
}

/// The suit that a letter stands for: `H`, `C`, `D`, `S`.
pub open spec fn suit_of_char(c: char) -> Option<Suit> {
    if c == 'H' {
        Some(Suit::Hearts)
    } else if c == 'C' {
        Some(Suit::Clubs)
    } else if c == 'D' {
        Some(Suit::Diamonds)
    } else if c == 'S' {
        Some(Suit::Spades)
    } else {
        None
    }
}

/// Where the suit's letter stands in a card's text. A ten is written with two
/// characters, so its suit comes third; the second character is not looked at.
pub open spec fn suit_position(number: Number) -> int {
    if number == Number::Ten {
        2
    } else {
        1
    }
}

/// The card that a text such as `2C`, `10H` or `AS` names, if it names one.
/// Whatever follows the suit's letter is ignored.
pub open spec fn parse_card(text: Seq<char>) -> Option<Card> {
    if text.len() == 0 {
        None
    } else {
        match number_of_char(text[0]) {
            None => None,
            Some(number) => {
                if text.len() <= suit_position(number) {
                    None
                } else {
                    match suit_of_char(text[suit_position(number)]) {
                        None => None,
                        Some(suit) => Some(Card { suit, number }),
                    }
                }
            },
        }
    }
}

fn number_from_char(c: char) -> (number: Option<Number>)
    ensures
        number == number_of_char(c),
{
    if c == 'A' {
        Some(Number::Ace)
    } else if c == '2' {
        Some(Number::Two)
    } else if c == '3' {
        Some(Number::Three)
    } else if c == '4' {
        Some(Number::Four)
    } else if c == '5' {
        Some(Number::Five)
    } else if c == '6' {
        Some(Number::Six)
    } else if c == '7' {
        Some(Number::Seven)
    } else if c == '8' {
        Some(Number::Eight)
    } else if c == '9' {
        Some(Number::Nine)
    } else if c == '1' {
        Some(Number::Ten)
    } else if c == 'J' {
        Some(Number::Jack)
    } else if c == 'Q' {
        Some(Number::Queen)
    } else if c == 'K' {
        Some(Number::King)
    } else {
        None
    }
}

fn suit_from_char(c: char) -> (suit: Option<Suit>)
    ensures
        suit == suit_of_char(c),
{
    if c == 'H' {
        Some(Suit::Hearts)
    } else if c == 'C' {
        Some(Suit::Clubs)
    } else if c == 'D' {
        Some(Suit::Diamonds)
    } else if c == 'S' {
        Some(Suit::Spades)
    } else {
        None
    }
}

impl Suit {
    /// Position of the suit in the layout of a hand: hearts 0, clubs 1,
    /// diamonds 2, spades 3.
    pub open spec fn ordinal(self) -> int {
        match self {
            Suit::Hearts => 0,
            Suit::Clubs => 1,
            Suit::Diamonds => 2,
            Suit::Spades => 3,
        }
    }

    /// The suit's sign as it is printed, in text presentation.
    pub open spec fn glyph(self) -> Seq<char> {
        match self {
            Suit::Clubs => "\u{2663}\u{fe0e}"@,
            Suit::Diamonds => "\u{2666}\u{fe0e}"@,
            Suit::Hearts => "\u{2665}\u{fe0e}"@,
            Suit::Spades => "\u{2660}\u{fe0e}"@,
        }
    }

    /// The suit's sign.
    pub fn to_text(&self) -> (text: String)
        ensures
            text@ == self.glyph(),
    {
        match self {
            Suit::Clubs => String::from_str("\u{2663}\u{fe0e}"),
            Suit::Diamonds => String::from_str("\u{2666}\u{fe0e}"),
            Suit::Hearts => String::from_str("\u{2665}\u{fe0e}"),
            Suit::Spades => String::from_str("\u{2660}\u{fe0e}"),
        }
    }

    /// The suit's position in the layout of a hand.
    pub fn index(&self) -> (i: u8)
        ensures
            i == self.ordinal(),
    {
        match self {
            Suit::Hearts => 0,
            Suit::Clubs => 1,
            Suit::Diamonds => 2,
            Suit::Spades => 3,
        }
    }
}

impl Number {
    /// Position of the rank counted from the ace: ace 0, two 1, ..., king 12.
    pub open spec fn ordinal(self) -> int {
        match self {
            Number::Ace => 0,
            Number::Two => 1,
            Number::Three => 2,
            Number::Four => 3,
            Number::Five => 4,
            Number::Six => 5,
            Number::Seven => 6,
            Number::Eight => 7,
            Number::Nine => 8,
            Number::Ten => 9,
            Number::Jack => 10,
            Number::Queen => 11,
            Number::King => 12,
        }
    }

    /// Points that a card of this rank costs its holder. An ace counts 15
    /// when it is played high and 5 otherwise, a court card 10, any other
    /// card 5.
    pub open spec fn points(self, ace_high: bool) -> int {
        match self {
            Number::Ace => if ace_high { 15 } else { 5 },
            Number::Jack | Number::Queen | Number::King => 10,
            _ => 5,
        }
    }

    /// The rank as it is printed: `A`, `2` to `10`, `J`, `Q`, `K`.
    pub open spec fn label(self) -> Seq<char> {
        match self {
            Number::Ace => "A"@,
            Number::Two => "2"@,
            Number::Three => "3"@,
            Number::Four => "4"@,
            Number::Five => "5"@,
            Number::Six => "6"@,
            Number::Seven => "7"@,
            Number::Eight => "8"@,
            Number::Nine => "9"@,
            Number::Ten => "10"@,
            Number::Jack => "J"@,
            Number::Queen => "Q"@,
            Number::King => "K"@,
        }
    }

    /// The rank as it is printed.
    pub fn to_text(&self) -> (text: String)
        ensures
            text@ == self.label(),
    {
        match self {
            Number::Ace => String::from_str("A"),
            Number::Two => String::from_str("2"),
            Number::Three => String::from_str("3"),
            Number::Four => String::from_str("4"),
            Number::Five => String::from_str("5"),
            Number::Six => String::from_str("6"),
            Number::Seven => String::from_str("7"),
            Number::Eight => String::from_str("8"),
            Number::Nine => String::from_str("9"),
            Number::Ten => String::from_str("10"),
            Number::Jack => String::from_str("J"),
            Number::Queen => String::from_str("Q"),
            Number::King => String::from_str("K"),
        }
    }

    /// The rank's position counted from the ace.
    pub fn index(&self) -> (i: u8)
        ensures
            i == self.ordinal(),
    {
        match self {
            Number::Ace => 0,
            Number::Two => 1,
            Number::Three => 2,
            Number::Four => 3,
            Number::Five => 4,
            Number::Six => 5,
            Number::Seven => 6,
            Number::Eight => 7,
            Number::Nine => 8,
            Number::Ten => 9,
            Number::Jack => 10,
            Number::Queen => 11,
            Number::King => 12,
        }
    }
}

impl Card {
    /// The card of the given suit and rank.
    pub fn new(suit: Suit, number: Number) -> (card: Card)
        ensures
            card == (Card { suit, number }),
    {
        Card { suit, number }
    }

    /// The card as it is printed: its rank, then the sign of its suit.
    pub open spec fn text(self) -> Seq<char> {
        self.number.label() + self.suit.glyph()
    }

    /// The card as it is printed.
    pub fn to_text(&self) -> (text: String)
        ensures
            text@ == self.text(),
    {
        let mut text = self.number.to_text();
        let sign = self.suit.to_text();
        text.append(sign.as_str());
        text
    }

    /// Reads a card from its text, or finds that the text names none.
    pub fn try_from_string(s: &str) -> (card: Option<Card>)
        ensures
            card == parse_card(s@),
    {
        let len = s.unicode_len();
        if len == 0 {
            return None;
        }
        let number = match number_from_char(s.get_char(0)) {
            Some(number) => number,
            None => { return None; },
        };
        let at: usize = if number == Number::Ten { 2 } else { 1 };
        if len <= at {
            return None;
        }
        match suit_from_char(s.get_char(at)) {
            Some(suit) => Some(Card { suit, number }),
            None => None,
        }
    }

    /// Reads a card from a text that names one.
    pub fn from_string(s: &str) -> (card: Card)
        requires
            parse_card(s@) is Some,
        ensures
            Some(card) == parse_card(s@),
    {
        Card::try_from_string(s).unwrap()
    }

    /// Points that the card costs its holder when the hand is scored.
    pub fn value(&self, ace_high: bool) -> (points: usize)
        ensures
            points == self.number.points(ace_high),
    {
        match self.number {
            Number::Ace => if ace_high { 15 } else { 5 },
            Number::Jack => 10,
            Number::Queen => 10,
            Number::King => 10,
            _ => 5,
        }
    }
}

} // verus!
