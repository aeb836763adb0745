//! The deck of fifty-two cards from which a game is dealt.

use vstd::prelude::*;
use vstd::seq_lib::*;
use rand::seq::SliceRandom;
use crate::card::{Card, Number, Suit};

verus! {

/// The handle of rand's generator of the running thread. Nothing is known of
/// what it holds.
#[verifier::external_type_specification]
#[verifier::external_body]
pub struct ExThreadRng(rand::rngs::ThreadRng);

/// `rand::thread_rng` hands out the thread's generator. Nothing is claimed of
/// the handle. The generator is seeded from the operating system when a
/// thread first asks for it, and rand gives up where the system has no
/// entropy to offer.
pub assume_specification[ rand::thread_rng ]() -> (rng: rand::rngs::ThreadRng);

/// `SliceRandom::shuffle` of rand, on the cards of a vector. It walks the
/// slice from the back and swaps each place with one drawn at or before it,
/// so all that is claimed is that the same cards are there afterwards, each
/// as often as before. Which order comes out is left open.
#[verifier::external_body]
fn shuffle_cards(cards: &mut Vec<Card>, rng: &mut rand::rngs::ThreadRng)
    ensures
        final(cards)@.to_multiset() == old(cards)@.to_multiset(),
{
    cards.shuffle(rng);
}

/// The suits in the order in which a new deck holds them.
pub open spec fn suit_in_deck(i: int) -> Suit {
    if i == 0 {
        Suit::Clubs
    } else if i == 1 {
        Suit::Diamonds
    } else if i == 2 {
        Suit::Hearts
    } else {
        Suit::Spades
    }
}

/// The rank with the given position counted from the ace.
pub open spec fn number_at(i: int) -> Number {
    if i == 0 {
        Number::Ace
    } else if i == 1 {
        Number::Two
    } else if i == 2 {
        Number::Three
    } else if i == 3 {
        Number::Four
    } else if i == 4 {
        Number::Five
    } else if i == 5 {
        Number::Six
    } else if i == 6 {
        Number::Seven
    } else if i == 7 {
        Number::Eight
    } else if i == 8 {
        Number::Nine
    } else if i == 9 {
        Number::Ten
    } else if i == 10 {
        Number::Jack
    } else if i == 11 {
        Number::Queen
    } else {
        Number::King
    }
}

/// A new deck: clubs, diamonds, hearts, spades, each suit from the ace to the
/// king.
pub open spec fn full_deck() -> Seq<Card> {
    Seq::new(52, |i: int| Card { suit: suit_in_deck(i / 13), number: number_at(i % 13) })
}

/// The cards are taken from one deck: none of them is there twice.
pub open spec fn from_one_deck(cards: Seq<Card>) -> bool {
    cards.to_multiset().subset_of(full_deck().to_multiset())
}

/// Where a card lies in a new deck.
pub open spec fn place_in_deck(card: Card) -> int {
    13 * (match card.suit {
        Suit::Clubs => 0int,
        Suit::Diamonds => 1int,
        Suit::Hearts => 2int,
        Suit::Spades => 3int,
    }) + card.number.ordinal()
}

/// A new deck holds each rank of each suit exactly once: fifty-two cards,
/// every card among them, none twice.
pub proof fn lemma_full_deck_complete()
    ensures
        full_deck().len() == 52,
        full_deck().no_duplicates(),
        forall|card: Card|
            0 <= place_in_deck(card) < 52 && full_deck()[place_in_deck(card)] == card,
        forall|card: Card| #[trigger] full_deck().to_multiset().count(card) == 1,
{
    let deck = full_deck();
    assert forall|card: Card| 0 <= place_in_deck(card) < 52 && deck[place_in_deck(card)]
        == card by {
        assert(place_in_deck(card) % 13 == card.number.ordinal());
    }
    assert forall|i: int, j: int|
        0 <= i < deck.len() && 0 <= j < deck.len() && i != j implies deck[i] != deck[j] by {
        assert(place_in_deck(deck[i]) == i);
        assert(place_in_deck(deck[j]) == j);
    }
    deck.lemma_multiset_has_no_duplicates();
    assert forall|card: Card| #[trigger] deck.to_multiset().count(card) == 1 by {
        assert(deck[place_in_deck(card)] == card);
        assert(deck.contains(card));
        to_multiset_contains(deck, card);
    }
}

/// Cards taken from one deck are fifty-two at most, and no two of them are
/// the same card.
pub proof fn lemma_from_one_deck(cards: Seq<Card>)
    requires
        from_one_deck(cards),
    ensures
        cards.len() <= 52,
        cards.no_duplicates(),
{
    broadcast use vstd::multiset::group_multiset_axioms;

    lemma_full_deck_complete();
    let held = cards.to_multiset();
    let all = full_deck().to_multiset();
    assert(all =~= held.add(all.sub(held)));
    to_multiset_len(cards);
    to_multiset_len(full_deck());
    cards.lemma_multiset_has_no_duplicates_conv();
}

proof fn lemma_no_cards_from_one_deck()
    ensures
        from_one_deck(Seq::<Card>::empty()),
{
    broadcast use vstd::multiset::group_multiset_axioms;

    Seq::<Card>::empty().to_multiset_ensures();
}

/// A pile of cards taken from one deck. Cards leave it from the top, which is
/// the end of the pile.
#[derive(Debug)]
pub struct Deck {
    cards: Vec<Card>,
}

impl View for Deck {
    type V = Seq<Card>;

    closed spec fn view(&self) -> Seq<Card> {
        self.cards@
    }
}

impl Deck {
    /// No card is in the pile twice.
    #[verifier::type_invariant]
    pub open spec fn well_formed(self) -> bool {
        from_one_deck(self@)
    }

    /// A new deck of fifty-two cards, not yet shuffled: each rank of each
    /// suit once.
    pub fn new() -> (deck: Deck)
        ensures
            deck@ == full_deck(),
            deck@.len() == 52,
            forall|card: Card| #[trigger] deck@.to_multiset().count(card) == 1,
    {
        proof {
            lemma_full_deck_complete();
        }
        let mut cards: Vec<Card> = Vec::new();
        let suits = [Suit::Clubs, Suit::Diamonds, Suit::Hearts, Suit::Spades];
        let numbers = [
            Number::Ace,
            Number::Two,
            Number::Three,
            Number::Four,
            Number::Five,
            Number::Six,
            Number::Seven,
            Number::Eight,
            Number::Nine,
            Number::Ten,
            Number::Jack,
            Number::Queen,
            Number::King,
        ];
        let mut s: usize = 0;
        while s < 4
            invariant
                s <= 4,
                suits@.len() == 4,
                numbers@.len() == 13,
                forall|i: int| 0 <= i < 4 ==> suits@[i] == suit_in_deck(i),
                forall|i: int| 0 <= i < 13 ==> numbers@[i] == number_at(i),
                cards@ == full_deck().take(13 * s),
            decreases 4 - s,
        {
            let mut n: usize = 0;
            while n < 13
                invariant
                    s < 4,
                    n <= 13,
                    suits@.len() == 4,
                    numbers@.len() == 13,
                    forall|i: int| 0 <= i < 4 ==> suits@[i] == suit_in_deck(i),
                    forall|i: int| 0 <= i < 13 ==> numbers@[i] == number_at(i),
                    cards@ == full_deck().take(13 * s + n),
                decreases 13 - n,
            {
                cards.push(Card::new(suits[s], numbers[n]));
                proof {
                    let at = 13 * s + n;
                    assert(at / 13 == s && at % 13 == n);
                    assert(full_deck().take(at + 1) == full_deck().take(at).push(full_deck()[at]));
                }
                n += 1;
            }
            s += 1;
        }
        assert(full_deck().take(52) == full_deck());
        Deck { cards }
    }

    /// Shuffles the pile where it lies. The same cards are in it afterwards.
    pub fn shuffle(&mut self)
        ensures
            final(self)@.to_multiset() == old(self)@.to_multiset(),
            final(self)@.len() == old(self)@.len(),
    {
        proof {
            use_type_invariant(&*self);
            to_multiset_len(self.cards@);
            lemma_no_cards_from_one_deck();
        }
        let mut cards: Vec<Card> = Vec::new();
        std::mem::swap(&mut self.cards, &mut cards);
        let mut rng = rand::thread_rng();
        shuffle_cards(&mut cards, &mut rng);
        proof {
            to_multiset_len(cards@);
        }
        self.cards = cards;
    }

    /// Takes the top card off the pile. An empty pile gives no card and stays
    /// as it is.
    pub fn deal(&mut self) -> (card: Option<Card>)
        ensures
            old(self)@.len() == 0 ==> card is None && final(self)@ == old(self)@,
            old(self)@.len() > 0 ==> card == Some(old(self)@.last()) && final(self)@ == old(
                self,
            )@.drop_last(),
    {
        proof {
            use_type_invariant(&*self);
            lemma_no_cards_from_one_deck();
        }
        let ghost before = self.cards@;
        let mut cards: Vec<Card> = Vec::new();
        std::mem::swap(&mut self.cards, &mut cards);
        let card = cards.pop();
        proof {
            if before.len() > 0 {
                broadcast use vstd::multiset::group_multiset_axioms;

                assert(before == cards@.push(before.last()));
                to_multiset_build(cards@, before.last());
            }
        }
        self.cards = cards;
        card
    }

    /// The number of cards in the pile.
    pub fn len(&self) -> (n: usize)
        ensures
            n == self@.len(),
            n <= 52,
    {
        proof {
            use_type_invariant(self);
            lemma_from_one_deck(self.cards@);
        }
        self.cards.len()
    }
}

} // verus!
