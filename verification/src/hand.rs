//! The cards that one player holds.

use vstd::prelude::*;
use vstd::string::*;
use crate::card::Card;
use crate::order::{arrange, arranged, ascending, Ranking};

verus! {

/// A player's cards, in the order in which the player keeps them.
#[derive(Debug)]
pub struct Hand {
    pub cards: Vec<Card>,
}

impl View for Hand {
    type V = Seq<Card>;

    open spec fn view(&self) -> Seq<Card> {
        self.cards@
    }
}

/// What the cards cost their holder when the game ends: the sum of their
/// points, the ace counted low.
pub open spec fn score_of(cards: Seq<Card>) -> int
    decreases cards.len(),
{
    if cards.len() == 0 {
        0
    } else {
        score_of(cards.drop_last()) + cards.last().number.points(false)
    }
}

/// The cards as a hand is printed: each card followed by a blank.
pub open spec fn hand_text(cards: Seq<Card>) -> Seq<char>
    decreases cards.len(),
{
    if cards.len() == 0 {
        Seq::empty()
    } else {
        hand_text(cards.drop_last()) + cards.last().text() + " "@
    }
}

/// No card costs more than ten points with the ace low, so a hand costs at
/// most ten times its size.
pub proof fn lemma_score_bounds(cards: Seq<Card>)
    ensures
        5 * cards.len() <= score_of(cards) <= 10 * cards.len(),
    decreases cards.len(),
{
    if cards.len() > 0 {
        lemma_score_bounds(cards.drop_last());
    }
}

impl Hand {
    /// A hand without cards.
    pub fn new() -> (hand: Hand)
        ensures
            hand@ == Seq::<Card>::empty(),
    {
        Hand { cards: Vec::new() }
    }

    /// Takes a card into the hand, behind the cards that it holds.
    pub fn add(&mut self, card: Card)
        ensures
            final(self)@ == old(self)@.push(card),
    {
        self.cards.push(card);
    }

    /// Lays the hand out by suit, and within each suit by rank from the ace
    /// upwards.
    pub fn sort(&mut self)
        ensures
            final(self)@ == arranged(old(self)@, Ranking::BySuit),
            final(self)@.to_multiset() == old(self)@.to_multiset(),
            ascending(final(self)@, Ranking::BySuit),
    {
        arrange(&mut self.cards, Ranking::BySuit);
    }

    /// What the hand costs its holder when the game ends.
    pub fn score(&self) -> (points: usize)
        requires
            10 * self@.len() <= usize::MAX,
        ensures
            points == score_of(self@),
    {
        let mut points: usize = 0;
        let mut i: usize = 0;
        while i < self.cards.len()
            invariant
                i <= self.cards.len(),
                10 * self.cards@.len() <= usize::MAX,
                points == score_of(self.cards@.take(i as int)),
                points <= 10 * i,
            decreases self.cards.len() - i,
        {
            proof {
                assert(self.cards@.take(i + 1).drop_last() == self.cards@.take(i as int));
            }
            points = points + self.cards[i].value(false);
            i += 1;
        }
        assert(self.cards@.take(i as int) == self.cards@);
        points
    }

    /// The hand as it is printed.
    pub fn to_text(&self) -> (text: String)
        ensures
            text@ == hand_text(self@),
    {
        let mut text = String::new();
        let mut i: usize = 0;
        while i < self.cards.len()
            invariant
                i <= self.cards.len(),
                text@ == hand_text(self.cards@.take(i as int)),
            decreases self.cards.len() - i,
        {
            proof {
                assert(self.cards@.take(i + 1).drop_last() == self.cards@.take(i as int));
            }
            let card = self.cards[i].to_text();
            text.append(card.as_str());
            text.append(" ");
            i += 1;
        }
        assert(self.cards@.take(i as int) == self.cards@);
        text
    }
}

} // verus!
