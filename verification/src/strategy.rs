//! What a player decides in a turn, and the players' side of the game.

use vstd::prelude::*;
use crate::card::Card;
use crate::hand::Hand;

verus! {

/// Where a player takes a card from at the start of a turn.
#[derive(Copy, Clone, Debug, PartialEq, Eq, Structural)]
pub enum DrawAction {
    /// The top card of the deck, unseen.
    DrawFromDeck,
    /// The top card of the pack: the card that was discarded last.
    DrawFromDiscard,
}

/// What a player does with a hand after drawing: the groups of cards to lay
/// down as melds, and the card to discard.
#[derive(Debug)]
pub struct Play {
    pub melds: Vec<Vec<Card>>,
    pub discard: Card,
}

/// A player's choice as the rules read it.
pub struct Choice {
    pub melds: Seq<Seq<Card>>,
    pub discard: Card,
}

/// The cards of each group.
pub open spec fn groups_view(groups: Seq<Vec<Card>>) -> Seq<Seq<Card>> {
    groups.map_values(|group: Vec<Card>| group@)
}

impl View for Play {
    type V = Choice;

    open spec fn view(&self) -> Choice {
        Choice { melds: groups_view(self.melds@), discard: self.discard }
    }
}

/// A player. The game asks it once for each of the two decisions of a turn
/// and holds it to the rules: nothing is taken on trust from what it answers.
///
/// A kind of player may say ahead which answers its players give, in
/// `may_draw` and `may_play`; what is then proved of its games holds for
/// every answer that these allow. A kind that says nothing allows every
/// answer.
pub trait Strategy {
    /// Whether players of this kind may give this answer when they are
    /// asked where to draw from with this hand.
    open spec fn may_draw(hand: Seq<Card>, action: DrawAction) -> bool {
        true
    }

    /// Whether players of this kind may give this answer when they are
    /// asked what to lay down and to discard with this hand.
    open spec fn may_play(hand: Seq<Card>, choice: Choice) -> bool {
        true
    }

    /// Chooses where to draw from, seeing the hand laid out in order.
    fn choose_draw(&mut self, hand: &Hand) -> (action: DrawAction)
        ensures
            Self::may_draw(hand@, action),
    ;

    /// Chooses what to lay down and what to discard, seeing the hand with
    /// the card that was drawn.
    fn choose_play(&mut self, hand: &Hand) -> (play: Play)
        requires
            hand@.len() > 0,
        ensures
            Self::may_play(hand@, play@),
    ;
}

/// Always draws from the deck.
pub fn my_draw_strategy(hand: &Hand) -> (action: DrawAction)
    ensures
        action == DrawAction::DrawFromDeck,
{
    DrawAction::DrawFromDeck
}

/// Lays nothing down and discards the first card of the hand.
pub fn my_play_strategy(hand: &Hand) -> (play: Play)
    requires
        hand@.len() > 0,
    ensures
        play@ == (Choice { melds: Seq::empty(), discard: hand@[0] }),
{
    let play = Play { melds: Vec::new(), discard: hand.cards[0] };
    assert(play@.melds == Seq::<Seq<Card>>::empty());
    play
}

/// The player that draws from the deck and discards the first card of the
/// hand.
pub struct MyStrategy;

impl Strategy for MyStrategy {
    open spec fn may_draw(hand: Seq<Card>, action: DrawAction) -> bool {
        action == DrawAction::DrawFromDeck
    }

    open spec fn may_play(hand: Seq<Card>, choice: Choice) -> bool {
        choice == (Choice { melds: Seq::empty(), discard: hand[0] })
    }

    fn choose_draw(&mut self, hand: &Hand) -> (action: DrawAction) {
        my_draw_strategy(hand)
    }

    fn choose_play(&mut self, hand: &Hand) -> (play: Play) {
        my_play_strategy(hand)
    }
}

} // verus!
