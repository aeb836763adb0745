//! The rules of a round, stated over the cards on the table.
//!
//! A round has three steps. The hand of the player whose turn it is is laid
//! out in order; the player draws a card from the deck or from the pack; the
//! player lays melds down and discards a card. The game ends with the round
//! after which the deck is empty.

use vstd::prelude::*;
use vstd::seq_lib::*;
use vstd::multiset::*;
use crate::card::Card;
use crate::deck::{full_deck, lemma_from_one_deck};
use crate::hand::score_of;
use crate::meld::{is_meld, lemma_judged_again};
use crate::order::{arranged, lemma_arranged_keeps_cards, Ranking};
use crate::strategy::{Choice, DrawAction, MyStrategy, Strategy};

verus! {

/// Why a round or a game was broken off.
#[derive(Copy, Clone, Debug, PartialEq, Eq, Structural)]
pub enum GameError {
    /// A player drew from the pack while it was empty.
    EmptyPack,
    /// A player laid down a group of cards that is no meld.
    InvalidMeld,
    /// A player laid down or discarded a card that was not in the hand.
    MissingCard,
    /// The rounds that were allowed for the game have been played and the
    /// deck is not exhausted.
    RoundLimit,
}

/// Everything that lies on the table.
pub struct Table {
    /// The deck; cards are drawn from its end.
    pub deck: Seq<Card>,
    /// The discarded cards; the last of them is on top.
    pub pack: Seq<Card>,
    /// The hand of each player.
    pub hands: Seq<Seq<Card>>,
    /// The melds that each player has laid down.
    pub melds: Seq<Seq<Seq<Card>>>,
    /// The player whose turn it is.
    pub turn: int,
}

/// All the cards of some piles.
pub open spec fn spread(piles: Seq<Seq<Card>>) -> Multiset<Card> {
    piles.flatten().to_multiset()
}

/// The hand after the cards of a group have left it, each from the first
/// place where the hand holds it; nothing, if the hand lacks one of them.
pub open spec fn takes(hand: Seq<Card>, group: Seq<Card>) -> Option<Seq<Card>>
    decreases group.len(),
{
    if group.len() == 0 {
        Some(hand)
    } else if !hand.contains(group[0]) {
        None
    } else {
        takes(hand.remove_value(group[0]), group.drop_first())
    }
}

/// The hand after the groups have been laid down as melds, one after the
/// other. A group that is no meld, and a group with a card that the hand
/// lacks, is a fault of the player.
pub open spec fn lays(hand: Seq<Card>, groups: Seq<Seq<Card>>) -> Result<Seq<Card>, GameError>
    decreases groups.len(),
{
    if groups.len() == 0 {
        Ok(hand)
    } else if !is_meld(groups[0]) {
        Err(GameError::InvalidMeld)
    } else {
        match takes(hand, groups[0]) {
            None => Err(GameError::MissingCard),
            Some(rest) => lays(rest, groups.drop_first()),
        }
    }
}

/// The hand after the melds have been laid down and the discard has left it.
pub open spec fn settles(hand: Seq<Card>, choice: Choice) -> Result<Seq<Card>, GameError> {
    match lays(hand, choice.melds) {
        Err(fault) => Err(fault),
        Ok(rest) => if rest.contains(choice.discard) {
            Ok(rest.remove_value(choice.discard))
        } else {
            Err(GameError::MissingCard)
        },
    }
}

/// The hand that a player is dealt from a deck: seven cards, one in each
/// round of the deal, the players served in turn from the top of the deck.
pub open spec fn dealt_hand(deck: Seq<Card>, players: int, player: int) -> Seq<Card> {
    Seq::new(7, |round: int| deck[deck.len() - 1 - (round * players + player)])
}

/// The table after the deal: seven cards in each hand, the next card face up
/// as the first of the pack, no melds yet, and the first player to move.
pub open spec fn dealt(deck: Seq<Card>, players: nat) -> Table {
    let left = deck.len() - 7 * players - 1;
    Table {
        deck: deck.take(left),
        pack: seq![deck[left]],
        hands: Seq::new(players, |player: int| dealt_hand(deck, players as int, player)),
        melds: Seq::new(players, |player: int| Seq::empty()),
        turn: 0,
    }
}

/// The decisions of a round are ones that a player of kind `S` may make at
/// this table: where to draw from, seeing the hand laid out, and, where there
/// is a card to draw, what to play, seeing the hand with that card.
pub open spec fn fair<S: Strategy>(table: Table, action: DrawAction, choice: Choice) -> bool {
    &&& S::may_draw(table.sorted().hand(), action)
    &&& table.sorted().can_draw(action) ==> S::may_play(
        table.sorted().drawn(action).hand(),
        choice,
    )
}

/// The decisions of every round that is played are ones that players of
/// kind `S` may make at the table as it is then.
pub open spec fn fair_run<S: Strategy>(table: Table, turns: Seq<(DrawAction, Choice)>) -> bool
    decreases turns.len(),
{
    turns.len() == 0 || {
        &&& fair_run::<S>(table, turns.drop_last())
        &&& table.run(turns.drop_last()).1 == Ok::<bool, GameError>(true) ==> fair::<S>(
            table.run(turns.drop_last()).0,
            turns.last().0,
            turns.last().1,
        )
    }
}

/// How a round ends where there is no card to draw: an empty deck ends the
/// game, an empty pack is a fault of the player who reached for it.
pub open spec fn no_card(action: DrawAction) -> Result<bool, GameError> {
    match action {
        DrawAction::DrawFromDeck => Ok(false),
        DrawAction::DrawFromDiscard => Err(GameError::EmptyPack),
    }
}

/// The groups as they lie on the table: each in the order of its ranks.
pub open spec fn laid(groups: Seq<Seq<Card>>) -> Seq<Seq<Card>> {
    groups.map_values(|group: Seq<Card>| arranged(group, Ranking::AceLow))
}

impl Table {
    /// The melds of each player as one pile.
    pub open spec fn meld_piles(self) -> Seq<Seq<Card>> {
        self.melds.map_values(|melds: Seq<Seq<Card>>| melds.flatten())
    }

    /// All the cards on the table.
    pub open spec fn cards(self) -> Multiset<Card> {
        self.deck.to_multiset().add(self.pack.to_multiset()).add(spread(self.hands)).add(
            spread(self.meld_piles()),
        )
    }

    /// The table is in order: each player has a hand and a place for melds,
    /// the turn is a player's, what lies among the melds is a meld, and no
    /// card is on the table twice.
    pub open spec fn sound(self) -> bool {
        &&& self.hands.len() == self.melds.len()
        &&& 0 <= self.turn
        &&& self.turn < self.hands.len() || (self.hands.len() == 0 && self.turn == 0)
        &&& forall|p: int, m: int|
            0 <= p < self.melds.len() && 0 <= m < self.melds[p].len() ==> is_meld(
                #[trigger] self.melds[p][m],
            )
        &&& self.cards().subset_of(full_deck().to_multiset())
    }

    /// The hand of the player whose turn it is.
    pub open spec fn hand(self) -> Seq<Card> {
        self.hands[self.turn]
    }

    /// The table with other cards in the hand of the player whose turn it
    /// is.
    pub open spec fn with_hand(self, cards: Seq<Card>) -> Table {
        Table { hands: self.hands.update(self.turn, cards), ..self }
    }

    /// First step of a round: the player's hand is laid out by suit and
    /// rank.
    pub open spec fn sorted(self) -> Table {
        self.with_hand(arranged(self.hand(), Ranking::BySuit))
    }

    /// There is a card to draw where the player wants to draw.
    pub open spec fn can_draw(self, action: DrawAction) -> bool {
        match action {
            DrawAction::DrawFromDeck => self.deck.len() > 0,
            DrawAction::DrawFromDiscard => self.pack.len() > 0,
        }
    }

    /// The card that the player draws.
    pub open spec fn top(self, action: DrawAction) -> Card {
        match action {
            DrawAction::DrawFromDeck => self.deck.last(),
            DrawAction::DrawFromDiscard => self.pack.last(),
        }
    }

    /// Second step of a round: the top card of the deck or of the pack goes
    /// to the player's hand.
    pub open spec fn drawn(self, action: DrawAction) -> Table {
        let hands = self.hands.update(self.turn, self.hand().push(self.top(action)));
        match action {
            DrawAction::DrawFromDeck => Table { deck: self.deck.drop_last(), hands, ..self },
            DrawAction::DrawFromDiscard => Table { pack: self.pack.drop_last(), hands, ..self },
        }
    }

    /// The player who comes next.
    pub open spec fn next_turn(self) -> int {
        if self.deck.len() == 0 {
            self.turn
        } else {
            (self.turn + 1) % (self.hands.len() as int)
        }
    }

    /// The table after the player's choice has been carried out and found
    /// to leave `rest` in the hand.
    pub open spec fn settled(self, choice: Choice, rest: Seq<Card>) -> Table {
        Table {
            deck: self.deck,
            pack: self.pack.push(choice.discard),
            hands: self.hands.update(self.turn, rest),
            melds: self.melds.update(self.turn, self.melds[self.turn] + laid(choice.melds)),
            turn: self.next_turn(),
        }
    }

    /// Third step of a round: the player's melds go to the table and the
    /// discard to the pack, and the turn passes on unless the deck is empty.
    /// Says whether the game goes on. A choice that breaks the rules leaves
    /// the table as it is.
    pub open spec fn plays(self, choice: Choice) -> (Table, Result<bool, GameError>) {
        match settles(self.hand(), choice) {
            Err(fault) => (self, Err(fault)),
            Ok(rest) => (self.settled(choice, rest), Ok(self.deck.len() > 0)),
        }
    }

    /// How a game ends that was given `turns` to play: with the scores where
    /// the deck ran out, with the fault where a player broke the rules, and
    /// over the limit where the game would go on.
    pub open spec fn outcome(self, turns: Seq<(DrawAction, Choice)>) -> Result<
        Seq<int>,
        GameError,
    > {
        match self.run(turns).1 {
            Ok(more) => if more {
                Err(GameError::RoundLimit)
            } else {
                Ok(self.run(turns).0.scores())
            },
            Err(fault) => Err(fault),
        }
    }

    /// What each hand costs its holder.
    pub open spec fn scores(self) -> Seq<int> {
        Seq::new(self.hands.len(), |player: int| score_of(self.hands[player]))
    }

    /// A whole round. Where the player wants to draw from the empty deck, the
    /// round ends there and the game is over; to draw from the empty pack is a
    /// fault.
    pub open spec fn round(self, action: DrawAction, choice: Choice) -> (
        Table,
        Result<bool, GameError>,
    ) {
        let table = self.sorted();
        if table.can_draw(action) {
            table.drawn(action).plays(choice)
        } else {
            (table, no_card(action))
        }
    }

    /// The rounds that the players' decisions make, one after the other,
    /// for as long as the game goes on: the table that they leave, and
    /// whether the game goes on after them.
    pub open spec fn run(self, turns: Seq<(DrawAction, Choice)>) -> (Table, Result<bool, GameError>)
        decreases turns.len(),
    {
        if turns.len() == 0 {
            (self, Ok(true))
        } else {
            let (table, state) = self.run(turns.drop_last());
            if state == Ok::<bool, GameError>(true) {
                table.round(turns.last().0, turns.last().1)
            } else {
                (table, state)
            }
        }
    }
}

/// Changing one pile changes the spread by the cards of that pile.
pub proof fn lemma_spread_update(piles: Seq<Seq<Card>>, i: int, pile: Seq<Card>)
    requires
        0 <= i < piles.len(),
    ensures
        piles[i].to_multiset().subset_of(spread(piles)),
        spread(piles.update(i, pile)) == spread(piles).sub(piles[i].to_multiset()).add(
            pile.to_multiset(),
        ),
{
    let front = piles.take(i);
    let back = piles.skip(i + 1);
    lemma_spread_three(front, piles[i], back);
    lemma_spread_three(front, pile, back);
    assert(piles == front + seq![piles[i]] + back);
    assert(piles.update(i, pile) == front + seq![pile] + back);
    assert(spread(piles.update(i, pile)) =~= spread(piles).sub(piles[i].to_multiset()).add(
        pile.to_multiset(),
    ));
}

proof fn lemma_spread_three(front: Seq<Seq<Card>>, pile: Seq<Card>, back: Seq<Seq<Card>>)
    ensures
        spread(front + seq![pile] + back) == spread(front).add(pile.to_multiset()).add(
            spread(back),
        ),
{
    let one = seq![pile];
    assert(one.flatten() == pile) by {
        one.lemma_flatten_singleton();
    }
    lemma_flatten_concat(front, one);
    lemma_flatten_concat(front + one, back);
    lemma_multiset_commutative(front.flatten(), pile);
    lemma_multiset_commutative(front.flatten() + pile, back.flatten());
}

/// The cards of each pile are among the cards of all the piles.
pub proof fn lemma_spread_holds(piles: Seq<Seq<Card>>, i: int)
    requires
        0 <= i < piles.len(),
    ensures
        piles[i].to_multiset().subset_of(spread(piles)),
{
    let front = piles.take(i);
    let back = piles.skip(i + 1);
    lemma_spread_three(front, piles[i], back);
    assert(piles == front + seq![piles[i]] + back);
}

proof fn lemma_first_and_rest(cards: Seq<Card>)
    requires
        cards.len() > 0,
    ensures
        cards.to_multiset() == cards.drop_first().to_multiset().insert(cards[0]),
{
    let one = seq![cards[0]];
    assert(cards == one + cards.drop_first());
    lemma_multiset_commutative(one, cards.drop_first());
    assert(one == Seq::<Card>::empty().push(cards[0]));
    to_multiset_build(Seq::<Card>::empty(), cards[0]);
    Seq::<Card>::empty().to_multiset_ensures();
    assert(cards.to_multiset() =~= cards.drop_first().to_multiset().insert(cards[0]));
}

/// A card that leaves a hand that holds it leaves it once.
pub proof fn lemma_remove_value(hand: Seq<Card>, card: Card)
    requires
        hand.contains(card),
    ensures
        hand.to_multiset() == hand.remove_value(card).to_multiset().insert(card),
        hand.remove_value(card).len() + 1 == hand.len(),
{
    hand.index_of_first_ensures(card);
    let at = hand.index_of_first(card).unwrap();
    to_multiset_remove(hand, at);
    to_multiset_contains(hand, card);
    assert(hand.to_multiset() =~= hand.remove_value(card).to_multiset().insert(card));
}

/// The cards that a group takes from a hand are the cards of the group.
pub proof fn lemma_takes(hand: Seq<Card>, group: Seq<Card>)
    requires
        takes(hand, group) is Some,
    ensures
        hand.to_multiset() == takes(hand, group).unwrap().to_multiset().add(group.to_multiset()),
    decreases group.len(),
{
    if group.len() == 0 {
        group.to_multiset_ensures();
        assert(hand.to_multiset() =~= hand.to_multiset().add(group.to_multiset()));
    } else {
        let next = hand.remove_value(group[0]);
        lemma_remove_value(hand, group[0]);
        lemma_takes(next, group.drop_first());
        lemma_first_and_rest(group);
        assert(hand.to_multiset() =~= takes(hand, group).unwrap().to_multiset().add(
            group.to_multiset(),
        ));
    }
}

/// Where groups can be laid down from a hand, each of them is a meld, and
/// the cards that leave the hand are the cards of the groups.
pub proof fn lemma_lays(hand: Seq<Card>, groups: Seq<Seq<Card>>)
    requires
        lays(hand, groups) is Ok,
    ensures
        forall|i: int| 0 <= i < groups.len() ==> is_meld(#[trigger] groups[i]),
        hand.to_multiset() == lays(hand, groups).unwrap().to_multiset().add(spread(groups)),
    decreases groups.len(),
{
    if groups.len() == 0 {
        groups.flatten().to_multiset_ensures();
        assert(hand.to_multiset() =~= hand.to_multiset().add(spread(groups)));
    } else {
        let next = takes(hand, groups[0]).unwrap();
        lemma_takes(hand, groups[0]);
        lemma_lays(next, groups.drop_first());
        lemma_multiset_commutative(groups[0], groups.drop_first().flatten());
        assert forall|i: int| 0 <= i < groups.len() implies is_meld(#[trigger] groups[i]) by {
            if i > 0 {
                assert(groups[i] == groups.drop_first()[i - 1]);
            }
        }
        assert(hand.to_multiset() =~= lays(hand, groups).unwrap().to_multiset().add(
            spread(groups),
        ));
    }
}

/// What a choice that keeps to the rules leaves in the hand: the cards of
/// the hand without the cards of the melds and without the discard.
pub proof fn lemma_settles(hand: Seq<Card>, choice: Choice)
    requires
        settles(hand, choice) is Ok,
    ensures
        hand.to_multiset() == settles(hand, choice).unwrap().to_multiset().add(
            spread(choice.melds),
        ).insert(choice.discard),
        hand.len() == settles(hand, choice).unwrap().len() + choice.melds.flatten().len() + 1,
{
    let kept = lays(hand, choice.melds).unwrap();
    let rest = settles(hand, choice).unwrap();
    lemma_lays(hand, choice.melds);
    lemma_remove_value(kept, choice.discard);
    assert(hand.to_multiset() =~= rest.to_multiset().add(spread(choice.melds)).insert(
        choice.discard,
    ));
    to_multiset_len(hand);
    to_multiset_len(rest);
    to_multiset_len(choice.melds.flatten());
}

/// The groups on the table are melds and hold the cards that were laid
/// down.
pub proof fn lemma_laid(groups: Seq<Seq<Card>>)
    requires
        forall|i: int| 0 <= i < groups.len() ==> is_meld(#[trigger] groups[i]),
    ensures
        forall|i: int| 0 <= i < groups.len() ==> is_meld(#[trigger] laid(groups)[i]),
        spread(laid(groups)) == spread(groups),
    decreases groups.len(),
{
    assert forall|i: int| 0 <= i < groups.len() implies is_meld(#[trigger] laid(groups)[i]) by {
        assert(is_meld(groups[i]));
        lemma_judged_again(groups[i]);
    }
    if groups.len() == 0 {
        assert(laid(groups) == groups);
    } else {
        let front = groups.drop_last();
        let last = groups.last();
        assert forall|i: int| 0 <= i < front.len() implies is_meld(#[trigger] front[i]) by {
            assert(front[i] == groups[i]);
        }
        lemma_laid(front);
        assert(groups == front.push(last));
        assert(laid(groups) == laid(front).push(arranged(last, Ranking::AceLow)));
        front.lemma_flatten_push(last);
        laid(front).lemma_flatten_push(arranged(last, Ranking::AceLow));
        lemma_multiset_commutative(front.flatten(), last);
        lemma_multiset_commutative(laid(front).flatten(), arranged(last, Ranking::AceLow));
        lemma_arranged_keeps_cards(last, Ranking::AceLow);
    }
}

/// On a sound table no hand has more than the fifty-two cards of a deck.
pub proof fn lemma_hand_fits(table: Table, player: int)
    requires
        table.sound(),
        0 <= player < table.hands.len(),
    ensures
        table.hands[player].len() <= 52,
{
    lemma_spread_holds(table.hands, player);
    lemma_from_one_deck(table.hands[player]);
}

/// Laying a hand out in order keeps the table sound and every card on it.
pub proof fn lemma_sorted_sound(table: Table)
    requires
        table.sound(),
        table.hands.len() > 0,
    ensures
        table.sorted().sound(),
        table.sorted().cards() == table.cards(),
{
    let hand = arranged(table.hand(), Ranking::BySuit);
    lemma_arranged_keeps_cards(table.hand(), Ranking::BySuit);
    lemma_spread_update(table.hands, table.turn, hand);
    assert(table.sorted().cards() =~= table.cards());
}

/// Drawing a card keeps the table sound and every card on it.
pub proof fn lemma_drawn_sound(table: Table, action: DrawAction)
    requires
        table.sound(),
        table.hands.len() > 0,
        table.can_draw(action),
    ensures
        table.drawn(action).sound(),
        table.drawn(action).cards() == table.cards(),
{
    let card = table.top(action);
    lemma_spread_update(table.hands, table.turn, table.hand().push(card));
    to_multiset_build(table.hand(), card);
    match action {
        DrawAction::DrawFromDeck => {
            assert(table.deck == table.deck.drop_last().push(card));
            to_multiset_build(table.deck.drop_last(), card);
        },
        DrawAction::DrawFromDiscard => {
            assert(table.pack == table.pack.drop_last().push(card));
            to_multiset_build(table.pack.drop_last(), card);
        },
    }
    assert(table.drawn(action).cards() =~= table.cards());
}

/// Melding and discarding keeps the table sound and every card on it,
/// whether the player's choice is carried out or refused.
pub proof fn lemma_plays_sound(table: Table, choice: Choice)
    requires
        table.sound(),
        table.hands.len() > 0,
    ensures
        table.plays(choice).0.sound(),
        table.plays(choice).0.cards() == table.cards(),
{
    if let Ok(rest) = settles(table.hand(), choice) {
        let after = table.settled(choice, rest);
        let kept = lays(table.hand(), choice.melds).unwrap();
        let mine = table.melds[table.turn];
        lemma_lays(table.hand(), choice.melds);
        lemma_laid(choice.melds);
        lemma_remove_value(kept, choice.discard);
        lemma_spread_update(table.hands, table.turn, rest);
        assert(after.meld_piles() == table.meld_piles().update(
            table.turn,
            (mine + laid(choice.melds)).flatten(),
        ));
        lemma_spread_update(table.meld_piles(), table.turn, (mine + laid(choice.melds)).flatten());
        lemma_flatten_concat(mine, laid(choice.melds));
        lemma_multiset_commutative(mine.flatten(), laid(choice.melds).flatten());
        to_multiset_build(table.pack, choice.discard);
        assert(after.cards() =~= table.cards());
        assert forall|p: int, m: int|
            0 <= p < after.melds.len() && 0 <= m < after.melds[p].len() implies is_meld(
            #[trigger] after.melds[p][m],
        ) by {
            if p == table.turn {
                if m < mine.len() {
                    assert(after.melds[p][m] == table.melds[p][m]);
                } else {
                    assert(after.melds[p][m] == laid(choice.melds)[m - mine.len()]);
                }
            } else {
                assert(after.melds[p][m] == table.melds[p][m]);
            }
        }
        lemma_next_turn(table);
    }
}

proof fn lemma_next_turn(table: Table)
    requires
        table.sound(),
        table.hands.len() > 0,
    ensures
        0 <= table.next_turn() < table.hands.len(),
{
    let n = table.hands.len() as int;
    let t = table.turn;
    assert(0 <= (t + 1) % n < n) by (nonlinear_arith)
        requires
            n > 0,
    ;
}

/// A round keeps the table sound and every card on it, however it ends.
pub proof fn lemma_round_sound(table: Table, action: DrawAction, choice: Choice)
    requires
        table.sound(),
        table.hands.len() > 0,
    ensures
        table.round(action, choice).0.sound(),
        table.round(action, choice).0.cards() == table.cards(),
        table.round(action, choice).0.hands.len() == table.hands.len(),
{
    lemma_sorted_sound(table);
    if table.sorted().can_draw(action) {
        lemma_drawn_sound(table.sorted(), action);
        lemma_plays_sound(table.sorted().drawn(action), choice);
    }
}

/// How a round moves the game on. While the game goes on the deck is not
/// empty and the turn passes to the next player; the round that ends the
/// game leaves the deck empty and the turn where it was, and a round that is
/// broken off leaves the turn where it was too. A card leaves the deck only
/// where the player draws from it, and a round that is played out leaves as
/// many cards in the deck and the pack together as there were. What was laid
/// down stays laid down.
pub proof fn lemma_round_moves(table: Table, action: DrawAction, choice: Choice)
    requires
        table.sound(),
        table.hands.len() > 0,
    ensures
        ({
            let (after, state) = table.round(action, choice);
            &&& state == Ok::<bool, GameError>(true) ==> after.deck.len() > 0 && after.turn == (
            table.turn + 1) % (table.hands.len() as int)
            &&& state != Ok::<bool, GameError>(true) ==> after.turn == table.turn
            &&& state == Ok::<bool, GameError>(false) ==> after.deck.len() == 0
            &&& after.deck.len() == if action == DrawAction::DrawFromDeck && table.deck.len() > 0 {
                table.deck.len() - 1
            } else {
                table.deck.len() as int
            }
            &&& state is Ok && table.sorted().can_draw(action) ==> after.deck.len()
                + after.pack.len() == table.deck.len() + table.pack.len()
            &&& after.melds.len() == table.melds.len()
            &&& forall|p: int|
                0 <= p < table.melds.len() ==> table.melds[p].is_prefix_of(
                    #[trigger] after.melds[p],
                )
        }),
{
}

/// A game that has ended without a fault has an empty deck.
pub proof fn lemma_run_ends(table: Table, turns: Seq<(DrawAction, Choice)>)
    requires
        table.sound(),
        table.hands.len() > 0,
    ensures
        table.run(turns).1 == Ok::<bool, GameError>(false) ==> table.run(turns).0.deck.len() == 0,
        table.run(turns).1 == Ok::<bool, GameError>(true) && turns.len() > 0 ==> table.run(
            turns,
        ).0.deck.len() > 0,
    decreases turns.len(),
{
    if turns.len() > 0 {
        lemma_run_ends(table, turns.drop_last());
        lemma_run_sound(table, turns.drop_last());
        let (before, state) = table.run(turns.drop_last());
        if state == Ok::<bool, GameError>(true) {
            lemma_round_moves(before, turns.last().0, turns.last().1);
        }
    }
}

/// Rounds keep the table sound and every card on it, however many are
/// played and however they end.
pub proof fn lemma_run_sound(table: Table, turns: Seq<(DrawAction, Choice)>)
    requires
        table.sound(),
        table.hands.len() > 0,
    ensures
        table.run(turns).0.sound(),
        table.run(turns).0.cards() == table.cards(),
        table.run(turns).0.hands.len() == table.hands.len(),
    decreases turns.len(),
{
    if turns.len() > 0 {
        lemma_run_sound(table, turns.drop_last());
        let (before, state) = table.run(turns.drop_last());
        if state == Ok::<bool, GameError>(true) {
            lemma_round_sound(before, turns.last().0, turns.last().1);
        }
    }
}

/// A round of a player who draws from the deck and discards the first card
/// of the hand, while the deck has cards: no fault is made, one card goes
/// from the deck to the pack by way of the hand, the hands keep their sizes
/// and no meld is laid down. The game goes on unless that card was the last
/// of the deck.
pub proof fn lemma_my_round(table: Table, action: DrawAction, choice: Choice)
    requires
        table.sound(),
        table.hands.len() > 0,
        table.deck.len() > 0,
        fair::<MyStrategy>(table, action, choice),
    ensures
        ({
            let (after, state) = table.round(action, choice);
            &&& state == Ok::<bool, GameError>(table.deck.len() > 1)
            &&& after.deck.len() == table.deck.len() - 1
            &&& after.pack.len() == table.pack.len() + 1
            &&& after.hands.len() == table.hands.len()
            &&& forall|p: int|
                0 <= p < table.hands.len() ==> (#[trigger] after.hands[p]).len()
                    == table.hands[p].len()
            &&& after.melds == table.melds
        }),
{
    lemma_arranged_keeps_cards(table.hand(), Ranking::BySuit);
    let drawn = table.sorted().drawn(action);
    let hand = drawn.hand();
    assert(choice.melds == Seq::<Seq<Card>>::empty());
    assert(hand.contains(hand[0]));
    lemma_remove_value(hand, hand[0]);
    let (after, state) = table.round(action, choice);
    assert(laid(choice.melds) == Seq::<Seq<Card>>::empty());
    assert(table.melds[table.turn] + laid(choice.melds) == table.melds[table.turn]);
    assert(after.melds == table.melds);
}

/// A game between players who draw from the deck and discard the first
/// card of the hand: however the deck was shuffled, nobody makes a fault,
/// each round takes one card from the deck, the turn goes round the players
/// in order, and the game ends with the round that takes the last card.
/// `turns` are the decisions of the rounds, as many as the players are asked
/// for.
pub proof fn lemma_my_game(table: Table, turns: Seq<(DrawAction, Choice)>)
    requires
        table.sound(),
        table.hands.len() > 0,
        table.deck.len() > 0,
        fair_run::<MyStrategy>(table, turns),
    ensures
        ({
            let (after, state) = table.run(turns);
            let players = table.hands.len() as int;
            let rounds = if turns.len() < table.deck.len() {
                turns.len()
            } else {
                table.deck.len()
            };
            &&& state == Ok::<bool, GameError>(turns.len() < table.deck.len())
            &&& after.deck.len() == table.deck.len() - rounds
            &&& after.pack.len() == table.pack.len() + rounds
            &&& after.hands.len() == table.hands.len()
            &&& forall|p: int|
                0 <= p < table.hands.len() ==> (#[trigger] after.hands[p]).len()
                    == table.hands[p].len()
            &&& after.melds == table.melds
            &&& after.turn == if turns.len() < table.deck.len() {
                (table.turn + rounds) % players
            } else {
                (table.turn + rounds - 1) % players
            }
        }),
    decreases turns.len(),
{
    let players = table.hands.len() as int;
    if turns.len() == 0 {
        vstd::arithmetic::div_mod::lemma_small_mod(table.turn as nat, players as nat);
    } else {
        let before = turns.drop_last();
        lemma_my_game(table, before);
        lemma_run_sound(table, before);
        let (mid, state) = table.run(before);
        if before.len() < table.deck.len() {
            lemma_my_round(mid, turns.last().0, turns.last().1);
            lemma_round_moves(mid, turns.last().0, turns.last().1);
            vstd::arithmetic::div_mod::lemma_add_mod_noop_right(
                1,
                table.turn + before.len(),
                players,
            );
        }
    }
}

/// A game between such players that is given as many rounds as the deck
/// has cards runs to its end and is scored.
pub proof fn lemma_my_game_ends(table: Table, turns: Seq<(DrawAction, Choice)>, max_rounds: nat)
    requires
        table.sound(),
        table.hands.len() > 0,
        table.deck.len() > 0,
        fair_run::<MyStrategy>(table, turns),
        table.deck.len() <= max_rounds,
        table.run(turns).1 == Ok::<bool, GameError>(true) ==> turns.len() == max_rounds,
    ensures
        turns.len() >= table.deck.len(),
        table.outcome(turns) == Ok::<Seq<int>, GameError>(table.run(turns).0.scores()),
        table.run(turns).0.scores().len() == table.hands.len(),
        table.run(turns).0.deck.len() == 0,
{
    lemma_my_game(table, turns);
}

} // verus!
