//! The game: a deck, a pack, the players with their hands and melds, and the
//! rounds that they play.

use vstd::prelude::*;
use vstd::seq_lib::*;
use vstd::multiset::Multiset;
use crate::card::Card;
use crate::deck::{full_deck, lemma_full_deck_complete, Deck};
use crate::hand::{score_of, Hand};
use crate::meld::{copy_of, Meld};
use crate::order::{arranged, Ranking};
use crate::strategy::{groups_view, Choice, DrawAction, Play, Strategy};
use crate::table::{
    dealt, dealt_hand, fair, fair_run, laid, lays, lemma_drawn_sound, lemma_hand_fits,
    lemma_plays_sound, lemma_round_moves, lemma_round_sound, lemma_run_sound,
    lemma_sorted_sound, lemma_spread_update, no_card, spread, takes, GameError, Table,
};

verus! {

/// A game of rummy between the players that the strategies stand for.
pub struct Game<S: Strategy> {
    deck: Deck,
    pack: Vec<Card>,
    hands: Vec<Hand>,
    melds: Vec<Vec<Meld>>,
    strategies: Vec<S>,
    /// The player whose turn it is.
    turn: usize,
}

/// The cards of each hand.
pub open spec fn hands_view(hands: Seq<Hand>) -> Seq<Seq<Card>> {
    hands.map_values(|hand: Hand| hand@)
}

/// The cards of each meld.
pub open spec fn melds_view(melds: Seq<Meld>) -> Seq<Seq<Card>> {
    melds.map_values(|meld: Meld| meld@)
}

impl<S: Strategy> View for Game<S> {
    type V = Table;

    closed spec fn view(&self) -> Table {
        Table {
            deck: self.deck@,
            pack: self.pack@,
            hands: hands_view(self.hands@),
            melds: self.melds@.map_values(|melds: Vec<Meld>| melds_view(melds@)),
            turn: self.turn as int,
        }
    }
}

impl<S: Strategy> Game<S> {
    /// The number of players that the game was set up for.
    pub closed spec fn seats(&self) -> nat {
        self.strategies@.len()
    }

    /// The table is sound and every player has a hand.
    pub open spec fn wf(&self) -> bool {
        self@.sound() && self.seats() == self@.hands.len()
    }

    /// Deals a game from the deck as it lies: seven rounds of one card to
    /// each player, then one card face up to start the pack.
    pub fn deal(deck: Deck, strategies: Vec<S>) -> (game: Game<S>)
        requires
            7 * strategies@.len() + 1 <= deck@.len(),
        ensures
            game@ == dealt(deck@, strategies@.len()),
            game@.cards() == deck@.to_multiset(),
            game.wf(),
            game.seats() == strategies@.len(),
    {
        let ghost given = deck@;
        let ghost top = given.len() - 1;
        let mut deck = deck;
        let players = strategies.len();
        let ghost n = players as int;
        proof {
            use_type_invariant(&deck);
        }
        let mut hands: Vec<Hand> = Vec::new();
        let mut melds: Vec<Vec<Meld>> = Vec::new();
        let mut p: usize = 0;
        while p < players
            invariant
                p <= players,
                hands@.len() == p,
                melds@.len() == p,
                forall|q: int| 0 <= q < p ==> (#[trigger] hands@[q])@ == Seq::<Card>::empty(),
                forall|q: int| 0 <= q < p ==> (#[trigger] melds@[q])@ == Seq::<Meld>::empty(),
            decreases players - p,
        {
            hands.push(Hand::new());
            melds.push(Vec::new());
            p += 1;
        }
        proof {
            lemma_no_hands(hands_view(hands@));
            assert(deck@.to_multiset().add(spread(hands_view(hands@))) =~= given.to_multiset());
        }
        let mut round: usize = 0;
        while round < 7
            invariant
                round <= 7,
                n == players == hands@.len(),
                7 * n + 1 <= given.len(),
                top == given.len() - 1,
                deck@ == given.take(given.len() - round * n),
                forall|q: int|
                    0 <= q < n ==> (#[trigger] hands@[q])@ == dealt_hand(given, n, q).take(
                        round as int,
                    ),
                deck@.to_multiset().add(spread(hands_view(hands@))) == given.to_multiset(),
                melds@.len() == n,
                forall|q: int| 0 <= q < n ==> (#[trigger] melds@[q])@ == Seq::<Meld>::empty(),
            decreases 7 - round,
        {
            let mut p: usize = 0;
            assert(round * n + n == (round + 1) * n) by (nonlinear_arith);
            assert((round + 1) * n <= 7 * n) by (nonlinear_arith)
                requires
                    round + 1 <= 7,
                    n >= 0,
            ;
            while p < players
                invariant
                    round < 7,
                    p <= players,
                    n == players == hands@.len(),
                    7 * n + 1 <= given.len(),
                    round * n + n <= 7 * n,
                    top == given.len() - 1,
                    deck@ == given.take(given.len() - (round * n + p)),
                    forall|q: int|
                        0 <= q < n ==> (#[trigger] hands@[q])@ == dealt_hand(given, n, q).take(
                            if q < p {
                                round + 1
                            } else {
                                round as int
                            },
                        ),
                    deck@.to_multiset().add(spread(hands_view(hands@))) == given.to_multiset(),
                    melds@.len() == n,
                    forall|q: int| 0 <= q < n ==> (#[trigger] melds@[q])@ == Seq::<Meld>::empty(),
                decreases players - p,
            {
                let ghost before = hands_view(hands@);
                let ghost pile = deck@;
                let ghost was = hands@;
                let dealt_card = deck.deal();
                let card = dealt_card.unwrap();
                hands[p].add(card);
                proof {
                    let hand_before = before[p as int];
                    assert(was[p as int]@ == hand_before);
                    assert(hands_view(hands@) == before.update(p as int, hand_before.push(card)));
                    lemma_spread_update(before, p as int, hand_before.push(card));
                    to_multiset_build(hand_before, card);
                    assert(pile == deck@.push(card));
                    to_multiset_build(deck@, card);
                    assert(deck@.to_multiset().add(spread(hands_view(hands@)))
                        =~= given.to_multiset());
                    assert(card == given[top - (round * n + p)]);
                    assert(hands@[p as int]@ == dealt_hand(given, n, p as int).take(round + 1));
                    assert forall|q: int| 0 <= q < n implies (#[trigger] hands@[q])@ == dealt_hand(
                        given,
                        n,
                        q,
                    ).take(
                        if q < p + 1 {
                            round + 1
                        } else {
                            round as int
                        },
                    ) by {
                        if q != p {
                            assert(hands@[q] == was[q]);
                        }
                    }
                }
                p += 1;
            }
            round += 1;
        }
        let ghost pile = deck@;
        let first = deck.deal();
        let mut pack: Vec<Card> = Vec::new();
        pack.push(first.unwrap());
        let game = Game { deck, pack, hands, melds, strategies, turn: 0 };
        proof {
            let table = dealt(given, n as nat);
            assert(game@.deck == table.deck);
            assert(game@.pack == table.pack);
            assert(game@.hands == table.hands) by {
                assert forall|q: int| 0 <= q < n implies game@.hands[q] == table.hands[q] by {
                    assert(hands@[q]@ == dealt_hand(given, n, q).take(7));
                }
            }
            assert(game@.melds == table.melds) by {
                assert forall|q: int| 0 <= q < n implies game@.melds[q] == table.melds[q] by {
                    assert(melds@[q]@ == Seq::<Meld>::empty());
                }
            }
            assert(pile == game.deck@.push(pack@[0]));
            to_multiset_build(game.deck@, pack@[0]);
            to_multiset_build(Seq::<Card>::empty(), pack@[0]);
            assert(pack@ == Seq::<Card>::empty().push(pack@[0]));
            Seq::<Card>::empty().to_multiset_ensures();
            lemma_no_hands(game@.meld_piles());
            assert(game@.cards() =~= given.to_multiset());
        }
        game
    }

    /// Sets up a game for the players: a new deck is shuffled and the game
    /// is dealt from it. Seven players at most can be served from one deck.
    pub fn new(strategies: Vec<S>) -> (game: Game<S>)
        requires
            strategies@.len() <= 7,
        ensures
            game.wf(),
            game.seats() == strategies@.len(),
            game@.cards() == full_deck().to_multiset(),
            exists|deck: Seq<Card>|
                {
                    &&& deck.len() == 52
                    &&& deck.to_multiset() == full_deck().to_multiset()
                    &&& game@ == dealt(deck, strategies@.len())
                },
    {
        let mut deck = Deck::new();
        deck.shuffle();
        assert(deck@.len() == 52) by {
            lemma_full_deck_complete();
        }
        Game::deal(deck, strategies)
    }

    /// First step of a round: lays out the hand of the player whose turn it
    /// is.
    pub fn sort_hand(&mut self)
        requires
            old(self).wf(),
            old(self)@.hands.len() > 0,
        ensures
            final(self)@ == old(self)@.sorted(),
            final(self).wf(),
            final(self).seats() == old(self).seats(),
    {
        let ghost before = self.hands@;
        self.hands[self.turn].sort();
        proof {
            assert(hands_view(self.hands@) == hands_view(before).update(
                self.turn as int,
                arranged(before[self.turn as int]@, Ranking::BySuit),
            ));
            assert(self@ == old(self)@.sorted());
            lemma_sorted_sound(old(self)@);
        }
    }

    /// Second step of a round: the player whose turn it is takes the top
    /// card of the deck or of the pack. Hands out the card that was drawn.
    /// Where there is no card to draw, nothing changes: an empty deck gives
    /// no card, and to reach for an empty pack is a fault.
    pub fn draw(&mut self, action: DrawAction) -> (card: Result<Option<Card>, GameError>)
        requires
            old(self).wf(),
            old(self)@.hands.len() > 0,
        ensures
            final(self).wf(),
            final(self).seats() == old(self).seats(),
            old(self)@.can_draw(action) ==> card == Ok::<Option<Card>, GameError>(
                Some(old(self)@.top(action)),
            ) && final(self)@ == old(self)@.drawn(action),
            !old(self)@.can_draw(action) ==> final(self)@ == old(self)@ && match action {
                DrawAction::DrawFromDeck => card == Ok::<Option<Card>, GameError>(None),
                DrawAction::DrawFromDiscard => card == Err::<Option<Card>, GameError>(
                    GameError::EmptyPack,
                ),
            },
    {
        let drawn = match action {
            DrawAction::DrawFromDeck => self.deck.deal(),
            DrawAction::DrawFromDiscard => self.pack.pop(),
        };
        match drawn {
            None => {
                assert(self@ == old(self)@);
                match action {
                    DrawAction::DrawFromDeck => Ok(None),
                    DrawAction::DrawFromDiscard => Err(GameError::EmptyPack),
                }
            },
            Some(card) => {
                let ghost before = self.hands@;
                self.hands[self.turn].add(card);
                proof {
                    assert(hands_view(self.hands@) == hands_view(before).update(
                        self.turn as int,
                        before[self.turn as int]@.push(card),
                    ));
                    assert(self@ == old(self)@.drawn(action));
                    lemma_drawn_sound(old(self)@, action);
                }
                Ok(Some(card))
            },
        }
    }

    /// Third step of a round: carries out what the player whose turn it is
    /// has chosen. The groups are laid down as melds and the discard goes on
    /// the pack; then the turn passes to the next player, unless the deck is
    /// empty and the game over. Says whether the game goes on. A choice that
    /// breaks the rules is refused as a whole and changes nothing.
    pub fn lay_down(&mut self, play: &Play) -> (more: Result<bool, GameError>)
        requires
            old(self).wf(),
            old(self)@.hands.len() > 0,
        ensures
            (final(self)@, more) == old(self)@.plays(play@),
            final(self).wf(),
            final(self).seats() == old(self).seats(),
    {
        proof {
            lemma_plays_sound(old(self)@, play@);
        }
        let turn = self.turn;
        let players = self.strategies.len();
        assert(turn < players);
        let mut rest = copy_of(&self.hands[turn].cards);
        match lay_groups(&mut rest, &play.melds) {
            Err(fault) => Err(fault),
            Ok(melds) => {
                if !take_card(&mut rest, play.discard) {
                    return Err(GameError::MissingCard);
                }
                let mut melds = melds;
                let ghost hands_before = self.hands@;
                let ghost melds_before = self.melds@;
                let ghost laid_down = melds@;
                self.hands[turn] = Hand { cards: rest };
                self.melds[turn].append(&mut melds);
                self.pack.push(play.discard);
                let more = self.deck.len() > 0;
                if more {
                    self.turn = (turn + 1) % players;
                }
                proof {
                    let turn = turn as int;
                    let table = old(self)@;
                    assert(hands_view(self.hands@) == hands_view(hands_before).update(turn, rest@));
                    assert(self@.melds == table.melds.update(
                        turn,
                        table.melds[turn] + laid(play@.melds),
                    )) by {
                        assert(self.melds@[turn]@ == melds_before[turn]@ + laid_down);
                        assert(melds_view(self.melds@[turn]@) == melds_view(melds_before[turn]@)
                            + melds_view(laid_down));
                        assert forall|p: int|
                            0 <= p < self.melds@.len() && p != turn implies self.melds@[p]
                            == melds_before[p] by {}
                    }
                    assert(self@ == table.settled(play@, rest@));
                }
                Ok(more)
            },
        }
    }

    /// Plays one round: the hand of the player whose turn it is is laid out,
    /// the player draws where it chooses to, and what it then chooses to
    /// meld and to discard is carried out. Says whether the game goes on.
    /// Whatever the player decides, the round is one that the rules allow
    /// for some decisions, or it ends with the fault that the player made.
    pub fn round(&mut self) -> (more: Result<bool, GameError>)
        requires
            old(self).wf(),
            old(self)@.hands.len() > 0,
        ensures
            final(self).wf(),
            final(self).seats() == old(self).seats(),
            final(self)@.cards() == old(self)@.cards(),
            exists|action: DrawAction, choice: Choice|
                fair::<S>(old(self)@, action, choice) && (final(self)@, more) == old(self)@.round(
                    action,
                    choice,
                ),
            more == Ok::<bool, GameError>(true) ==> final(self)@.deck.len() > 0 && final(self)@.turn
                == (old(self)@.turn + 1) % (old(self)@.hands.len() as int),
            more != Ok::<bool, GameError>(true) ==> final(self)@.turn == old(self)@.turn,
            more == Ok::<bool, GameError>(false) ==> final(self)@.deck.len() == 0,
    {
        self.sort_hand();
        let turn = self.turn;
        let action = self.strategies[turn].choose_draw(&self.hands[turn]);
        let ghost idle = Choice { melds: Seq::empty(), discard: old(self)@.top(action) };
        proof {
            lemma_round_sound(old(self)@, action, idle);
            lemma_round_moves(old(self)@, action, idle);
        }
        match self.draw(action) {
            Err(fault) => {
                assert((self@, no_card(action)) == old(self)@.round(action, idle));
                Err(fault)
            },
            Ok(None) => {
                assert((self@, no_card(action)) == old(self)@.round(action, idle));
                Ok(false)
            },
            Ok(Some(_)) => {
                assert(self@.hands[turn as int] == self.hands@[turn as int]@);
                let play = self.strategies[turn].choose_play(&self.hands[turn]);
                let more = self.lay_down(&play);
                proof {
                    assert((self@, more) == old(self)@.round(action, play@));
                    lemma_round_sound(old(self)@, action, play@);
                    lemma_round_moves(old(self)@, action, play@);
                }
                more
            },
        }
    }

    /// Plays rounds until the game is over, and at most `max_rounds` of
    /// them. Hands out the scores when the deck has run out, the fault when
    /// a player has broken the rules, and `RoundLimit` when the rounds are
    /// spent and the game would go on.
    pub fn play(&mut self, max_rounds: usize) -> (scores: Result<Vec<usize>, GameError>)
        requires
            old(self).wf(),
            old(self)@.hands.len() > 0,
        ensures
            final(self).wf(),
            final(self).seats() == old(self).seats(),
            final(self)@.cards() == old(self)@.cards(),
            exists|turns: Seq<(DrawAction, Choice)>|
                {
                    &&& turns.len() <= max_rounds
                    &&& fair_run::<S>(old(self)@, turns)
                    &&& old(self)@.run(turns).1 == Ok::<bool, GameError>(true) ==> turns.len()
                        == max_rounds
                    &&& final(self)@ == #[trigger] old(self)@.run(turns).0
                    &&& points_view(scores) == old(self)@.outcome(turns)
                },
            scores is Ok ==> final(self)@.deck.len() == 0,
    {
        let ghost mut turns: Seq<(DrawAction, Choice)> = Seq::empty();
        let mut rounds: usize = 0;
        while rounds < max_rounds
            invariant
                self.wf(),
                self.seats() == old(self).seats(),
                self@.hands.len() > 0,
                old(self)@.sound(),
                old(self)@.hands.len() > 0,
                rounds == turns.len(),
                rounds <= max_rounds,
                old(self)@.run(turns) == (self@, Ok::<bool, GameError>(true)),
                fair_run::<S>(old(self)@, turns),
            decreases max_rounds - rounds,
        {
            let ghost before = self@;
            let ghost played = turns;
            let more = self.round();
            proof {
                let (action, choice) = choose|action: DrawAction, choice: Choice|
                    fair::<S>(before, action, choice) && (self@, more) == before.round(
                        action,
                        choice,
                    );
                turns = played.push((action, choice));
                assert(turns.drop_last() == played);
                assert(old(self)@.run(turns) == (self@, more));
                lemma_run_sound(old(self)@, turns);
            }
            rounds += 1;
            match more {
                Ok(true) => {},
                Ok(false) => {
                    let scores = self.score();
                    return Ok(scores);
                },
                Err(fault) => {
                    return Err(fault);
                },
            }
        }
        proof {
            lemma_run_sound(old(self)@, turns);
        }
        Err(GameError::RoundLimit)
    }

    /// What each player's hand costs its holder: the lower, the better.
    /// Cards that were laid down as melds cost nothing.
    pub fn score(&self) -> (scores: Vec<usize>)
        requires
            self.wf(),
        ensures
            scores@.len() == self@.hands.len(),
            forall|player: int|
                0 <= player < scores@.len() ==> scores@[player] == score_of(self@.hands[player]),
            scores@.map_values(|points: usize| points as int) == self@.scores(),
    {
        let mut scores: Vec<usize> = Vec::new();
        let mut p: usize = 0;
        while p < self.hands.len()
            invariant
                self.wf(),
                p <= self.hands@.len(),
                scores@.len() == p,
                forall|q: int| 0 <= q < p ==> scores@[q] as int == score_of(self.hands@[q]@),
            decreases self.hands.len() - p,
        {
            proof {
                lemma_hand_fits(self@, p as int);
            }
            scores.push(self.hands[p].score());
            p += 1;
        }
        assert(scores@.map_values(|points: usize| points as int) == self@.scores());
        scores
    }

    /// The player whose turn it is.
    pub fn turn(&self) -> (turn: usize)
        ensures
            turn == self@.turn,
    {
        self.turn
    }

    /// The number of players.
    pub fn players(&self) -> (players: usize)
        ensures
            players == self@.hands.len(),
    {
        self.hands.len()
    }

    /// The number of cards that are left in the deck.
    pub fn deck_len(&self) -> (cards: usize)
        ensures
            cards == self@.deck.len(),
    {
        self.deck.len()
    }

    /// The discarded cards; the last of them is on top.
    pub fn pack(&self) -> (pack: &Vec<Card>)
        ensures
            pack@ == self@.pack,
    {
        &self.pack
    }

    /// The hand of a player.
    pub fn hand(&self, player: usize) -> (hand: &Hand)
        requires
            player < self@.hands.len(),
        ensures
            hand@ == self@.hands[player as int],
    {
        &self.hands[player]
    }

    /// The melds that a player has laid down.
    pub fn melds(&self, player: usize) -> (melds: &Vec<Meld>)
        requires
            player < self@.melds.len(),
        ensures
            melds_view(melds@) == self@.melds[player as int],
    {
        &self.melds[player]
    }
}

/// The result of a game as the rules read it.
pub open spec fn points_view(scores: Result<Vec<usize>, GameError>) -> Result<
    Seq<int>,
    GameError,
> {
    match scores {
        Ok(points) => Ok(points@.map_values(|points: usize| points as int)),
        Err(fault) => Err(fault),
    }
}

fn take_card(hand: &mut Vec<Card>, card: Card) -> (found: bool)
    ensures
        found == old(hand)@.contains(card),
        found ==> final(hand)@ == old(hand)@.remove_value(card),
        !found ==> final(hand)@ == old(hand)@,
{
    let mut i: usize = 0;
    while i < hand.len()
        invariant
            *hand == *old(hand),
            i <= hand@.len(),
            forall|j: int| 0 <= j < i ==> hand@[j] != card,
        decreases hand.len() - i,
    {
        if hand[i] == card {
            proof {
                hand@.index_of_first_ensures(card);
            }
            hand.remove(i);
            return true;
        }
        i += 1;
    }
    false
}

fn take_group(hand: &mut Vec<Card>, group: &Vec<Card>) -> (held: bool)
    ensures
        held == takes(old(hand)@, group@) is Some,
        held ==> final(hand)@ == takes(old(hand)@, group@)->0,
{
    let mut k: usize = 0;
    assert(group@.skip(0) == group@);
    while k < group.len()
        invariant
            k <= group@.len(),
            takes(old(hand)@, group@) == takes(hand@, group@.skip(k as int)),
        decreases group.len() - k,
    {
        assert(group@.skip(k as int)[0] == group@[k as int]);
        assert(group@.skip(k as int).drop_first() == group@.skip(k + 1));
        if !take_card(hand, group[k]) {
            return false;
        }
        k += 1;
    }
    true
}

fn lay_groups(hand: &mut Vec<Card>, groups: &Vec<Vec<Card>>) -> (melds: Result<
    Vec<Meld>,
    GameError,
>)
    ensures
        match lays(old(hand)@, groups_view(groups@)) {
            Ok(rest) => melds is Ok && final(hand)@ == rest && melds_view(melds->Ok_0@) == laid(
                groups_view(groups@),
            ),
            Err(fault) => melds == Err::<Vec<Meld>, GameError>(fault),
        },
{
    let ghost all = groups_view(groups@);
    let mut melds: Vec<Meld> = Vec::new();
    let mut k: usize = 0;
    assert(all.skip(0) == all);
    assert(melds_view(melds@) == laid(all.take(0)));
    while k < groups.len()
        invariant
            k <= groups@.len(),
            all == groups_view(groups@),
            lays(old(hand)@, all) == lays(hand@, all.skip(k as int)),
            melds_view(melds@) == laid(all.take(k as int)),
        decreases groups.len() - k,
    {
        assert(all.skip(k as int)[0] == groups@[k as int]@);
        assert(all.skip(k as int).drop_first() == all.skip(k + 1));
        match Meld::try_new(copy_of(&groups[k])) {
            None => {
                return Err(GameError::InvalidMeld);
            },
            Some(meld) => {
                if !take_group(hand, &groups[k]) {
                    return Err(GameError::MissingCard);
                }
                let ghost before = melds@;
                melds.push(meld);
                assert(melds_view(melds@) == laid(all.take(k + 1))) by {
                    assert(all.take(k + 1) == all.take(k as int).push(all[k as int]));
                    assert(melds_view(melds@) == melds_view(before).push(meld@));
                }
            },
        }
        k += 1;
    }
    assert(all.take(k as int) == all);
    Ok(melds)
}

proof fn lemma_no_hands(piles: Seq<Seq<Card>>)
    requires
        forall|i: int| 0 <= i < piles.len() ==> (#[trigger] piles[i]).len() == 0,
    ensures
        piles.flatten() == Seq::<Card>::empty(),
        spread(piles) == Multiset::<Card>::empty(),
    decreases piles.len(),
{
    if piles.len() > 0 {
        assert forall|i: int| 0 <= i < piles.drop_first().len() implies (
        #[trigger] piles.drop_first()[i]).len() == 0 by {
            assert(piles.drop_first()[i] == piles[i + 1]);
        }
        lemma_no_hands(piles.drop_first());
        assert(piles[0] =~= Seq::<Card>::empty());
    }
    Seq::<Card>::empty().to_multiset_ensures();
    assert(piles.flatten() =~= Seq::<Card>::empty());
}

} // verus!
