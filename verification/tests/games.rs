use rummy::{Card, Deck, DrawAction, Game, GameError, Hand, MyStrategy, Play, Strategy};

fn cards(names: &[&str]) -> Vec<Card> {
    names.iter().map(|n| Card::from_string(n)).collect()
}

/// A player that follows a script, one entry for each turn, and then draws
/// from the deck and discards the first card of the hand.
struct Scripted {
    script: Vec<(DrawAction, Vec<Vec<Card>>, Card)>,
    at: usize,
}

impl Scripted {
    fn new(script: Vec<(DrawAction, Vec<Vec<Card>>, Card)>) -> Scripted {
        Scripted { script, at: 0 }
    }
}

impl Strategy for Scripted {
    fn choose_draw(&mut self, _hand: &Hand) -> DrawAction {
        match self.script.get(self.at) {
            Some(entry) => entry.0,
            None => DrawAction::DrawFromDeck,
        }
    }

    fn choose_play(&mut self, hand: &Hand) -> Play {
        let play = match self.script.get(self.at) {
            Some(entry) => Play { melds: entry.1.clone(), discard: entry.2 },
            None => Play { melds: Vec::new(), discard: hand.cards[0] },
        };
        self.at += 1;
        play
    }
}

/// A player that always picks up the discard and throws it back.
struct Recycler;

impl Strategy for Recycler {
    fn choose_draw(&mut self, _hand: &Hand) -> DrawAction {
        DrawAction::DrawFromDiscard
    }

    fn choose_play(&mut self, hand: &Hand) -> Play {
        Play { melds: Vec::new(), discard: *hand.cards.last().unwrap() }
    }
}

fn two_players() -> Game<MyStrategy> {
    Game::deal(Deck::new(), vec![MyStrategy, MyStrategy])
}

fn solo(script: Vec<(DrawAction, Vec<Vec<Card>>, Card)>) -> Game<Scripted> {
    Game::deal(Deck::new(), vec![Scripted::new(script)])
}

fn all_cards<S: Strategy>(game: &Game<S>) -> Vec<Card> {
    let mut all = Vec::new();
    all.extend(game.pack().iter().copied());
    for p in 0..game.players() {
        all.extend(game.hand(p).cards.iter().copied());
        for meld in game.melds(p) {
            all.extend(meld.cards().iter().copied());
        }
    }
    all
}

fn assert_one_deck<S: Strategy>(game: &Game<S>) {
    let all = all_cards(game);
    assert_eq!(all.len() + game.deck_len(), 52);
    for (i, a) in all.iter().enumerate() {
        for b in &all[i + 1..] {
            assert_ne!(a, b);
        }
    }
}

#[test]
fn deal_serves_the_players_in_turn() {
    let game = two_players();
    assert_eq!(game.players(), 2);
    assert_eq!(game.turn(), 0);
    assert_eq!(game.deck_len(), 37);
    assert_eq!(game.hand(0).cards, cards(&["KS", "JS", "9S", "7S", "5S", "3S", "AS"]));
    assert_eq!(game.hand(1).cards, cards(&["QS", "10S", "8S", "6S", "4S", "2S", "KH"]));
    assert_eq!(*game.pack(), cards(&["QH"]));
    assert!(game.melds(0).is_empty());
    assert!(game.melds(1).is_empty());
    assert_one_deck(&game);
}

#[test]
fn deal_for_three_players() {
    let game = Game::deal(Deck::new(), vec![MyStrategy, MyStrategy, MyStrategy]);
    assert_eq!(game.deck_len(), 30);
    assert_eq!(game.hand(0).cards, cards(&["KS", "10S", "7S", "4S", "AS", "JH", "8H"]));
    assert_eq!(game.hand(1).cards, cards(&["QS", "9S", "6S", "3S", "KH", "10H", "7H"]));
    assert_eq!(game.hand(2).cards, cards(&["JS", "8S", "5S", "2S", "QH", "9H", "6H"]));
    assert_eq!(*game.pack(), cards(&["5H"]));
}

#[test]
fn deal_for_seven_players_leaves_two_cards() {
    let players = vec![
        MyStrategy, MyStrategy, MyStrategy, MyStrategy, MyStrategy, MyStrategy, MyStrategy,
    ];
    let game = Game::deal(Deck::new(), players);
    assert_eq!(game.players(), 7);
    assert_eq!(game.deck_len(), 2);
    for p in 0..7 {
        assert_eq!(game.hand(p).cards.len(), 7);
    }
    assert_eq!(*game.pack(), cards(&["3C"]));
    assert_one_deck(&game);
}

#[test]
fn deal_for_no_player() {
    let game: Game<MyStrategy> = Game::deal(Deck::new(), Vec::new());
    assert_eq!(game.players(), 0);
    assert_eq!(game.deck_len(), 51);
    assert_eq!(*game.pack(), cards(&["KS"]));
    assert!(game.score().is_empty());
}

#[test]
fn deal_from_a_short_deck() {
    let mut deck = Deck::new();
    for _ in 0..44 {
        deck.deal();
    }
    let game = Game::deal(deck, vec![MyStrategy]);
    assert_eq!(game.deck_len(), 0);
    assert_eq!(game.hand(0).cards, cards(&["8C", "7C", "6C", "5C", "4C", "3C", "2C"]));
    assert_eq!(*game.pack(), cards(&["AC"]));
}

#[test]
fn new_game_is_dealt_from_a_whole_deck() {
    let game = Game::new(vec![MyStrategy, MyStrategy]);
    assert_eq!(game.players(), 2);
    assert_eq!(game.turn(), 0);
    assert_eq!(game.deck_len(), 37);
    assert_eq!(game.hand(0).cards.len(), 7);
    assert_eq!(game.hand(1).cards.len(), 7);
    assert_eq!(game.pack().len(), 1);
    assert!(game.melds(0).is_empty());
    assert!(game.melds(1).is_empty());
    assert_one_deck(&game);
}

#[test]
fn new_game_is_shuffled() {
    let plain = two_players();
    let game = Game::new(vec![MyStrategy, MyStrategy]);
    assert_ne!(all_cards(&plain), all_cards(&game));
}

#[test]
fn score_after_the_deal() {
    assert_eq!(two_players().score(), vec![45, 45]);
}

#[test]
fn first_rounds_of_a_game() {
    let mut game = two_players();
    assert_eq!(game.round(), Ok(true));
    assert_eq!(game.turn(), 1);
    assert_eq!(game.deck_len(), 36);
    assert_eq!(game.hand(0).cards, cards(&["3S", "5S", "7S", "9S", "JS", "KS", "JH"]));
    assert_eq!(*game.pack(), cards(&["QH", "AS"]));
    assert_eq!(game.hand(1).cards, cards(&["QS", "10S", "8S", "6S", "4S", "2S", "KH"]));

    assert_eq!(game.round(), Ok(true));
    assert_eq!(game.turn(), 0);
    assert_eq!(game.deck_len(), 35);
    assert_eq!(game.hand(1).cards, cards(&["2S", "4S", "6S", "8S", "10S", "QS", "10H"]));
    assert_eq!(*game.pack(), cards(&["QH", "AS", "KH"]));

    assert_eq!(game.round(), Ok(true));
    assert_eq!(game.turn(), 1);
    assert_eq!(game.hand(0).cards, cards(&["3S", "5S", "7S", "9S", "JS", "KS", "9H"]));
    assert_eq!(*game.pack(), cards(&["QH", "AS", "KH", "JH"]));
    assert_one_deck(&game);
}

#[test]
fn turns_alternate_until_the_deck_is_empty() {
    let mut game = Game::new(vec![MyStrategy, MyStrategy]);
    let mut rounds = 0;
    loop {
        assert_eq!(game.turn(), rounds % 2);
        assert_eq!(game.deck_len(), 37 - rounds);
        let more = game.round().unwrap();
        rounds += 1;
        assert_eq!(game.pack().len(), 1 + rounds);
        assert_eq!(game.hand(0).cards.len(), 7);
        assert_eq!(game.hand(1).cards.len(), 7);
        assert_one_deck(&game);
        if !more {
            break;
        }
    }
    assert_eq!(rounds, 37);
    assert_eq!(game.deck_len(), 0);
    assert_eq!(game.turn(), 0);
    assert_eq!(game.score().len(), 2);
}

#[test]
fn play_runs_to_the_end_and_scores() {
    let mut game = Game::new(vec![MyStrategy, MyStrategy]);
    let scores = game.play(usize::MAX).unwrap();
    assert_eq!(scores.len(), 2);
    assert_eq!(game.deck_len(), 0);
    assert_eq!(scores, game.score());
    for p in 0..2 {
        assert_eq!(scores[p], game.hand(p).score());
        assert!(35 <= scores[p] && scores[p] <= 70);
    }
    assert_one_deck(&game);
}

#[test]
fn play_of_a_game_from_a_new_deck() {
    let mut game = two_players();
    let scores = game.play(100).unwrap();
    assert_eq!(game.deck_len(), 0);
    assert_eq!(game.pack().len(), 38);
    assert_eq!(game.hand(0).cards, cards(&["3S", "5S", "7S", "9S", "JS", "KS", "AC"]));
    assert_eq!(game.hand(1).cards, cards(&["2S", "4S", "6S", "8S", "10S", "QS", "2C"]));
    assert_eq!(game.pack()[37], Card::from_string("3C"));
    assert_eq!(scores, vec![45, 40]);
}

#[test]
fn play_needs_exactly_as_many_rounds_as_the_deck_has_cards() {
    let mut game = two_players();
    assert_eq!(game.play(36), Err(GameError::RoundLimit));
    assert_eq!(game.deck_len(), 1);
    assert_eq!(game.turn(), 0);
    let mut game = two_players();
    assert!(game.play(37).is_ok());
}

#[test]
fn play_stops_at_the_round_limit() {
    let mut game = two_players();
    assert_eq!(game.play(3), Err(GameError::RoundLimit));
    assert_eq!(game.deck_len(), 34);
    assert_eq!(game.turn(), 1);
    assert_eq!(game.play(0), Err(GameError::RoundLimit));
    assert_eq!(game.deck_len(), 34);
}

#[test]
fn play_of_players_who_never_touch_the_deck_hits_the_limit() {
    let mut game = Game::deal(Deck::new(), vec![Recycler, Recycler]);
    assert_eq!(game.play(50), Err(GameError::RoundLimit));
    assert_eq!(game.deck_len(), 37);
    assert_eq!(*game.pack(), cards(&["QH"]));
    assert_eq!(game.turn(), 0);
}

#[test]
fn round_after_the_end_changes_nothing() {
    let mut game = two_players();
    game.play(100).unwrap();
    let pack = game.pack().clone();
    assert_eq!(game.round(), Ok(false));
    assert_eq!(game.round(), Ok(false));
    assert_eq!(*game.pack(), pack);
    assert_eq!(game.turn(), 0);
    assert_eq!(game.score(), vec![45, 40]);
    assert_eq!(game.play(5), Ok(vec![45, 40]));
}

#[test]
fn draw_from_the_deck_and_from_the_pack() {
    let mut game = two_players();
    assert_eq!(game.draw(DrawAction::DrawFromDeck), Ok(Some(Card::from_string("JH"))));
    assert_eq!(game.deck_len(), 36);
    assert_eq!(game.hand(0).cards.len(), 8);
    assert_eq!(game.hand(0).cards[7], Card::from_string("JH"));
    assert_eq!(game.draw(DrawAction::DrawFromDiscard), Ok(Some(Card::from_string("QH"))));
    assert!(game.pack().is_empty());
    assert_eq!(game.hand(0).cards[8], Card::from_string("QH"));
    assert_eq!(game.turn(), 0);
}

#[test]
fn draw_from_the_empty_pack_is_a_fault() {
    let mut game = two_players();
    assert!(game.draw(DrawAction::DrawFromDiscard).is_ok());
    assert_eq!(game.draw(DrawAction::DrawFromDiscard), Err(GameError::EmptyPack));
    assert_eq!(game.hand(0).cards.len(), 8);
    assert_eq!(game.deck_len(), 37);
}

#[test]
fn draw_from_the_empty_deck_gives_no_card() {
    let mut game = two_players();
    game.play(100).unwrap();
    let hand = game.hand(0).cards.clone();
    assert_eq!(game.draw(DrawAction::DrawFromDeck), Ok(None));
    assert_eq!(game.hand(0).cards, hand);
}

#[test]
fn sort_hand_lays_out_the_hand_of_the_turn() {
    let mut game = two_players();
    game.sort_hand();
    assert_eq!(game.hand(0).cards, cards(&["AS", "3S", "5S", "7S", "9S", "JS", "KS"]));
    assert_eq!(game.hand(1).cards, cards(&["QS", "10S", "8S", "6S", "4S", "2S", "KH"]));
}

#[test]
fn round_with_a_meld() {
    let mut game = solo(vec![(
        DrawAction::DrawFromDiscard,
        vec![cards(&["8S", "6S", "7S"])],
        Card::from_string("KS"),
    )]);
    assert_eq!(game.hand(0).cards, cards(&["KS", "QS", "JS", "10S", "9S", "8S", "7S"]));
    assert_eq!(*game.pack(), cards(&["6S"]));
    assert_eq!(game.round(), Ok(true));
    assert_eq!(game.hand(0).cards, cards(&["9S", "10S", "JS", "QS"]));
    assert_eq!(game.melds(0).len(), 1);
    assert_eq!(*game.melds(0)[0].cards(), cards(&["6S", "7S", "8S"]));
    assert_eq!(*game.pack(), cards(&["KS"]));
    assert_eq!(game.deck_len(), 44);
    assert_eq!(game.turn(), 0);
    assert_eq!(game.score(), vec![30]);
    assert_one_deck(&game);
}

#[test]
fn round_with_two_melds_and_an_ace_high_run() {
    let mut deck = Deck::new();
    for _ in 0..13 {
        deck.deal();
    }
    let mut game = Game::deal(
        deck,
        vec![Scripted::new(vec![
            (DrawAction::DrawFromDeck, Vec::new(), Card::from_string("7H")),
            (DrawAction::DrawFromDeck, Vec::new(), Card::from_string("8H")),
            (DrawAction::DrawFromDeck, Vec::new(), Card::from_string("9H")),
            (DrawAction::DrawFromDeck, Vec::new(), Card::from_string("10H")),
            (
                DrawAction::DrawFromDeck,
                vec![cards(&["KH", "AH", "QH"]), cards(&["4H", "2H", "3H"])],
                Card::from_string("JH"),
            ),
        ])],
    );
    assert_eq!(game.hand(0).cards, cards(&["KH", "QH", "JH", "10H", "9H", "8H", "7H"]));
    for _ in 0..5 {
        assert_eq!(game.round(), Ok(true));
    }
    assert_eq!(game.hand(0).cards, cards(&["5H"]));
    assert_eq!(game.melds(0).len(), 2);
    assert_eq!(*game.melds(0)[0].cards(), cards(&["AH", "QH", "KH"]));
    assert_eq!(*game.melds(0)[1].cards(), cards(&["2H", "3H", "4H"]));
    assert_eq!(*game.pack(), cards(&["6H", "7H", "8H", "9H", "10H", "JH"]));
    assert_eq!(game.score(), vec![5]);
}

#[test]
fn lay_down_carries_out_a_play() {
    let mut game = two_players();
    game.sort_hand();
    game.draw(DrawAction::DrawFromDeck).unwrap();
    let play = Play { melds: Vec::new(), discard: Card::from_string("9S") };
    assert_eq!(game.lay_down(&play), Ok(true));
    assert_eq!(game.hand(0).cards, cards(&["AS", "3S", "5S", "7S", "JS", "KS", "JH"]));
    assert_eq!(*game.pack(), cards(&["QH", "9S"]));
    assert_eq!(game.turn(), 1);
}

#[test]
fn invalid_meld_is_a_fault_and_changes_nothing() {
    let mut game = solo(vec![(
        DrawAction::DrawFromDeck,
        vec![cards(&["7S", "8S", "10S"])],
        Card::from_string("KS"),
    )]);
    assert_eq!(game.round(), Err(GameError::InvalidMeld));
    assert_eq!(game.hand(0).cards, cards(&["7S", "8S", "9S", "10S", "JS", "QS", "KS", "5S"]));
    assert!(game.melds(0).is_empty());
    assert_eq!(*game.pack(), cards(&["6S"]));
    assert_eq!(game.deck_len(), 43);
    assert_eq!(game.turn(), 0);
}

#[test]
fn meld_of_cards_that_are_not_held_is_a_fault() {
    let mut game = solo(vec![(
        DrawAction::DrawFromDeck,
        vec![cards(&["7S", "8S", "9S"]), cards(&["2D", "3D", "4D"])],
        Card::from_string("KS"),
    )]);
    assert_eq!(game.round(), Err(GameError::MissingCard));
    assert_eq!(game.hand(0).cards, cards(&["7S", "8S", "9S", "10S", "JS", "QS", "KS", "5S"]));
    assert!(game.melds(0).is_empty());
    assert_eq!(*game.pack(), cards(&["6S"]));
}

#[test]
fn meld_that_uses_a_card_twice_is_a_fault() {
    let mut game = solo(vec![(
        DrawAction::DrawFromDeck,
        vec![cards(&["7S", "8S", "9S"]), cards(&["9S", "10S", "JS"])],
        Card::from_string("KS"),
    )]);
    assert_eq!(game.round(), Err(GameError::MissingCard));
    assert_eq!(game.hand(0).cards.len(), 8);
}

#[test]
fn invalid_meld_is_found_before_a_missing_card() {
    let mut game = solo(vec![(
        DrawAction::DrawFromDeck,
        vec![cards(&["2D", "3D", "5D"])],
        Card::from_string("KS"),
    )]);
    assert_eq!(game.round(), Err(GameError::InvalidMeld));
}

#[test]
fn discard_that_is_not_held_is_a_fault() {
    let mut game = solo(vec![(DrawAction::DrawFromDeck, Vec::new(), Card::from_string("2D"))]);
    assert_eq!(game.round(), Err(GameError::MissingCard));
    assert_eq!(game.hand(0).cards.len(), 8);
    assert_eq!(*game.pack(), cards(&["6S"]));
}

#[test]
fn discard_that_went_into_a_meld_is_a_fault() {
    let mut game = solo(vec![(
        DrawAction::DrawFromDeck,
        vec![cards(&["7S", "8S", "9S"])],
        Card::from_string("8S"),
    )]);
    assert_eq!(game.round(), Err(GameError::MissingCard));
    assert_eq!(game.hand(0).cards.len(), 8);
    assert!(game.melds(0).is_empty());
}

#[test]
fn play_hands_out_the_fault_of_a_player() {
    let mut game = solo(vec![
        (DrawAction::DrawFromDeck, Vec::new(), Card::from_string("KS")),
        (DrawAction::DrawFromDeck, Vec::new(), Card::from_string("KS")),
    ]);
    assert_eq!(game.play(10), Err(GameError::MissingCard));
    assert_eq!(game.deck_len(), 42);
    assert_eq!(*game.pack(), cards(&["6S", "KS"]));
}

#[test]
fn my_strategies() {
    let hand = Hand { cards: cards(&["9D", "2C", "KS"]) };
    assert_eq!(rummy::my_draw_strategy(&hand), DrawAction::DrawFromDeck);
    let play = rummy::my_play_strategy(&hand);
    assert!(play.melds.is_empty());
    assert_eq!(play.discard, Card::from_string("9D"));
    let mut me = MyStrategy;
    assert_eq!(me.choose_draw(&hand), DrawAction::DrawFromDeck);
    assert_eq!(me.choose_play(&hand).discard, Card::from_string("9D"));
}
