use rummy::{find_meld, Card, Hand, Meld};

fn cards(names: &[&str]) -> Vec<Card> {
    names.iter().map(|n| Card::try_from_string(n).unwrap()).collect()
}

fn texts(cards: &[Card]) -> Vec<String> {
    cards.iter().map(|c| c.to_text()).collect()
}

#[test]
fn run_in_order_is_valid() {
    let mut group = cards(&["2C", "3C", "4C", "5C"]);
    assert!(Meld::is_valid(&mut group));
}

#[test]
fn run_out_of_order_is_valid_and_gets_sorted() {
    let mut group = cards(&["2C", "4C", "3C"]);
    assert!(Meld::is_valid(&mut group));
    assert_eq!(group, cards(&["2C", "3C", "4C"]));
}

#[test]
fn book_is_valid() {
    let mut group = cards(&["6S", "6C", "6H"]);
    assert!(Meld::is_valid(&mut group));
    assert_eq!(group, cards(&["6S", "6C", "6H"]));
}

#[test]
fn mixed_suits_are_no_run() {
    let mut group = cards(&["6S", "4C", "5C"]);
    assert!(!Meld::is_valid(&mut group));
    assert_eq!(group, cards(&["4C", "5C", "6S"]));
}

#[test]
fn ace_high_run_is_valid() {
    let mut group = cards(&["JD", "QD", "AD", "KD"]);
    assert!(Meld::is_valid(&mut group));
    assert_eq!(group, cards(&["AD", "JD", "QD", "KD"]));
}

#[test]
fn ace_low_run_is_valid() {
    let mut group = cards(&["AS", "2S", "3S"]);
    assert!(Meld::is_valid(&mut group));
}

#[test]
fn run_does_not_go_round_the_corner() {
    let mut group = cards(&["QH", "KH", "AH", "2H"]);
    assert!(!Meld::is_valid(&mut group));
    let mut group = cards(&["KH", "AH", "2H"]);
    assert!(!Meld::is_valid(&mut group));
}

#[test]
fn two_cards_or_none_are_no_meld() {
    let mut group = cards(&["6S", "6C"]);
    assert!(!Meld::is_valid(&mut group));
    let mut group = cards(&["2C", "3C"]);
    assert!(!Meld::is_valid(&mut group));
    let mut group: Vec<Card> = Vec::new();
    assert!(!Meld::is_valid(&mut group));
    let mut group = cards(&["KD"]);
    assert!(!Meld::is_valid(&mut group));
}

#[test]
fn card_text() {
    assert_eq!(
        texts(&cards(&["10H", "AS", "KD", "2C"])),
        vec!["10\u{2665}\u{fe0e}", "A\u{2660}\u{fe0e}", "K\u{2666}\u{fe0e}", "2\u{2663}\u{fe0e}"]
    );
}

#[test]
fn judging_twice_gives_the_same_verdict() {
    for names in [
        vec!["2C", "4C", "3C"],
        vec!["JD", "QD", "AD", "KD"],
        vec!["6S", "4C", "5C"],
        vec!["6S", "6C", "6H", "6D"],
        vec!["KH", "AH", "2H"],
        vec!["9S", "9S"],
    ] {
        let mut group = cards(&names);
        let first = Meld::is_valid(&mut group);
        let sorted = group.clone();
        let second = Meld::is_valid(&mut group);
        assert_eq!(first, second);
        assert_eq!(group, sorted);
    }
}

#[test]
fn book_with_the_same_card_twice() {
    let mut group = cards(&["6S", "6S", "6H"]);
    assert!(Meld::is_valid(&mut group));
}

#[test]
fn run_with_the_same_card_twice_is_no_run() {
    let mut group = cards(&["2C", "3C", "3C", "4C"]);
    assert!(!Meld::is_valid(&mut group));
    let mut group = cards(&["QD", "KD", "AD", "AD"]);
    assert!(!Meld::is_valid(&mut group));
}

#[test]
fn whole_suit_is_a_run() {
    let mut group =
        cards(&["KH", "QH", "JH", "10H", "9H", "8H", "7H", "6H", "5H", "4H", "3H", "2H", "AH"]);
    assert!(Meld::is_valid(&mut group));
    assert_eq!(
        group,
        cards(&["AH", "2H", "3H", "4H", "5H", "6H", "7H", "8H", "9H", "10H", "JH", "QH", "KH"])
    );
}

#[test]
fn run_with_a_gap_is_no_run() {
    let mut group = cards(&["2C", "3C", "5C"]);
    assert!(!Meld::is_valid(&mut group));
    let mut group = cards(&["JD", "KD", "AD"]);
    assert!(!Meld::is_valid(&mut group));
}

#[test]
fn new_meld_is_kept_in_rank_order() {
    let meld = Meld::new(cards(&["4C", "2C", "3C"]));
    assert_eq!(*meld.cards(), cards(&["2C", "3C", "4C"]));
    let meld = Meld::new(cards(&["KD", "AD", "QD"]));
    assert_eq!(*meld.cards(), cards(&["AD", "QD", "KD"]));
    let meld = Meld::new(cards(&["6S", "6C", "6H"]));
    assert_eq!(*meld.cards(), cards(&["6S", "6C", "6H"]));
}

#[test]
fn try_new_refuses_what_is_no_meld() {
    assert!(Meld::try_new(cards(&["6S", "4C", "5C"])).is_none());
    assert!(Meld::try_new(cards(&["6S", "6C"])).is_none());
    assert!(Meld::try_new(Vec::new()).is_none());
    let meld = Meld::try_new(cards(&["5C", "4C", "6C"])).unwrap();
    assert_eq!(*meld.cards(), cards(&["4C", "5C", "6C"]));
}

#[test]
fn meld_text_puts_a_blank_between_cards() {
    let meld = Meld::new(cards(&["4C", "2C", "3C"]));
    assert_eq!(meld.to_text(), "2\u{2663}\u{fe0e} 3\u{2663}\u{fe0e} 4\u{2663}\u{fe0e}");
}

#[test]
fn find_meld_takes_the_first_run_that_is_broken_off() {
    let mut hand = Hand { cards: cards(&["AH", "5C", "6C", "7C", "9C", "2D"]) };
    let meld = find_meld(&mut hand).unwrap();
    assert_eq!(*meld.cards(), cards(&["5C", "6C", "7C"]));
    assert_eq!(hand.cards, cards(&["AH", "9C", "2D"]));
}

#[test]
fn find_meld_takes_a_run_at_the_front() {
    let mut hand = Hand { cards: cards(&["AH", "2H", "3H", "4H", "4C", "5C", "6C", "KS"]) };
    let meld = find_meld(&mut hand).unwrap();
    assert_eq!(*meld.cards(), cards(&["AH", "2H", "3H", "4H"]));
    assert_eq!(hand.cards, cards(&["4C", "5C", "6C", "KS"]));
    let meld = find_meld(&mut hand).unwrap();
    assert_eq!(*meld.cards(), cards(&["4C", "5C", "6C"]));
    assert_eq!(hand.cards, cards(&["KS"]));
    assert!(find_meld(&mut hand).is_none());
}

#[test]
fn find_meld_ends_a_run_where_the_suit_changes() {
    let mut hand = Hand { cards: cards(&["2H", "3H", "4C", "5C", "6C", "7D"]) };
    let meld = find_meld(&mut hand).unwrap();
    assert_eq!(*meld.cards(), cards(&["4C", "5C", "6C"]));
    assert_eq!(hand.cards, cards(&["2H", "3H", "7D"]));
}

#[test]
fn find_meld_leaves_a_run_at_the_end_of_the_hand() {
    let mut hand = Hand { cards: cards(&["2C", "3C", "4C"]) };
    assert!(find_meld(&mut hand).is_none());
    assert_eq!(hand.cards, cards(&["2C", "3C", "4C"]));
    let mut hand = Hand { cards: cards(&["KH", "2C", "3C", "4C", "5C"]) };
    assert!(find_meld(&mut hand).is_none());
    assert_eq!(hand.cards, cards(&["KH", "2C", "3C", "4C", "5C"]));
}

#[test]
fn find_meld_finds_nothing_in_short_rows() {
    let mut hand = Hand { cards: cards(&["2C", "3C", "5C", "6C", "8D", "9D", "JS"]) };
    assert!(find_meld(&mut hand).is_none());
    assert_eq!(hand.cards, cards(&["2C", "3C", "5C", "6C", "8D", "9D", "JS"]));
    let mut hand = Hand::new();
    assert!(find_meld(&mut hand).is_none());
    let mut hand = Hand { cards: cards(&["2C"]) };
    assert!(find_meld(&mut hand).is_none());
}

#[test]
fn find_meld_does_not_put_the_ace_above_the_king() {
    let mut hand = Hand { cards: cards(&["QS", "KS", "AS", "2D"]) };
    assert!(find_meld(&mut hand).is_none());
}

fn orders(items: &[Card]) -> Vec<Vec<Card>> {
    if items.len() <= 1 {
        return vec![items.to_vec()];
    }
    let mut all = Vec::new();
    for i in 0..items.len() {
        let mut rest = items.to_vec();
        let first = rest.remove(i);
        for mut tail in orders(&rest) {
            tail.insert(0, first);
            all.push(tail);
        }
    }
    all
}

#[test]
fn verdict_does_not_depend_on_the_order_of_the_cards() {
    for (names, expected) in [
        (vec!["2C", "3C", "4C", "5C"], true),
        (vec!["JD", "QD", "AD", "KD"], true),
        (vec!["6S", "6C", "6H", "6D"], true),
        (vec!["6S", "4C", "5C"], false),
        (vec!["QH", "KH", "AH", "2H"], false),
        (vec!["2C", "3C", "5C", "6C"], false),
        (vec!["AS", "2S", "3S"], true),
    ] {
        for mut group in orders(&cards(&names)) {
            assert_eq!(Meld::is_valid(&mut group), expected);
        }
    }
}

#[test]
fn book_keeps_the_order_in_which_the_cards_came() {
    let mut group = cards(&["6D", "6H", "6S", "6C"]);
    assert!(Meld::is_valid(&mut group));
    assert_eq!(group, cards(&["6D", "6H", "6S", "6C"]));
}
