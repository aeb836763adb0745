//! Melds: the groups of cards that a player may lay down.
//!
//! A book is three or more cards of one rank. A run is three or more cards of
//! one suit whose ranks follow one another; the ace may stand below the two or
//! above the king, but a run does not go round the corner.

use vstd::prelude::*;
use vstd::seq_lib::*;
use vstd::string::*;
use crate::card::Card;
use crate::hand::Hand;
use crate::order::{
    arrange, arranged, ascending, lemma_arranged_again, lemma_arranged_any_order,
    lemma_arranged_ascends, lemma_arranged_keeps_cards, lemma_arranged_of_ascending, Ranking,
};

verus! {

/// All the cards have the rank of the first.
pub open spec fn is_book(cards: Seq<Card>) -> bool {
    forall|i: int| 0 <= i < cards.len() ==> (#[trigger] cards[i]).number == cards[0].number
}

/// All the cards have the suit of the first.
pub open spec fn is_flush(cards: Seq<Card>) -> bool {
    forall|i: int| 0 <= i < cards.len() ==> (#[trigger] cards[i]).suit == cards[0].suit
}

/// Each card ranks one above the card before it.
pub open spec fn climbs(cards: Seq<Card>, ranking: Ranking) -> bool {
    forall|i: int|
        0 <= i < cards.len() - 1 ==> ranking.key(#[trigger] cards[i + 1]) == ranking.key(cards[i])
            + 1
}

/// Put in order, the ranks follow one another, with the ace low or with the
/// ace high.
pub open spec fn is_straight(cards: Seq<Card>) -> bool {
    climbs(arranged(cards, Ranking::AceLow), Ranking::AceLow) || climbs(
        arranged(cards, Ranking::AceHigh),
        Ranking::AceHigh,
    )
}

/// The cards make a meld: at least three of them, and a book or a run.
pub open spec fn is_meld(cards: Seq<Card>) -> bool {
    cards.len() >= 3 && (is_book(cards) || (is_flush(cards) && is_straight(cards)))
}

/// A meld as it is printed: its cards with a blank between them.
pub open spec fn meld_text(cards: Seq<Card>) -> Seq<char>
    decreases cards.len(),
{
    if cards.len() == 0 {
        Seq::empty()
    } else if cards.len() == 1 {
        cards[0].text()
    } else {
        meld_text(cards.drop_last()) + " "@ + cards.last().text()
    }
}

proof fn lemma_same_cards_member(a: Seq<Card>, b: Seq<Card>, i: int) -> (j: int)
    requires
        a.to_multiset() == b.to_multiset(),
        0 <= i < b.len(),
    ensures
        0 <= j < a.len(),
        a[j] == b[i],
{
    assert(b.contains(b[i]));
    to_multiset_contains(b, b[i]);
    to_multiset_contains(a, b[i]);
    choose|j: int| 0 <= j < a.len() && a[j] == b[i]
}

proof fn lemma_same_cards_same_book(a: Seq<Card>, b: Seq<Card>)
    requires
        a.to_multiset() == b.to_multiset(),
        is_book(a),
    ensures
        is_book(b),
{
    assert forall|i: int| 0 <= i < b.len() implies (#[trigger] b[i]).number == a[0].number by {
        lemma_same_cards_member(a, b, i);
    }
    if b.len() > 0 {
        assert(b[0].number == a[0].number);
    }
}

proof fn lemma_same_cards_same_flush(a: Seq<Card>, b: Seq<Card>)
    requires
        a.to_multiset() == b.to_multiset(),
        is_flush(a),
    ensures
        is_flush(b),
{
    assert forall|i: int| 0 <= i < b.len() implies (#[trigger] b[i]).suit == a[0].suit by {
        lemma_same_cards_member(a, b, i);
    }
    if b.len() > 0 {
        assert(b[0].suit == a[0].suit);
    }
}

proof fn lemma_low_from_high(c: Card)
    ensures
        Ranking::AceLow.key(c) == if Ranking::AceHigh.key(c) == 13 {
            0
        } else {
            Ranking::AceHigh.key(c)
        },
{
}

proof fn lemma_ordered_low_then_low(cards: Seq<Card>)
    ensures
        arranged(arranged(cards, Ranking::AceLow), Ranking::AceLow) == arranged(
            cards,
            Ranking::AceLow,
        ),
{
    lemma_arranged_again(cards, Ranking::AceLow, Ranking::AceLow, |k: int| k);
}

proof fn lemma_ordered_low_then_high(cards: Seq<Card>)
    ensures
        arranged(arranged(cards, Ranking::AceLow), Ranking::AceHigh) == arranged(
            cards,
            Ranking::AceHigh,
        ),
{
    let read_off = |k: int| if k == 13 { 0 } else { k };
    assert forall|c: Card|
        Ranking::AceLow.key(c) == read_off(#[trigger] Ranking::AceHigh.key(c)) by {
        lemma_low_from_high(c);
    }
    lemma_arranged_again(cards, Ranking::AceLow, Ranking::AceHigh, read_off);
}

proof fn lemma_ordered_book_and_flush(cards: Seq<Card>)
    ensures
        is_book(arranged(cards, Ranking::AceLow)) == is_book(cards),
        is_flush(arranged(cards, Ranking::AceLow)) == is_flush(cards),
{
    let sorted = arranged(cards, Ranking::AceLow);
    lemma_arranged_keeps_cards(cards, Ranking::AceLow);
    if is_book(cards) {
        lemma_same_cards_same_book(cards, sorted);
    }
    if is_book(sorted) {
        lemma_same_cards_same_book(sorted, cards);
    }
    if is_flush(cards) {
        lemma_same_cards_same_flush(cards, sorted);
    }
    if is_flush(sorted) {
        lemma_same_cards_same_flush(sorted, cards);
    }
}

proof fn lemma_same_cards_same_climb(a: Seq<Card>, b: Seq<Card>, ranking: Ranking)
    requires
        a.to_multiset() == b.to_multiset(),
        climbs(arranged(a, ranking), ranking),
    ensures
        climbs(arranged(b, ranking), ranking),
{
    lemma_arranged_any_order(a, b, ranking);
    let sorted_a = arranged(a, ranking);
    let sorted_b = arranged(b, ranking);
    assert forall|i: int| 0 <= i < sorted_b.len() - 1 implies ranking.key(
        #[trigger] sorted_b[i + 1],
    ) == ranking.key(sorted_b[i]) + 1 by {
        assert(ranking.key(sorted_a[i + 1]) == ranking.key(sorted_a[i]) + 1);
        assert(ranking.key(sorted_a[i]) == ranking.key(sorted_b[i]));
    }
}

/// Whether cards make a meld does not depend on the order in which they are
/// given.
pub proof fn lemma_meld_any_order(a: Seq<Card>, b: Seq<Card>)
    requires
        a.to_multiset() == b.to_multiset(),
    ensures
        is_meld(a) == is_meld(b),
{
    to_multiset_len(a);
    to_multiset_len(b);
    if is_meld(a) {
        lemma_meld_other_order(a, b);
    }
    if is_meld(b) {
        lemma_meld_other_order(b, a);
    }
}

proof fn lemma_meld_other_order(a: Seq<Card>, b: Seq<Card>)
    requires
        a.to_multiset() == b.to_multiset(),
        a.len() == b.len(),
        is_meld(a),
    ensures
        is_meld(b),
{
    if is_book(a) {
        lemma_same_cards_same_book(a, b);
    } else {
        lemma_same_cards_same_flush(a, b);
        if climbs(arranged(a, Ranking::AceLow), Ranking::AceLow) {
            lemma_same_cards_same_climb(a, b, Ranking::AceLow);
        } else {
            lemma_same_cards_same_climb(a, b, Ranking::AceHigh);
        }
    }
}

/// Judging cards a second time, after a first judgement has put them in
/// order, leaves them as they are and comes to the same verdict.
pub proof fn lemma_judged_again(cards: Seq<Card>)
    ensures
        arranged(arranged(cards, Ranking::AceLow), Ranking::AceLow) == arranged(
            cards,
            Ranking::AceLow,
        ),
        is_meld(arranged(cards, Ranking::AceLow)) == is_meld(cards),
{
    lemma_arranged_keeps_cards(cards, Ranking::AceLow);
    lemma_ordered_low_then_low(cards);
    lemma_ordered_low_then_high(cards);
    lemma_ordered_book_and_flush(cards);
}

fn same_number(cards: &Vec<Card>) -> (same: bool)
    ensures
        same == is_book(cards@),
{
    let mut i: usize = 0;
    while i < cards.len()
        invariant
            i <= cards.len(),
            forall|j: int| 0 <= j < i ==> (#[trigger] cards@[j]).number == cards@[0].number,
        decreases cards.len() - i,
    {
        if cards[i].number != cards[0].number {
            return false;
        }
        i += 1;
    }
    true
}

fn same_suit(cards: &Vec<Card>) -> (same: bool)
    ensures
        same == is_flush(cards@),
{
    let mut i: usize = 0;
    while i < cards.len()
        invariant
            i <= cards.len(),
            forall|j: int| 0 <= j < i ==> (#[trigger] cards@[j]).suit == cards@[0].suit,
        decreases cards.len() - i,
    {
        if cards[i].suit != cards[0].suit {
            return false;
        }
        i += 1;
    }
    true
}

fn climbing(cards: &Vec<Card>, ranking: Ranking) -> (up: bool)
    ensures
        up == climbs(cards@, ranking),
{
    let mut i: usize = 1;
    while i < cards.len()
        invariant
            1 <= i,
            forall|j: int|
                0 <= j < i - 1 && j < cards.len() - 1 ==> ranking.key(#[trigger] cards@[j + 1])
                    == ranking.key(cards@[j]) + 1,
        decreases cards.len() - i,
    {
        if ranking.key_of(&cards[i]) != ranking.key_of(&cards[i - 1]) + 1 {
            assert(ranking.key(cards@[(i - 1) + 1]) != ranking.key(cards@[i - 1]) + 1);
            return false;
        }
        i += 1;
    }
    true
}

pub(crate) fn copy_of(cards: &Vec<Card>) -> (copy: Vec<Card>)
    ensures
        copy@ == cards@,
{
    let mut copy: Vec<Card> = Vec::new();
    let mut i: usize = 0;
    while i < cards.len()
        invariant
            i <= cards.len(),
            copy@ == cards@.take(i as int),
        decreases cards.len() - i,
    {
        copy.push(cards[i]);
        assert(cards@.take(i + 1) == cards@.take(i as int).push(cards@[i as int]));
        i += 1;
    }
    assert(cards@.take(i as int) == cards@);
    copy
}

/// Cards that a player has laid down: a book or a run, kept in the order of
/// their ranks with the ace first.
#[derive(Debug)]
pub struct Meld {
    cards: Vec<Card>,
}

impl View for Meld {
    type V = Seq<Card>;

    closed spec fn view(&self) -> Seq<Card> {
        self.cards@
    }
}

impl Meld {
    /// The cards make a meld and lie in the order of their ranks.
    #[verifier::type_invariant]
    pub open spec fn well_formed(self) -> bool {
        is_meld(self@) && ascending(self@, Ranking::AceLow)
    }

    /// Lays the cards down as a meld, in the order of their ranks.
    pub fn new(cards: Vec<Card>) -> (meld: Meld)
        requires
            is_meld(cards@),
        ensures
            meld@ == arranged(cards@, Ranking::AceLow),
    {
        Meld::try_new(cards).unwrap()
    }

    /// Lays the cards down as a meld if they make one.
    pub fn try_new(cards: Vec<Card>) -> (meld: Option<Meld>)
        ensures
            meld is Some == is_meld(cards@),
            meld is Some ==> meld->0@ == arranged(cards@, Ranking::AceLow),
    {
        let mut cards = cards;
        let ghost given = cards@;
        if Meld::is_valid(&mut cards) {
            proof {
                lemma_judged_again(given);
                lemma_arranged_ascends(given, Ranking::AceLow);
            }
            Some(Meld { cards })
        } else {
            None
        }
    }

    /// Judges whether the cards make a meld, and puts them in the order of
    /// their ranks, the ace first, whatever the verdict.
    pub fn is_valid(cards: &mut Vec<Card>) -> (valid: bool)
        ensures
            final(cards)@ == arranged(old(cards)@, Ranking::AceLow),
            valid == is_meld(old(cards)@),
    {
        let book = same_number(cards);
        let flush = same_suit(cards);
        let mut high = copy_of(cards);
        arrange(&mut high, Ranking::AceHigh);
        arrange(cards, Ranking::AceLow);
        proof {
            lemma_arranged_keeps_cards(old(cards)@, Ranking::AceLow);
        }
        if cards.len() < 3 {
            return false;
        }
        let low_run = climbing(cards, Ranking::AceLow);
        let high_run = climbing(&high, Ranking::AceHigh);
        book || flush && (low_run || high_run)
    }

    /// The cards of the meld.
    pub fn cards(&self) -> (cards: &Vec<Card>)
        ensures
            cards@ == self@,
            is_meld(self@),
            ascending(self@, Ranking::AceLow),
    {
        proof {
            use_type_invariant(self);
        }
        &self.cards
    }

    /// The meld as it is printed.
    pub fn to_text(&self) -> (text: String)
        ensures
            text@ == meld_text(self@),
    {
        let mut text = String::new();
        let mut i: usize = 0;
        while i < self.cards.len()
            invariant
                i <= self.cards.len(),
                text@ == meld_text(self.cards@.take(i as int)),
            decreases self.cards.len() - i,
        {
            proof {
                assert(self.cards@.take(i + 1).drop_last() == self.cards@.take(i as int));
            }
            if i > 0 {
                text.append(" ");
            }
            let card = self.cards[i].to_text();
            text.append(card.as_str());
            i += 1;
        }
        assert(self.cards@.take(i as int) == self.cards@);
        text
    }
}

/// Card `i` continues the card before it: the same suit, the next rank.
pub open spec fn follows(cards: Seq<Card>, i: int) -> bool {
    0 < i < cards.len() && cards[i].suit == cards[i - 1].suit && cards[i].number.ordinal()
        == cards[i - 1].number.ordinal() + 1
}

/// Where the unbroken row of cards that reaches card `i` begins.
pub open spec fn row_start(cards: Seq<Card>, i: int) -> int
    decreases i,
{
    if i <= 0 || !follows(cards, i) {
        i
    } else {
        row_start(cards, i - 1)
    }
}

/// Card `i` breaks off a row of three cards or more.
pub open spec fn ends_row(cards: Seq<Card>, i: int) -> bool {
    3 <= i < cards.len() && !follows(cards, i) && follows(cards, i - 1) && follows(cards, i - 2)
}

/// The first card before card `n` that breaks off a row of three or more.
pub open spec fn first_break(cards: Seq<Card>, n: int) -> Option<int>
    decreases n,
{
    if n <= 0 {
        None
    } else {
        match first_break(cards, n - 1) {
            Some(i) => Some(i),
            None => if ends_row(cards, n - 1) {
                Some(n - 1)
            } else {
                None
            },
        }
    }
}

/// The first row of three or more cards that another card breaks off: where
/// it begins, and the card that breaks it off. A row that reaches the last
/// card of the hand is not broken off.
pub open spec fn found_run(cards: Seq<Card>) -> Option<(int, int)> {
    match first_break(cards, cards.len() as int) {
        Some(i) => Some((row_start(cards, i - 1), i)),
        None => None,
    }
}

proof fn lemma_row(cards: Seq<Card>, i: int)
    requires
        0 <= i < cards.len(),
    ensures
        0 <= row_start(cards, i) <= i,
        forall|j: int| row_start(cards, i) < j <= i ==> follows(cards, j),
        row_start(cards, i) == 0 || !follows(cards, row_start(cards, i)),
    decreases i,
{
    if i > 0 && follows(cards, i) {
        lemma_row(cards, i - 1);
    }
}

proof fn lemma_row_is_run(cards: Seq<Card>, from: int, to: int)
    requires
        0 <= from,
        from + 3 <= to <= cards.len(),
        forall|j: int| from < j < to ==> follows(cards, j),
    ensures
        is_meld(cards.subrange(from, to)),
        arranged(cards.subrange(from, to), Ranking::AceLow) == cards.subrange(from, to),
{
    let row = cards.subrange(from, to);
    let low = Ranking::AceLow;
    assert forall|k: int| 0 <= k < row.len() implies (#[trigger] row[k]).suit == row[0].suit
        && low.key(row[k]) == low.key(row[0]) + k by {
        lemma_row_step(cards, from, to, k);
    }
    assert(is_flush(row));
    assert(ascending(row, low)) by {
        assert forall|i: int, j: int| 0 <= i < j < row.len() implies low.key(#[trigger] row[i])
            <= low.key(#[trigger] row[j]) by {
            assert(low.key(row[i]) == low.key(row[0]) + i);
            assert(low.key(row[j]) == low.key(row[0]) + j);
        }
    }
    assert(climbs(row, low)) by {
        assert forall|i: int| 0 <= i < row.len() - 1 implies low.key(#[trigger] row[i + 1])
            == low.key(row[i]) + 1 by {
            assert(low.key(row[i]) == low.key(row[0]) + i);
        }
    }
    lemma_arranged_of_ascending(row, low);
}

proof fn lemma_row_step(cards: Seq<Card>, from: int, to: int, k: int)
    requires
        0 <= from,
        from < to <= cards.len(),
        forall|j: int| from < j < to ==> follows(cards, j),
        0 <= k < to - from,
    ensures
        cards[from + k].suit == cards[from].suit,
        Ranking::AceLow.key(cards[from + k]) == Ranking::AceLow.key(cards[from]) + k,
    decreases k,
{
    if k > 0 {
        lemma_row_step(cards, from, to, k - 1);
        assert(follows(cards, from + k));
    }
}

proof fn lemma_row_goes_on(cards: Seq<Card>, i: int)
    requires
        0 < i < cards.len(),
        follows(cards, i),
        first_break(cards, i) is None,
    ensures
        row_start(cards, i) == row_start(cards, i - 1),
        first_break(cards, i + 1) is None,
{
}

proof fn lemma_row_too_short(cards: Seq<Card>, i: int)
    requires
        0 < i < cards.len(),
        !follows(cards, i),
        row_start(cards, i - 1) + 2 > i - 1,
        first_break(cards, i) is None,
    ensures
        row_start(cards, i) == i,
        first_break(cards, i + 1) is None,
{
    if i >= 3 && follows(cards, i - 1) && follows(cards, i - 2) {
        lemma_row(cards, i - 3);
        assert(row_start(cards, i - 1) == row_start(cards, i - 2));
        assert(row_start(cards, i - 2) == row_start(cards, i - 3));
    }
}

proof fn lemma_row_broken_off(cards: Seq<Card>, i: int)
    requires
        0 < i < cards.len(),
        !follows(cards, i),
        row_start(cards, i - 1) + 2 <= i - 1,
        first_break(cards, i) is None,
    ensures
        found_run(cards) == Some((row_start(cards, i - 1), i)),
        is_meld(cards.subrange(row_start(cards, i - 1), i)),
        arranged(cards.subrange(row_start(cards, i - 1), i), Ranking::AceLow) == cards.subrange(
            row_start(cards, i - 1),
            i,
        ),
        0 <= row_start(cards, i - 1),
{
    lemma_row(cards, i - 1);
    assert(follows(cards, i - 1) && follows(cards, i - 2));
    assert(ends_row(cards, i));
    assert(first_break(cards, i + 1) == Some(i));
    lemma_first_break_stays(cards, i + 1, cards.len() as int);
    lemma_row_is_run(cards, row_start(cards, i - 1), i);
}

fn take_row(hand: &mut Hand, from: usize, to: usize) -> (cards: Vec<Card>)
    requires
        from <= to <= old(hand)@.len(),
    ensures
        cards@ == old(hand)@.subrange(from as int, to as int),
        final(hand)@ == old(hand)@.subrange(0, from as int) + old(hand)@.subrange(
            to as int,
            old(hand)@.len() as int,
        ),
{
    let ghost given = hand@;
    let mut cards: Vec<Card> = Vec::new();
    let mut taken: usize = from;
    assert(hand@ == given.subrange(0, from as int) + given.subrange(
        from as int,
        given.len() as int,
    ));
    while taken < to
        invariant
            from <= taken <= to <= given.len(),
            hand@ == given.subrange(0, from as int) + given.subrange(
                taken as int,
                given.len() as int,
            ),
            cards@ == given.subrange(from as int, taken as int),
        decreases to - taken,
    {
        let card = hand.cards.remove(from);
        cards.push(card);
        taken += 1;
    }
    cards
}

/// Looks for a run in a hand that is laid out by suit and rank, and lays it
/// down. The hand is read from the front. A row of cards of one suit with
/// ranks that follow one another, the ace low, is taken when it has three
/// cards or more and the card after it does not continue it: the first such
/// row leaves the hand and becomes a meld. A row that reaches the end of the
/// hand stays where it is.
pub fn find_meld(hand: &mut Hand) -> (meld: Option<Meld>)
    ensures
        match found_run(old(hand)@) {
            Some((from, to)) => {
                &&& meld is Some
                &&& meld->0@ == old(hand)@.subrange(from, to)
                &&& final(hand)@ == old(hand)@.subrange(0, from) + old(hand)@.subrange(
                    to,
                    old(hand)@.len() as int,
                )
            },
            None => meld is None && final(hand)@ == old(hand)@,
        },
{
    match seek_run(hand) {
        Some((from, to)) => {
            let cards = take_row(hand, from, to);
            Some(Meld::new(cards))
        },
        None => None,
    }
}

fn continues(cards: &Vec<Card>, i: usize) -> (linked: bool)
    requires
        0 < i < cards@.len(),
    ensures
        linked == follows(cards@, i as int),
{
    cards[i].suit == cards[i - 1].suit && cards[i].number.index() == cards[i - 1].number.index()
        + 1
}

fn seek_run(hand: &Hand) -> (found: Option<(usize, usize)>)
    ensures
        match found {
            Some((from, to)) => {
                &&& found_run(hand@) == Some((from as int, to as int))
                &&& from <= to <= hand@.len()
                &&& is_meld(hand@.subrange(from as int, to as int))
                &&& arranged(hand@.subrange(from as int, to as int), Ranking::AceLow)
                    == hand@.subrange(from as int, to as int)
            },
            None => found_run(hand@) is None,
        },
{
    if hand.cards.len() == 0 {
        assert(first_break(hand@, 0) is None);
        return None;
    }
    let mut start: usize = 0;
    let mut i: usize = 1;
    assert(first_break(hand@, 0) is None);
    while i < hand.cards.len()
        invariant
            1 <= i <= hand@.len(),
            start == row_start(hand@, i - 1),
            first_break(hand@, i as int) is None,
        decreases hand.cards.len() - i,
    {
        proof {
            lemma_row(hand@, i - 1);
        }
        if continues(&hand.cards, i) {
            proof {
                lemma_row_goes_on(hand@, i as int);
            }
        } else {
            if i - 1 - start >= 2 {
                proof {
                    lemma_row_broken_off(hand@, i as int);
                }
                return Some((start, i));
            }
            proof {
                lemma_row_too_short(hand@, i as int);
            }
            start = i;
        }
        i += 1;
    }
    None
}

proof fn lemma_first_break_stays(cards: Seq<Card>, n: int, m: int)
    requires
        n <= m,
        first_break(cards, n) is Some,
    ensures
        first_break(cards, m) == first_break(cards, n),
    decreases m - n,
{
    if n < m {
        lemma_first_break_stays(cards, n, m - 1);
    }
}

} // verus!
