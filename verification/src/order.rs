//! Putting cards in order: by rank with the ace low or high, or by suit and
//! rank as a hand is laid out. Cards that rank equal keep the order in which
//! they came.

use vstd::prelude::*;
use vstd::seq_lib::*;
use crate::card::{Card, Number};

verus! {

/// A way of ranking cards.
#[derive(Copy, Clone, Debug, PartialEq, Eq, Structural)]
pub enum Ranking {
    /// By rank, the ace below the two.
    AceLow,
    /// By rank, the ace above the king.
    AceHigh,
    /// By suit, and within a suit by rank with the ace low.
    BySuit,
}

impl Ranking {
    /// The place of a card under this ranking. Cards are ordered by this
    /// number; cards with the same number rank equal.
    pub open spec fn key(self, card: Card) -> int {
        match self {
            Ranking::AceLow => card.number.ordinal(),
            Ranking::AceHigh => if card.number == Number::Ace {
                13
            } else {
                card.number.ordinal()
            },
            Ranking::BySuit => 13 * card.suit.ordinal() + card.number.ordinal(),
        }
    }

    /// Every key of this ranking lies below this bound.
    pub open spec fn span(self) -> nat {
        match self {
            Ranking::AceLow => 13,
            Ranking::AceHigh => 14,
            Ranking::BySuit => 52,
        }
    }

    /// The cards that have place `k`.
    pub open spec fn at(self, k: int) -> spec_fn(Card) -> bool {
        |card: Card| self.key(card) == k
    }

    /// The place of a card under this ranking.
    pub fn key_of(&self, card: &Card) -> (k: u8)
        ensures
            k == self.key(*card),
            k < self.span(),
    {
        match self {
            Ranking::AceLow => card.number.index(),
            Ranking::AceHigh => if card.number == Number::Ace {
                13
            } else {
                card.number.index()
            },
            Ranking::BySuit => 13 * card.suit.index() + card.number.index(),
        }
    }

    /// The bound below which every key lies.
    pub fn span_of(&self) -> (n: u8)
        ensures
            n == self.span(),
    {
        match self {
            Ranking::AceLow => 13,
            Ranking::AceHigh => 14,
            Ranking::BySuit => 52,
        }
    }
}

/// The cards with a key below `n`, in the order of their keys, and among equal
/// keys in the order in which `cards` holds them.
pub open spec fn lowest(cards: Seq<Card>, ranking: Ranking, n: nat) -> Seq<Card>
    decreases n,
{
    if n == 0 {
        Seq::empty()
    } else {
        lowest(cards, ranking, (n - 1) as nat) + cards.filter(ranking.at(n - 1))
    }
}

/// The cards put in order: those with the lowest key first, and among equal
/// keys in the order in which `cards` holds them.
pub open spec fn arranged(cards: Seq<Card>, ranking: Ranking) -> Seq<Card> {
    lowest(cards, ranking, ranking.span())
}

/// No card comes before one that ranks below it.
pub open spec fn ascending(cards: Seq<Card>, ranking: Ranking) -> bool {
    forall|i: int, j: int|
        0 <= i < j < cards.len() ==> ranking.key(#[trigger] cards[i]) <= ranking.key(
            #[trigger] cards[j],
        )
}

/// Every key lies in the ranking's span.
pub proof fn lemma_key_in_span(ranking: Ranking, card: Card)
    ensures
        0 <= ranking.key(card) < ranking.span(),
{
}

proof fn lemma_filter_nothing(cards: Seq<Card>, pred: spec_fn(Card) -> bool)
    requires
        forall|i: int| 0 <= i < cards.len() ==> !pred(#[trigger] cards[i]),
    ensures
        cards.filter(pred) == Seq::<Card>::empty(),
{
    assert(cards.all(|c: Card| !pred(c)));
    cards.lemma_all_neg_filter_empty(pred);
    assert(cards.filter(pred) =~= Seq::<Card>::empty());
}

proof fn lemma_filter_twice(
    cards: Seq<Card>,
    wide: spec_fn(Card) -> bool,
    narrow: spec_fn(Card) -> bool,
)
    requires
        forall|c: Card| #[trigger] narrow(c) ==> wide(c),
    ensures
        cards.filter(wide).filter(narrow) == cards.filter(narrow),
    decreases cards.len(),
{
    if cards.len() == 0 {
        reveal(Seq::filter);
    } else {
        let front = cards.drop_last();
        let last = cards.last();
        assert(cards == front.push(last));
        lemma_filter_twice(front, wide, narrow);
        front.lemma_filter_push(last, wide);
        front.lemma_filter_push(last, narrow);
        if wide(last) {
            front.filter(wide).lemma_filter_push(last, narrow);
        }
    }
}

proof fn lemma_lowest_keys(cards: Seq<Card>, ranking: Ranking, n: nat)
    ensures
        forall|i: int|
            0 <= i < lowest(cards, ranking, n).len() ==> 0 <= ranking.key(
                #[trigger] lowest(cards, ranking, n)[i],
            ) < n,
        ascending(lowest(cards, ranking, n), ranking),
    decreases n,
{
    if n > 0 {
        let front = lowest(cards, ranking, (n - 1) as nat);
        let back = cards.filter(ranking.at(n - 1));
        lemma_lowest_keys(cards, ranking, (n - 1) as nat);
        assert forall|i: int| 0 <= i < back.len() implies ranking.key(#[trigger] back[i]) == n
            - 1 by {
            cards.lemma_filter_pred(ranking.at(n - 1), i);
        }
        let all = lowest(cards, ranking, n);
        assert(all == front + back);
        assert forall|i: int| 0 <= i < all.len() implies 0 <= ranking.key(#[trigger] all[i])
            < n by {
            if i < front.len() {
                assert(all[i] == front[i]);
            } else {
                assert(all[i] == back[i - front.len()]);
            }
        }
        assert forall|i: int, j: int| 0 <= i < j < all.len() implies ranking.key(
            #[trigger] all[i],
        ) <= ranking.key(#[trigger] all[j]) by {
            if j < front.len() {
                assert(all[i] == front[i]);
                assert(all[j] == front[j]);
            } else {
                assert(all[j] == back[j - front.len()]);
                if i < front.len() {
                    assert(all[i] == front[i]);
                } else {
                    assert(all[i] == back[i - front.len()]);
                }
            }
        }
    }
}

proof fn lemma_lowest_filter(
    cards: Seq<Card>,
    ranking: Ranking,
    n: nat,
    pred: spec_fn(Card) -> bool,
    k: int,
)
    requires
        forall|c: Card| #[trigger] pred(c) ==> ranking.key(c) == k,
    ensures
        lowest(cards, ranking, n).filter(pred) == if 0 <= k < n {
            cards.filter(pred)
        } else {
            Seq::<Card>::empty()
        },
    decreases n,
{
    if n == 0 {
        reveal(Seq::filter);
    } else {
        let front = lowest(cards, ranking, (n - 1) as nat);
        let back = cards.filter(ranking.at(n - 1));
        lemma_lowest_filter(cards, ranking, (n - 1) as nat, pred, k);
        Seq::filter_distributes_over_add(front, back, pred);
        if k == n - 1 {
            lemma_filter_twice(cards, ranking.at(n - 1), pred);
        } else {
            assert forall|i: int| 0 <= i < back.len() implies !pred(#[trigger] back[i]) by {
                cards.lemma_filter_pred(ranking.at(n - 1), i);
            }
            lemma_filter_nothing(back, pred);
        }
        assert(front.filter(pred) + back.filter(pred) =~= if 0 <= k < n {
            cards.filter(pred)
        } else {
            Seq::<Card>::empty()
        });
    }
}

proof fn lemma_lowest_push_multiset(cards: Seq<Card>, card: Card, ranking: Ranking, n: nat)
    ensures
        lowest(cards.push(card), ranking, n).to_multiset() == if ranking.key(card) < n {
            lowest(cards, ranking, n).to_multiset().insert(card)
        } else {
            lowest(cards, ranking, n).to_multiset()
        },
    decreases n,
{
    broadcast use group_to_multiset_ensures;

    if n > 0 {
        let m = (n - 1) as nat;
        lemma_lowest_push_multiset(cards, card, ranking, m);
        cards.lemma_filter_push(card, ranking.at(n - 1));
        let front = lowest(cards, ranking, m);
        let back = cards.filter(ranking.at(n - 1));
        let front2 = lowest(cards.push(card), ranking, m);
        let back2 = cards.push(card).filter(ranking.at(n - 1));
        lemma_multiset_commutative(front, back);
        lemma_multiset_commutative(front2, back2);
        assert((front2 + back2).to_multiset() =~= if ranking.key(card) < n {
            (front + back).to_multiset().insert(card)
        } else {
            (front + back).to_multiset()
        });
    }
}

proof fn lemma_lowest_push_last(cards: Seq<Card>, card: Card, ranking: Ranking, n: nat)
    requires
        forall|i: int|
            0 <= i < cards.len() ==> ranking.key(#[trigger] cards[i]) <= ranking.key(card),
    ensures
        lowest(cards.push(card), ranking, n) == if ranking.key(card) < n {
            lowest(cards, ranking, n).push(card)
        } else {
            lowest(cards, ranking, n)
        },
    decreases n,
{
    if n > 0 {
        let m = (n - 1) as nat;
        lemma_lowest_push_last(cards, card, ranking, m);
        cards.lemma_filter_push(card, ranking.at(n - 1));
        let front = lowest(cards, ranking, m);
        let back = cards.filter(ranking.at(n - 1));
        if ranking.key(card) < n - 1 {
            lemma_filter_nothing(cards, ranking.at(n - 1));
            assert(front.push(card) + back =~= (front + back).push(card));
        } else if ranking.key(card) == n - 1 {
            assert(front + back.push(card) =~= (front + back).push(card));
        }
    }
}

/// Ordering the cards neither adds a card nor loses one.
pub proof fn lemma_arranged_keeps_cards(cards: Seq<Card>, ranking: Ranking)
    ensures
        arranged(cards, ranking).to_multiset() == cards.to_multiset(),
        arranged(cards, ranking).len() == cards.len(),
    decreases cards.len(),
{
    broadcast use group_to_multiset_ensures;

    if cards.len() == 0 {
        lemma_lowest_filter_all(cards, ranking, ranking.span());
        assert(arranged(cards, ranking) =~= cards);
    } else {
        let front = cards.drop_last();
        let last = cards.last();
        assert(cards == front.push(last));
        lemma_arranged_keeps_cards(front, ranking);
        lemma_lowest_push_multiset(front, last, ranking, ranking.span());
        lemma_key_in_span(ranking, last);
    }
    arranged(cards, ranking).to_multiset_ensures();
    cards.to_multiset_ensures();
}

proof fn lemma_lowest_filter_all(cards: Seq<Card>, ranking: Ranking, n: nat)
    requires
        cards.len() == 0,
    ensures
        lowest(cards, ranking, n) == Seq::<Card>::empty(),
    decreases n,
{
    if n > 0 {
        lemma_lowest_filter_all(cards, ranking, (n - 1) as nat);
        lemma_filter_nothing(cards, ranking.at(n - 1));
    }
}

/// After ordering, no card comes before one that ranks below it.
pub proof fn lemma_arranged_ascends(cards: Seq<Card>, ranking: Ranking)
    ensures
        ascending(arranged(cards, ranking), ranking),
{
    lemma_lowest_keys(cards, ranking, ranking.span());
}

/// Ordering is stable: cards that rank equal stay in the order in which they
/// came. Stated for any choice `pred` among the cards of one key: the chosen
/// cards follow one another after ordering as they did before.
pub proof fn lemma_arranged_stable(
    cards: Seq<Card>,
    ranking: Ranking,
    pred: spec_fn(Card) -> bool,
    k: int,
)
    requires
        forall|c: Card| #[trigger] pred(c) ==> ranking.key(c) == k,
    ensures
        arranged(cards, ranking).filter(pred) == cards.filter(pred),
{
    lemma_lowest_filter(cards, ranking, ranking.span(), pred, k);
    if !(0 <= k < ranking.span()) {
        assert forall|i: int| 0 <= i < cards.len() implies !pred(#[trigger] cards[i]) by {
            lemma_key_in_span(ranking, cards[i]);
        }
        lemma_filter_nothing(cards, pred);
    }
}

/// Cards that are in order already stay as they are.
pub proof fn lemma_arranged_of_ascending(cards: Seq<Card>, ranking: Ranking)
    requires
        ascending(cards, ranking),
    ensures
        arranged(cards, ranking) == cards,
    decreases cards.len(),
{
    if cards.len() == 0 {
        lemma_lowest_filter_all(cards, ranking, ranking.span());
        assert(arranged(cards, ranking) =~= cards);
    } else {
        let front = cards.drop_last();
        let last = cards.last();
        assert(cards == front.push(last));
        assert forall|i: int, j: int| 0 <= i < j < front.len() implies ranking.key(
            #[trigger] front[i],
        ) <= ranking.key(#[trigger] front[j]) by {
            assert(front[i] == cards[i] && front[j] == cards[j]);
        }
        lemma_arranged_of_ascending(front, ranking);
        assert forall|i: int| 0 <= i < front.len() implies ranking.key(#[trigger] front[i])
            <= ranking.key(last) by {
            assert(front[i] == cards[i] && last == cards[cards.len() - 1]);
        }
        lemma_lowest_push_last(front, last, ranking, ranking.span());
        lemma_key_in_span(ranking, last);
    }
}

/// Where the place of a card under one ranking can be read off its place
/// under another, ordering by the first and then by the second gives what
/// ordering by the second alone gives.
pub proof fn lemma_arranged_again(
    cards: Seq<Card>,
    first: Ranking,
    second: Ranking,
    read_off: spec_fn(int) -> int,
)
    requires
        forall|c: Card| first.key(c) == read_off(#[trigger] second.key(c)),
    ensures
        arranged(arranged(cards, first), second) == arranged(cards, second),
{
    lemma_lowest_again(cards, first, second, read_off, second.span());
}

proof fn lemma_lowest_again(
    cards: Seq<Card>,
    first: Ranking,
    second: Ranking,
    read_off: spec_fn(int) -> int,
    n: nat,
)
    requires
        forall|c: Card| first.key(c) == read_off(#[trigger] second.key(c)),
    ensures
        lowest(arranged(cards, first), second, n) == lowest(cards, second, n),
    decreases n,
{
    if n > 0 {
        lemma_lowest_again(cards, first, second, read_off, (n - 1) as nat);
        lemma_arranged_stable(cards, first, second.at(n - 1), read_off(n - 1));
    }
}

proof fn lemma_filter_count(cards: Seq<Card>, pred: spec_fn(Card) -> bool, card: Card)
    ensures
        cards.filter(pred).to_multiset().count(card) == if pred(card) {
            cards.to_multiset().count(card)
        } else {
            0
        },
    decreases cards.len(),
{
    broadcast use group_to_multiset_ensures;

    if cards.len() == 0 {
        lemma_filter_nothing(cards, pred);
    } else {
        let front = cards.drop_last();
        let last = cards.last();
        assert(cards == front.push(last));
        lemma_filter_count(front, pred, card);
        front.lemma_filter_push(last, pred);
    }
}

proof fn lemma_filter_same_cards(a: Seq<Card>, b: Seq<Card>, pred: spec_fn(Card) -> bool)
    requires
        a.to_multiset() == b.to_multiset(),
    ensures
        a.filter(pred).to_multiset() == b.filter(pred).to_multiset(),
        a.filter(pred).len() == b.filter(pred).len(),
{
    assert forall|card: Card|
        a.filter(pred).to_multiset().count(card) == b.filter(pred).to_multiset().count(card) by {
        lemma_filter_count(a, pred, card);
        lemma_filter_count(b, pred, card);
    }
    assert(a.filter(pred).to_multiset() =~= b.filter(pred).to_multiset());
    to_multiset_len(a.filter(pred));
    to_multiset_len(b.filter(pred));
}

proof fn lemma_lowest_same_cards(a: Seq<Card>, b: Seq<Card>, ranking: Ranking, n: nat)
    requires
        a.to_multiset() == b.to_multiset(),
    ensures
        lowest(a, ranking, n).len() == lowest(b, ranking, n).len(),
        forall|i: int|
            0 <= i < lowest(a, ranking, n).len() ==> ranking.key(
                #[trigger] lowest(a, ranking, n)[i],
            ) == ranking.key(lowest(b, ranking, n)[i]),
    decreases n,
{
    if n > 0 {
        let m = (n - 1) as nat;
        lemma_lowest_same_cards(a, b, ranking, m);
        lemma_filter_same_cards(a, b, ranking.at(n - 1));
        let front_a = lowest(a, ranking, m);
        let front_b = lowest(b, ranking, m);
        let back_a = a.filter(ranking.at(n - 1));
        let back_b = b.filter(ranking.at(n - 1));
        assert forall|i: int| 0 <= i < lowest(a, ranking, n).len() implies ranking.key(
            #[trigger] lowest(a, ranking, n)[i],
        ) == ranking.key(lowest(b, ranking, n)[i]) by {
            if i < front_a.len() {
                assert(lowest(a, ranking, n)[i] == front_a[i]);
                assert(lowest(b, ranking, n)[i] == front_b[i]);
            } else {
                let j = i - front_a.len();
                assert(lowest(a, ranking, n)[i] == back_a[j]);
                assert(lowest(b, ranking, n)[i] == back_b[j]);
                a.lemma_filter_pred(ranking.at(n - 1), j);
                b.lemma_filter_pred(ranking.at(n - 1), j);
            }
        }
    }
}

/// The same cards, given in any order, come to lie in the same order of
/// ranks: place by place, the cards of the one rank as the cards of the
/// other.
pub proof fn lemma_arranged_any_order(a: Seq<Card>, b: Seq<Card>, ranking: Ranking)
    requires
        a.to_multiset() == b.to_multiset(),
    ensures
        arranged(a, ranking).len() == arranged(b, ranking).len(),
        forall|i: int|
            0 <= i < arranged(a, ranking).len() ==> ranking.key(#[trigger] arranged(a, ranking)[i])
                == ranking.key(arranged(b, ranking)[i]),
{
    lemma_lowest_same_cards(a, b, ranking, ranking.span());
}

/// By suit and rank no two cards rank equal.
pub proof fn lemma_by_suit_tells_apart(a: Card, b: Card)
    requires
        Ranking::BySuit.key(a) == Ranking::BySuit.key(b),
    ensures
        a == b,
{
    assert(a.suit.ordinal() == b.suit.ordinal());
    assert(a.number.ordinal() == b.number.ordinal());
}

/// There is one way only to lay cards out by suit and rank: cards that lie
/// in that order are the cards as `arranged` puts them.
pub proof fn lemma_laid_out_one_way(cards: Seq<Card>, laid_out: Seq<Card>)
    requires
        laid_out.to_multiset() == cards.to_multiset(),
        ascending(laid_out, Ranking::BySuit),
    ensures
        laid_out == arranged(cards, Ranking::BySuit),
{
    let sorted = arranged(cards, Ranking::BySuit);
    lemma_arranged_of_ascending(laid_out, Ranking::BySuit);
    lemma_arranged_any_order(laid_out, cards, Ranking::BySuit);
    assert forall|i: int| 0 <= i < laid_out.len() implies laid_out[i] == sorted[i] by {
        lemma_by_suit_tells_apart(laid_out[i], sorted[i]);
    }
    assert(laid_out =~= sorted);
}

/// Puts the cards in order under the given ranking. Cards that rank equal keep
/// the order in which they came.
pub fn arrange(cards: &mut Vec<Card>, ranking: Ranking)
    ensures
        final(cards)@ == arranged(old(cards)@, ranking),
        final(cards)@.to_multiset() == old(cards)@.to_multiset(),
        ascending(final(cards)@, ranking),
{
    proof {
        lemma_arranged_keeps_cards(cards@, ranking);
        lemma_arranged_ascends(cards@, ranking);
    }
    let span = ranking.span_of();
    let mut sorted: Vec<Card> = Vec::new();
    let mut k: u8 = 0;
    while k < span
        invariant
            k <= span == ranking.span(),
            *cards == *old(cards),
            sorted@ == lowest(cards@, ranking, k as nat),
        decreases span - k,
    {
        let ghost front = sorted@;
        let mut i: usize = 0;
        while i < cards.len()
            invariant
                i <= cards.len(),
                *cards == *old(cards),
                sorted@ == front + cards@.take(i as int).filter(ranking.at(k as int)),
            decreases cards.len() - i,
        {
            let card = cards[i];
            proof {
                assert(cards@.take(i + 1) == cards@.take(i as int).push(card));
                cards@.take(i as int).lemma_filter_push(card, ranking.at(k as int));
            }
            if ranking.key_of(&card) == k {
                sorted.push(card);
                assert(sorted@ == front + cards@.take(i + 1).filter(ranking.at(k as int)));
            }
            i += 1;
        }
        assert(cards@.take(i as int) == cards@);
        k += 1;
    }
    *cards = sorted;
}

} // verus!
