//! Scoring a hand of cards given by their scoring classes.

use vstd::multiset::Multiset;
use vstd::prelude::*;
use vstd::seq_lib::{to_multiset_build, to_multiset_contains};

verus! {

/// Every card names one of the ten scoring classes.
pub open spec fn valid_cards(cards: Seq<usize>) -> bool {
    forall|i: int| 0 <= i < cards.len() ==> #[trigger] cards[i] < 10
}

/// The cards counted with every ace as one: a card of class `c` counts `c + 1`.
pub open spec fn pip_sum(cards: Seq<usize>) -> nat
    decreases cards.len(),
{
    if cards.len() == 0 {
        0
    } else {
        pip_sum(cards.drop_last()) + cards.last() as nat + 1
    }
}

/// Whether an ace is among the cards.
pub open spec fn has_ace(cards: Seq<usize>) -> bool {
    exists|i: int| 0 <= i < cards.len() && cards[i] == 0
}

/// The value of a hand: one ace counts eleven where that does not pass 21.
pub open spec fn hand_total(cards: Seq<usize>) -> nat {
    if has_ace(cards) && pip_sum(cards) + 10 <= 21 {
        pip_sum(cards) + 10
    } else {
        pip_sum(cards)
    }
}

/// More than 21.
pub open spec fn is_bust(cards: Seq<usize>) -> bool {
    hand_total(cards) > 21
}

/// Exactly 21 with exactly two cards.
pub open spec fn is_blackjack(cards: Seq<usize>) -> bool {
    hand_total(cards) == 21 && cards.len() == 2
}

/// The pip sum of a collection of cards, class by class.
pub open spec fn pips_by_class(held: Multiset<usize>) -> nat {
    held.count(0) + 2 * held.count(1) + 3 * held.count(2) + 4 * held.count(3) + 5 * held.count(4)
        + 6 * held.count(5) + 7 * held.count(6) + 8 * held.count(7) + 9 * held.count(8) + 10
        * held.count(9)
}

/// One more card adds its own count to the pip sum.
pub proof fn lemma_pip_sum_push(cards: Seq<usize>, card: usize)
    ensures
        pip_sum(cards.push(card)) == pip_sum(cards) + card + 1,
        has_ace(cards.push(card)) <==> has_ace(cards) || card == 0,
{
    let more = cards.push(card);
    assert(more.drop_last() =~= cards);
    assert(more.last() == card);
    if has_ace(cards) {
        let i = choose|i: int| 0 <= i < cards.len() && cards[i] == 0;
        assert(more[i] == 0);
    }
    if card == 0 {
        assert(more[cards.len() as int] == 0);
    }
    if has_ace(more) {
        let i = choose|i: int| 0 <= i < more.len() && more[i] == 0;
        if i < cards.len() {
            assert(cards[i] == 0);
        }
    }
}

/// The pip sum depends on which cards are held, not on their order.
pub proof fn lemma_pip_sum_by_class(cards: Seq<usize>)
    requires
        valid_cards(cards),
    ensures
        pip_sum(cards) == pips_by_class(cards.to_multiset()),
        has_ace(cards) <==> cards.to_multiset().count(0) > 0,
    decreases cards.len(),
{
    broadcast use to_multiset_build, to_multiset_contains;

    if cards.len() == 0 {
        assert(cards.to_multiset().len() == 0) by {
            cards.to_multiset_ensures();
        }
        assert(forall|c: usize| cards.to_multiset().count(c) == 0) by {
            cards.to_multiset_ensures();
        }
    } else {
        let front = cards.drop_last();
        let card = cards.last();
        lemma_pip_sum_by_class(front);
        assert(cards =~= front.push(card));
        assert(cards.to_multiset() =~= front.to_multiset().insert(card));
        lemma_pip_sum_push(front, card);
    }
}

/// Two hands of the same cards in another order have the same value.
pub proof fn lemma_hand_total_ignores_order(a: Seq<usize>, b: Seq<usize>)
    requires
        valid_cards(a),
        valid_cards(b),
        a.to_multiset() == b.to_multiset(),
    ensures
        hand_total(a) == hand_total(b),
        a.len() == b.len(),
        is_bust(a) == is_bust(b),
        is_blackjack(a) == is_blackjack(b),
{
    lemma_pip_sum_by_class(a);
    lemma_pip_sum_by_class(b);
    a.to_multiset_ensures();
    b.to_multiset_ensures();
}

/// The value of the hand `cards`.
pub fn hand_value(cards: &Vec<usize>) -> (value: usize)
    requires
        valid_cards(cards@),
        10 * cards@.len() + 10 <= usize::MAX,
    ensures
        value == hand_total(cards@),
{
    let mut value: usize = 0;
    let mut aces_count: usize = 0;
    let mut i: usize = 0;
    while i < cards.len()
        invariant
            i <= cards@.len(),
            valid_cards(cards@),
            10 * cards@.len() + 10 <= usize::MAX,
            value == pip_sum(cards@.take(i as int)),
            aces_count <= i,
            aces_count <= value <= 10 * i,
            aces_count > 0 <==> has_ace(cards@.take(i as int)),
        decreases cards@.len() - i,
    {
        let card: usize = cards[i];
        proof {
            assert(cards@.take(i as int + 1) =~= cards@.take(i as int).push(card));
            lemma_pip_sum_push(cards@.take(i as int), card);
        }
        if card == 0 {
            aces_count = aces_count + 1;
        }
        value = value + card + 1;
        i = i + 1;
    }
    proof {
        assert(cards@.take(i as int) =~= cards@);
    }
    let ghost low = value;
    let mut k: usize = 0;
    while k < aces_count
        invariant
            k <= aces_count,
            aces_count <= low,
            low + 10 <= usize::MAX,
            k > 0 && low + 10 <= 21 ==> value == low + 10,
            !(k > 0 && low + 10 <= 21) ==> value == low,
        decreases aces_count - k,
    {
        if value + 10 <= 21 {
            value = value + 10;
        }
        k = k + 1;
    }
    value
}

} // verus!
