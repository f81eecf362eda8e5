//! The text under which the value of a position is remembered.
//!
//! Two positions get the same text when they hold the same cards in the shoe,
//! in the hand and with the dealer, whatever the order in which those cards came.

use vstd::multiset::Multiset;
use vstd::prelude::*;
use vstd::seq_lib::to_multiset_build;
use vstd::string::StringExecFns;

verus! {

/// The text of one decimal digit.
pub open spec fn digit_text(d: nat) -> Seq<char> {
    if d == 0 {
        "0"@
    } else if d == 1 {
        "1"@
    } else if d == 2 {
        "2"@
    } else if d == 3 {
        "3"@
    } else if d == 4 {
        "4"@
    } else if d == 5 {
        "5"@
    } else if d == 6 {
        "6"@
    } else if d == 7 {
        "7"@
    } else if d == 8 {
        "8"@
    } else {
        "9"@
    }
}

/// A number in decimal notation, without leading zeros.
pub open spec fn decimal(n: nat) -> Seq<char>
    decreases n,
{
    if n < 10 {
        digit_text(n)
    } else {
        decimal(n / 10) + digit_text(n % 10)
    }
}

/// The numbers in decimal notation, with a hyphen between neighbours.
pub open spec fn joined(values: Seq<nat>) -> Seq<char>
    decreases values.len(),
{
    if values.len() == 0 {
        Seq::empty()
    } else if values.len() == 1 {
        decimal(values[0])
    } else {
        joined(values.drop_last()) + "-"@ + decimal(values.last())
    }
}

/// The cards as natural numbers.
pub open spec fn as_nats(cards: Seq<usize>) -> Seq<nat> {
    Seq::new(cards.len(), |i: int| cards[i] as nat)
}

/// `copies` cards of class `class` in a row.
pub open spec fn run_of(class: usize, copies: nat) -> Seq<usize> {
    Seq::new(copies, |i: int| class)
}

/// The cards of `held` whose class is below `upto`, lowest class first.
pub open spec fn ascending(held: Multiset<usize>, upto: nat) -> Seq<usize>
    decreases upto,
{
    if upto == 0 {
        Seq::empty()
    } else {
        ascending(held, (upto - 1) as nat) + run_of((upto - 1) as usize, held.count((upto - 1) as usize))
    }
}

/// The cards of a hand in ascending order.
pub open spec fn sorted_hand(cards: Seq<usize>) -> Seq<usize> {
    ascending(cards.to_multiset(), 10)
}

/// The text of the stay flag.
pub open spec fn flag_text(stay: bool) -> Seq<char> {
    if stay {
        "true"@
    } else {
        "false"@
    }
}

/// The key of a position: the number of cards in the shoe, its ten counts, the
/// hand and the dealer's cards in ascending order, and the stay flag.
pub open spec fn key_text(counts: Seq<nat>, hand: Seq<usize>, dealer: Seq<usize>, stay: bool) -> Seq<
    char,
> {
    "[c="@ + decimal(crate::shoe::card_total(counts)) + "cbji=["@ + joined(counts) + "]h=["@
        + joined(as_nats(sorted_hand(hand))) + "]d=["@ + joined(as_nats(sorted_hand(dealer)))
        + "]s="@ + flag_text(stay) + "]"@
}

/// The key does not change when the cards of the hand, or those of the dealer,
/// are held in another order.
pub proof fn lemma_key_ignores_order(
    counts: Seq<nat>,
    hand: Seq<usize>,
    dealer: Seq<usize>,
    other_hand: Seq<usize>,
    other_dealer: Seq<usize>,
    stay: bool,
)
    requires
        hand.to_multiset() == other_hand.to_multiset(),
        dealer.to_multiset() == other_dealer.to_multiset(),
    ensures
        key_text(counts, hand, dealer, stay) == key_text(counts, other_hand, other_dealer, stay),
{
}

/// The ascending arrangement has one card for each card held, and its classes
/// never fall from one place to the next.
pub proof fn lemma_ascending_is_sorted(held: Multiset<usize>, upto: nat)
    requires
        upto <= 10,
    ensures
        forall|i: int| 0 <= i < ascending(held, upto).len() ==> #[trigger] ascending(held, upto)[i]
            < upto,
        forall|i: int, j: int|
            0 <= i <= j < ascending(held, upto).len() ==> ascending(held, upto)[i] <= ascending(
                held,
                upto,
            )[j],
        forall|class: usize|
            class < upto ==> #[trigger] ascending(held, upto).to_multiset().count(class)
                == held.count(class),
        forall|class: usize|
            class >= upto ==> #[trigger] ascending(held, upto).to_multiset().count(class) == 0,
    decreases upto,
{
    let whole = ascending(held, upto);
    if upto == 0 {
        whole.to_multiset_ensures();
        assert forall|class: usize| whole.to_multiset().count(class) == 0 by {
            if whole.to_multiset().count(class) > 0 {
                assert(whole.contains(class));
            }
        }
    } else {
        let class = (upto - 1) as usize;
        let front = ascending(held, (upto - 1) as nat);
        lemma_ascending_is_sorted(held, (upto - 1) as nat);
        lemma_run_counts(front, class, held.count(class));
        assert forall|c: usize| c < upto implies #[trigger] whole.to_multiset().count(c)
            == held.count(c) by {
            assert(front.to_multiset().count(c) == if c < upto - 1 {
                held.count(c)
            } else {
                0
            });
        }
        assert forall|c: usize| c >= upto implies #[trigger] whole.to_multiset().count(c)
            == 0 by {
            assert(front.to_multiset().count(c) == 0);
        }
    }
}

/// Appending a run of one class adds that many cards of the class and no others.
proof fn lemma_run_counts(front: Seq<usize>, class: usize, copies: nat)
    ensures
        (front + run_of(class, copies)).to_multiset().count(class) == front.to_multiset().count(
            class,
        ) + copies,
        forall|c: usize|
            c != class ==> #[trigger] (front + run_of(class, copies)).to_multiset().count(c)
                == front.to_multiset().count(c),
    decreases copies,
{
    broadcast use to_multiset_build;

    if copies == 0 {
        assert(front + run_of(class, copies) =~= front);
    } else {
        lemma_run_counts(front, class, (copies - 1) as nat);
        assert(front + run_of(class, copies) =~= (front + run_of(class, (copies - 1) as nat)).push(
            class,
        ));
    }
}

/// The ascending arrangement of a hand holds exactly the cards of the hand.
pub proof fn lemma_sorted_hand_same_cards(cards: Seq<usize>)
    requires
        crate::hand::valid_cards(cards),
    ensures
        sorted_hand(cards).to_multiset() == cards.to_multiset(),
        sorted_hand(cards).len() == cards.len(),
{
    let held = cards.to_multiset();
    lemma_ascending_is_sorted(held, 10);
    cards.to_multiset_ensures();
    sorted_hand(cards).to_multiset_ensures();
    assert forall|class: usize| sorted_hand(cards).to_multiset().count(class) == held.count(
        class,
    ) by {
        assert(class < 10 || class >= 10);
        if class >= 10 && held.count(class) > 0 {
            assert(cards.contains(class));
            let i = choose|i: int| 0 <= i < cards.len() && cards[i] == class;
            assert(cards[i] < 10);
        }
    }
    assert(sorted_hand(cards).to_multiset() =~= held);
}

/// The digit `d` as text.
fn digit_str(d: usize) -> (text: &'static str)
    requires
        d < 10,
    ensures
        text@ == digit_text(d as nat),
{
    if d == 0 {
        "0"
    } else if d == 1 {
        "1"
    } else if d == 2 {
        "2"
    } else if d == 3 {
        "3"
    } else if d == 4 {
        "4"
    } else if d == 5 {
        "5"
    } else if d == 6 {
        "6"
    } else if d == 7 {
        "7"
    } else if d == 8 {
        "8"
    } else {
        "9"
    }
}

/// Appends `n` in decimal notation.
pub fn push_decimal(text: &mut String, n: usize)
    ensures
        final(text)@ == old(text)@ + decimal(n as nat),
    decreases n,
{
    if n >= 10 {
        push_decimal(text, n / 10);
    }
    text.append(digit_str(n % 10));
    proof {
        if n >= 10 {
            assert(old(text)@ + decimal(n as nat / 10) + digit_text(n as nat % 10) =~= old(text)@
                + (decimal(n as nat / 10) + digit_text(n as nat % 10)));
        }
    }
}

/// Appends the numbers in decimal notation, with a hyphen between neighbours.
pub fn push_joined(text: &mut String, values: &Vec<usize>)
    ensures
        final(text)@ == old(text)@ + joined(as_nats(values@)),
{
    let ghost all = as_nats(values@);
    let mut i: usize = 0;
    while i < values.len()
        invariant
            i <= values@.len(),
            all == as_nats(values@),
            text@ == old(text)@ + joined(all.take(i as int)),
        decreases values@.len() - i,
    {
        let ghost before = text@;
        if i > 0 {
            text.append("-");
        }
        push_decimal(text, values[i]);
        proof {
            let done = all.take(i as int);
            let next = all.take(i as int + 1);
            assert(next.drop_last() =~= done);
            assert(next.last() == values@[i as int] as nat);
            if i > 0 {
                assert(text@ =~= old(text)@ + (joined(done) + "-"@ + decimal(next.last())));
            } else {
                assert(done =~= Seq::<nat>::empty());
                assert(text@ =~= old(text)@ + decimal(next[0]));
            }
        }
        i = i + 1;
    }
    proof {
        assert(all.take(i as int) =~= all);
    }
}

/// The cards in ascending order.
pub fn sorted_cards(cards: &Vec<usize>) -> (sorted: Vec<usize>)
    requires
        crate::hand::valid_cards(cards@),
    ensures
        sorted@ == sorted_hand(cards@),
{
    broadcast use to_multiset_build;

    let ghost held = cards@.to_multiset();
    let mut tally: [usize; 10] = [0usize; 10];
    let mut i: usize = 0;
    proof {
        cards@.take(0).to_multiset_ensures();
        assert forall|class: usize| cards@.take(0).to_multiset().count(class) == 0 by {
            if cards@.take(0).to_multiset().count(class) > 0 {
                assert(cards@.take(0).contains(class));
            }
        }
    }
    while i < cards.len()
        invariant
            i <= cards@.len(),
            crate::hand::valid_cards(cards@),
            forall|class: usize|
                class < 10 ==> #[trigger] tally[class as int] == cards@.take(
                    i as int,
                ).to_multiset().count(class),
            forall|class: usize| class < 10 ==> #[trigger] tally[class as int] <= i,
        decreases cards@.len() - i,
    {
        let card: usize = cards[i];
        let ghost earlier = tally;
        let seen: usize = tally[card];
        tally[card] = seen + 1;
        proof {
            let before = cards@.take(i as int);
            let after = cards@.take(i as int + 1);
            assert(after =~= before.push(card));
            to_multiset_build(before, card);
            assert forall|class: usize| class < 10 implies #[trigger] tally[class as int]
                == after.to_multiset().count(class) by {
                assert(earlier[class as int] == before.to_multiset().count(class));
            }
            assert forall|class: usize| class < 10 implies #[trigger] tally[class as int] <= i
                + 1 by {
                assert(earlier[class as int] <= i);
            }
        }
        i = i + 1;
    }
    proof {
        assert(cards@.take(i as int) =~= cards@);
    }
    let mut sorted: Vec<usize> = Vec::new();
    let mut class: usize = 0;
    while class < 10
        invariant
            class <= 10,
            held == cards@.to_multiset(),
            forall|c: usize| c < 10 ==> #[trigger] tally[c as int] == held.count(c),
            sorted@ == ascending(held, class as nat),
        decreases 10 - class,
    {
        let copies: usize = tally[class];
        let mut k: usize = 0;
        while k < copies
            invariant
                k <= copies,
                class < 10,
                sorted@ == ascending(held, class as nat) + run_of(class, k as nat),
            decreases copies - k,
        {
            sorted.push(class);
            proof {
                assert(sorted@ =~= ascending(held, class as nat) + run_of(class, (k + 1) as nat));
            }
            k = k + 1;
        }
        class = class + 1;
    }
    sorted
}

/// The key text of a position given by its parts.
pub fn render_key(
    total: usize,
    counts: &Vec<usize>,
    hand: &Vec<usize>,
    dealer: &Vec<usize>,
    stay: bool,
) -> (key: String)
    requires
        total == crate::shoe::card_total(as_nats(counts@)),
        crate::hand::valid_cards(hand@),
        crate::hand::valid_cards(dealer@),
    ensures
        key@ == key_text(as_nats(counts@), hand@, dealer@, stay),
{
    let sorted_own = sorted_cards(hand);
    let sorted_house = sorted_cards(dealer);
    let mut key = String::new();
    key.append("[c=");
    push_decimal(&mut key, total);
    key.append("cbji=[");
    push_joined(&mut key, counts);
    key.append("]h=[");
    push_joined(&mut key, &sorted_own);
    key.append("]d=[");
    push_joined(&mut key, &sorted_house);
    key.append("]s=");
    if stay {
        key.append("true");
    } else {
        key.append("false");
    }
    key.append("]");
    proof {
        assert(key@ =~= key_text(as_nats(counts@), hand@, dealer@, stay));
    }
    key
}

} // verus!
