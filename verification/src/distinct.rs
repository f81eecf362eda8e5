//! Positions that differ get keys that differ: the key can be read back, field
//! by field, because no number holds a separator.

use crate::hand::valid_cards;
use crate::key::{as_nats, decimal, digit_text, flag_text, joined, key_text, sorted_hand};
use crate::opt_bj_game::OptimizedBlackJackGame;
use crate::shoe::{card_total, Shoe};
use crate::value::lemma_value_ignores_order;
use vstd::prelude::*;

verus! {

/// One of the ten decimal digits.
pub open spec fn is_digit(c: char) -> bool {
    c == '0' || c == '1' || c == '2' || c == '3' || c == '4' || c == '5' || c == '6' || c == '7'
        || c == '8' || c == '9'
}

/// Text of digits only.
pub open spec fn all_digits(text: Seq<char>) -> bool {
    forall|i: int| 0 <= i < text.len() ==> is_digit(#[trigger] text[i])
}

/// Text of digits and hyphens only.
pub open spec fn all_field(text: Seq<char>) -> bool {
    forall|i: int| 0 <= i < text.len() ==> is_digit(#[trigger] text[i]) || text[i] == '-'
}

/// The text of a digit is one character, a digit, and tells the digits apart.
proof fn lemma_digit_text(d: nat, e: nat)
    requires
        d < 10,
        e < 10,
    ensures
        digit_text(d).len() == 1,
        is_digit(digit_text(d)[0]),
        digit_text(d)[0] == digit_text(e)[0] ==> d == e,
{
    reveal_strlit("0");
    reveal_strlit("1");
    reveal_strlit("2");
    reveal_strlit("3");
    reveal_strlit("4");
    reveal_strlit("5");
    reveal_strlit("6");
    reveal_strlit("7");
    reveal_strlit("8");
    reveal_strlit("9");
}

/// A number in decimal notation is at least one digit, and digits only.
pub proof fn lemma_decimal_digits(n: nat)
    ensures
        decimal(n).len() >= 1,
        n >= 10 ==> decimal(n).len() >= 2,
        all_digits(decimal(n)),
    decreases n,
{
    lemma_digit_text(n % 10, 0);
    if n >= 10 {
        lemma_decimal_digits(n / 10);
    }
}

/// Two numbers with the same decimal notation are the same number.
pub proof fn lemma_decimal_injective(n: nat, m: nat)
    requires
        decimal(n) == decimal(m),
    ensures
        n == m,
    decreases n,
{
    lemma_decimal_digits(n);
    lemma_decimal_digits(m);
    lemma_digit_text(n % 10, m % 10);
    lemma_digit_text(m % 10, n % 10);
    if n >= 10 && m >= 10 {
        let a = decimal(n / 10);
        let b = decimal(m / 10);
        assert(decimal(n).last() == digit_text(n % 10)[0]);
        assert(decimal(m).last() == digit_text(m % 10)[0]);
        assert(decimal(n).drop_last() =~= a);
        assert(decimal(m).drop_last() =~= b);
        lemma_decimal_injective(n / 10, m / 10);
    } else if n < 10 && m < 10 {
        assert(decimal(n)[0] == digit_text(n)[0]);
        assert(decimal(m)[0] == digit_text(m)[0]);
    }
}

/// Where two texts agree, and each is digits up to a hyphen and digits after
/// it, they agree before the hyphen and after it.
proof fn lemma_split_at_last_hyphen(a: Seq<char>, x: Seq<char>, b: Seq<char>, y: Seq<char>)
    requires
        a + "-"@ + x == b + "-"@ + y,
        all_digits(x),
        all_digits(y),
    ensures
        a == b,
        x == y,
{
    reveal_strlit("-");
    let s = a + "-"@ + x;
    let t = b + "-"@ + y;
    assert(s.len() == a.len() + 1 + x.len());
    assert(t.len() == b.len() + 1 + y.len());
    if x.len() < y.len() {
        let k = a.len() as int;
        assert(s[k] == '-');
        assert(t[k] == y[k - b.len() - 1]);
        assert(is_digit(y[k - b.len() - 1]));
    }
    if y.len() < x.len() {
        let k = b.len() as int;
        assert(t[k] == '-');
        assert(s[k] == x[k - a.len() - 1]);
        assert(is_digit(x[k - a.len() - 1]));
    }
    assert forall|i: int| 0 <= i < a.len() implies a[i] == b[i] by {
        assert(s[i] == a[i]);
        assert(t[i] == b[i]);
    }
    assert(a =~= b);
    assert forall|i: int| 0 <= i < x.len() implies x[i] == y[i] by {
        assert(s[a.len() + 1 + i] == x[i]);
        assert(t[b.len() + 1 + i] == y[i]);
    }
    assert(x =~= y);
}

/// Where two texts agree, and each is digits and hyphens up to a character
/// that is neither, they agree up to that character and from it on.
proof fn lemma_split_after_field(a: Seq<char>, x: Seq<char>, b: Seq<char>, y: Seq<char>)
    requires
        a + x == b + y,
        all_field(a),
        all_field(b),
        x.len() > 0,
        y.len() > 0,
        !is_digit(x[0]) && x[0] != '-',
        !is_digit(y[0]) && y[0] != '-',
    ensures
        a == b,
        x == y,
{
    let s = a + x;
    let t = b + y;
    assert(s.len() == a.len() + x.len());
    assert(t.len() == b.len() + y.len());
    if a.len() < b.len() {
        let k = a.len() as int;
        assert(s[k] == x[0]);
        assert(t[k] == b[k]);
    }
    if b.len() < a.len() {
        let k = b.len() as int;
        assert(t[k] == y[0]);
        assert(s[k] == a[k]);
    }
    assert forall|i: int| 0 <= i < a.len() implies a[i] == b[i] by {
        assert(s[i] == a[i]);
        assert(t[i] == b[i]);
    }
    assert(a =~= b);
    assert forall|i: int| 0 <= i < x.len() implies x[i] == y[i] by {
        assert(s[a.len() + i] == x[i]);
        assert(t[b.len() + i] == y[i]);
    }
    assert(x =~= y);
}

/// What follows the same beginning in two texts that agree is the same.
proof fn lemma_same_beginning(p: Seq<char>, x: Seq<char>, y: Seq<char>)
    requires
        p + x == p + y,
    ensures
        x == y,
{
    assert(x.len() == y.len()) by {
        assert((p + x).len() == p.len() + x.len());
        assert((p + y).len() == p.len() + y.len());
    }
    assert forall|i: int| 0 <= i < x.len() implies x[i] == y[i] by {
        assert((p + x)[p.len() + i] == x[i]);
        assert((p + y)[p.len() + i] == y[i]);
    }
    assert(x =~= y);
}

/// A list of numbers is written in digits and hyphens only: in no character
/// for no number, in digits for one, and with a hyphen for more.
pub proof fn lemma_joined_field(values: Seq<nat>)
    ensures
        all_field(joined(values)),
        values.len() == 0 <==> joined(values).len() == 0,
        values.len() == 1 ==> all_digits(joined(values)),
        values.len() >= 2 ==> !all_digits(joined(values)),
    decreases values.len(),
{
    reveal_strlit("-");
    if values.len() == 1 {
        lemma_decimal_digits(values[0]);
    } else if values.len() >= 2 {
        let front = joined(values.drop_last());
        lemma_joined_field(values.drop_last());
        lemma_decimal_digits(values.last());
        let whole = joined(values);
        assert(whole == front + "-"@ + decimal(values.last()));
        assert(whole[front.len() as int] == '-');
        assert forall|i: int| 0 <= i < whole.len() implies is_digit(#[trigger] whole[i])
            || whole[i] == '-' by {
            if i < front.len() {
                assert(whole[i] == front[i]);
            } else if i > front.len() {
                assert(whole[i] == decimal(values.last())[i - front.len() - 1]);
            }
        }
    }
}

/// Two lists of numbers that are written the same are the same list.
pub proof fn lemma_joined_injective(values: Seq<nat>, others: Seq<nat>)
    requires
        joined(values) == joined(others),
    ensures
        values == others,
    decreases values.len(),
{
    lemma_joined_field(values);
    lemma_joined_field(others);
    if values.len() == 0 {
        assert(values =~= others);
    } else if values.len() == 1 {
        lemma_decimal_injective(values[0], others[0]);
        assert(values =~= others);
    } else {
        lemma_decimal_digits(values.last());
        lemma_decimal_digits(others.last());
        lemma_split_at_last_hyphen(
            joined(values.drop_last()),
            decimal(values.last()),
            joined(others.drop_last()),
            decimal(others.last()),
        );
        lemma_decimal_injective(values.last(), others.last());
        lemma_joined_injective(values.drop_last(), others.drop_last());
        assert(values =~= values.drop_last().push(values.last()));
        assert(others =~= others.drop_last().push(others.last()));
    }
}

/// The end of a key: the stay flag between its marks.
pub open spec fn flag_part(stay: bool) -> Seq<char> {
    "]s="@ + flag_text(stay) + "]"@
}

/// The end of a key from the dealer's cards on.
pub open spec fn dealer_part(dealer: Seq<usize>, stay: bool) -> Seq<char> {
    "]d=["@ + (joined(as_nats(sorted_hand(dealer))) + flag_part(stay))
}

/// The end of a key from the hand on.
pub open spec fn hand_part(hand: Seq<usize>, dealer: Seq<usize>, stay: bool) -> Seq<char> {
    "]h=["@ + (joined(as_nats(sorted_hand(hand))) + dealer_part(dealer, stay))
}

/// The end of a key from the counts on.
pub open spec fn counts_part(
    counts: Seq<nat>,
    hand: Seq<usize>,
    dealer: Seq<usize>,
    stay: bool,
) -> Seq<char> {
    "cbji=["@ + (joined(counts) + hand_part(hand, dealer, stay))
}

/// Text put together in one order of the brackets or the other is the same.
proof fn lemma_regroup(a: Seq<char>, b: Seq<char>, c: Seq<char>)
    ensures
        (a + b) + c == a + (b + c),
{
    assert((a + b) + c =~= a + (b + c));
}

/// A key is its fields one after the other.
proof fn lemma_key_parts(counts: Seq<nat>, hand: Seq<usize>, dealer: Seq<usize>, stay: bool)
    ensures
        key_text(counts, hand, dealer, stay) == "[c="@ + (decimal(card_total(counts)) + counts_part(
            counts,
            hand,
            dealer,
            stay,
        )),
{
    let number = decimal(card_total(counts));
    let list = joined(counts);
    let own = joined(as_nats(sorted_hand(hand)));
    let house = joined(as_nats(sorted_hand(dealer)));
    let flag = flag_text(stay);
    let l1 = "[c="@ + number;
    let l2 = l1 + "cbji=["@;
    let l3 = l2 + list;
    let l4 = l3 + "]h=["@;
    let l5 = l4 + own;
    let l6 = l5 + "]d=["@;
    let l7 = l6 + house;
    let l8 = l7 + "]s="@;
    let l9 = l8 + flag;
    assert(key_text(counts, hand, dealer, stay) == l9 + "]"@);
    let f = flag_part(stay);
    let d = dealer_part(dealer, stay);
    let h = hand_part(hand, dealer, stay);
    let c = counts_part(counts, hand, dealer, stay);
    lemma_regroup(l7, "]s="@, flag);
    lemma_regroup(l7, "]s="@ + flag, "]"@);
    assert(l9 + "]"@ == l7 + f);
    lemma_regroup(l6, house, f);
    lemma_regroup(l5, "]d=["@, house + f);
    assert(l7 + f == l5 + d);
    lemma_regroup(l4, own, d);
    lemma_regroup(l3, "]h=["@, own + d);
    assert(l5 + d == l3 + h);
    lemma_regroup(l2, list, h);
    lemma_regroup(l1, "cbji=["@, list + h);
    assert(l3 + h == l1 + c);
    lemma_regroup("[c="@, number, c);
}

/// Two hands whose cards are written the same hold the same cards.
proof fn lemma_same_text_same_cards(cards: Seq<usize>, others: Seq<usize>)
    requires
        valid_cards(cards),
        valid_cards(others),
        joined(as_nats(sorted_hand(cards))) == joined(as_nats(sorted_hand(others))),
    ensures
        cards.to_multiset() == others.to_multiset(),
{
    let a = sorted_hand(cards);
    let b = sorted_hand(others);
    lemma_joined_injective(as_nats(a), as_nats(b));
    assert(a.len() == b.len()) by {
        assert(as_nats(a).len() == a.len());
        assert(as_nats(b).len() == b.len());
    }
    assert forall|i: int| 0 <= i < a.len() implies a[i] == b[i] by {
        assert(as_nats(a)[i] == a[i] as nat);
        assert(as_nats(b)[i] == b[i] as nat);
    }
    assert(a =~= b);
    crate::key::lemma_sorted_hand_same_cards(cards);
    crate::key::lemma_sorted_hand_same_cards(others);
}

/// Two positions with the same key have the same shoe, hold the same cards in
/// the hand and with the dealer, and have the same stay flag.
pub proof fn lemma_key_injective(
    counts: Seq<nat>,
    hand: Seq<usize>,
    dealer: Seq<usize>,
    stay: bool,
    other_counts: Seq<nat>,
    other_hand: Seq<usize>,
    other_dealer: Seq<usize>,
    other_stay: bool,
)
    requires
        valid_cards(hand),
        valid_cards(dealer),
        valid_cards(other_hand),
        valid_cards(other_dealer),
        key_text(counts, hand, dealer, stay) == key_text(
            other_counts,
            other_hand,
            other_dealer,
            other_stay,
        ),
    ensures
        counts == other_counts,
        hand.to_multiset() == other_hand.to_multiset(),
        dealer.to_multiset() == other_dealer.to_multiset(),
        stay == other_stay,
{
    reveal_strlit("cbji=[");
    reveal_strlit("]h=[");
    reveal_strlit("]d=[");
    reveal_strlit("]s=");
    reveal_strlit("]");
    reveal_strlit("true");
    reveal_strlit("false");
    lemma_key_parts(counts, hand, dealer, stay);
    lemma_key_parts(other_counts, other_hand, other_dealer, other_stay);
    let own_hand = joined(as_nats(sorted_hand(hand)));
    let own_dealer = joined(as_nats(sorted_hand(dealer)));
    let their_hand = joined(as_nats(sorted_hand(other_hand)));
    let their_dealer = joined(as_nats(sorted_hand(other_dealer)));
    lemma_decimal_digits(card_total(counts));
    lemma_decimal_digits(card_total(other_counts));
    lemma_joined_field(counts);
    lemma_joined_field(other_counts);
    lemma_joined_field(as_nats(sorted_hand(hand)));
    lemma_joined_field(as_nats(sorted_hand(other_hand)));
    lemma_joined_field(as_nats(sorted_hand(dealer)));
    lemma_joined_field(as_nats(sorted_hand(other_dealer)));

    // the number of cards, then the counts
    let c1 = counts_part(counts, hand, dealer, stay);
    let c2 = counts_part(other_counts, other_hand, other_dealer, other_stay);
    lemma_same_beginning(
        "[c="@,
        decimal(card_total(counts)) + c1,
        decimal(card_total(other_counts)) + c2,
    );
    assert(c1[0] == 'c');
    assert(c2[0] == 'c');
    lemma_split_after_field(
        decimal(card_total(counts)),
        c1,
        decimal(card_total(other_counts)),
        c2,
    );
    let h1 = hand_part(hand, dealer, stay);
    let h2 = hand_part(other_hand, other_dealer, other_stay);
    lemma_same_beginning("cbji=["@, joined(counts) + h1, joined(other_counts) + h2);
    assert(h1[0] == ']');
    assert(h2[0] == ']');
    lemma_split_after_field(joined(counts), h1, joined(other_counts), h2);
    lemma_joined_injective(counts, other_counts);

    // the hand
    let d1 = dealer_part(dealer, stay);
    let d2 = dealer_part(other_dealer, other_stay);
    lemma_same_beginning("]h=["@, own_hand + d1, their_hand + d2);
    assert(d1[0] == ']');
    assert(d2[0] == ']');
    lemma_split_after_field(own_hand, d1, their_hand, d2);
    lemma_same_text_same_cards(hand, other_hand);

    // the dealer's cards
    let f1 = flag_part(stay);
    let f2 = flag_part(other_stay);
    lemma_same_beginning("]d=["@, own_dealer + f1, their_dealer + f2);
    assert(f1[0] == ']');
    assert(f2[0] == ']');
    lemma_split_after_field(own_dealer, f1, their_dealer, f2);
    lemma_same_text_same_cards(dealer, other_dealer);

    // the stay flag
    assert(f1.len() == 3 + flag_text(stay).len() + 1);
    assert(f2.len() == 3 + flag_text(other_stay).len() + 1);
}

impl OptimizedBlackJackGame {
    /// The two positions have the same shoe, hold the same cards in the hand and
    /// with the dealer, whatever their order, and have the same stay flag.
    pub open spec fn same_cards(&self, other: &Self) -> bool {
        &&& self.shoe()@ == other.shoe()@
        &&& self.hand_cards().to_multiset() == other.hand_cards().to_multiset()
        &&& self.dealer_cards().to_multiset() == other.dealer_cards().to_multiset()
        &&& self.stayed() == other.stayed()
    }

    /// Two positions have the same key exactly when they have the same shoe,
    /// hold the same cards in the hand and with the dealer, whatever their
    /// order, and have the same stay flag. Positions with the same key have the
    /// same value, so a value remembered under the key of one is the value of
    /// the other.
    pub proof fn lemma_same_key(&self, other: &Self)
        requires
            self.wf(),
            other.wf(),
        ensures
            self.spec_key() == other.spec_key() <==> self.same_cards(other),
            self.spec_key() == other.spec_key() ==> self.spec_expected_value()
                == other.spec_expected_value(),
            self.spec_key() == other.spec_key() ==> self.spec_step() == other.spec_step(),
    {
        broadcast use Shoe::lemma_view_len;

        if self.spec_key() == other.spec_key() {
            lemma_key_injective(
                self.shoe()@,
                self.hand_cards(),
                self.dealer_cards(),
                self.stayed(),
                other.shoe()@,
                other.hand_cards(),
                other.dealer_cards(),
                other.stayed(),
            );
            lemma_value_ignores_order(
                self.shoe()@,
                self.hand_cards(),
                self.dealer_cards(),
                other.hand_cards(),
                other.dealer_cards(),
                self.stayed(),
            );
            crate::opt_bj_game::lemma_step_ignores_order(
                self.shoe()@,
                self.hand_cards(),
                self.dealer_cards(),
                other.hand_cards(),
                other.dealer_cards(),
                self.stayed(),
            );
        }
    }
}

} // verus!
