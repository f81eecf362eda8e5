//! The shoe: how many cards of each scoring class are still undealt.
//!
//! Cards are tracked by scoring class only. Class 0 is the ace, classes 1 to 8
//! are the two through the nine, and class 9 holds every ten-valued card.

use vstd::prelude::*;

verus! {

/// Sum of the first `n` entries of `counts`.
pub open spec fn prefix_sum(counts: Seq<nat>, n: int) -> nat
    decreases n,
{
    if n <= 0 {
        0
    } else {
        prefix_sum(counts, n - 1) + counts[n - 1]
    }
}

/// Number of cards in a composition of ten classes.
pub open spec fn card_total(counts: Seq<nat>) -> nat {
    prefix_sum(counts, 10)
}

/// Composition of `num_decks` standard 52-card decks: four suits of thirteen
/// ranks each, of which four ranks are ten-valued.
pub open spec fn standard_counts(num_decks: nat) -> Seq<nat> {
    Seq::new(10, |b: int| if b == 9 { 16 * num_decks } else { 4 * num_decks })
}

/// The composition that `counts` becomes when one card of class `bucket` leaves.
pub open spec fn without_card(counts: Seq<nat>, bucket: int) -> Seq<nat> {
    counts.update(bucket, (counts[bucket] - 1) as nat)
}

/// The total written out class by class.
pub proof fn lemma_card_total_expanded(counts: Seq<nat>)
    ensures
        card_total(counts) == counts[0] + counts[1] + counts[2] + counts[3] + counts[4]
            + counts[5] + counts[6] + counts[7] + counts[8] + counts[9],
{
    reveal_with_fuel(prefix_sum, 11);
}

/// No class holds more cards than the whole shoe.
pub proof fn lemma_count_at_most_total(counts: Seq<nat>, bucket: int)
    requires
        0 <= bucket < 10,
    ensures
        counts[bucket] <= card_total(counts),
{
    lemma_card_total_expanded(counts);
}

/// Taking one card out of a class that holds one lowers the total by one.
pub proof fn lemma_without_card_total(counts: Seq<nat>, bucket: int)
    requires
        counts.len() == 10,
        0 <= bucket < 10,
        counts[bucket] > 0,
    ensures
        card_total(without_card(counts, bucket)) + 1 == card_total(counts),
{
    lemma_card_total_expanded(counts);
    lemma_card_total_expanded(without_card(counts, bucket));
}

/// A standard shoe holds 52 cards per deck.
pub proof fn lemma_standard_total(num_decks: nat)
    ensures
        card_total(standard_counts(num_decks)) == 52 * num_decks,
{
    lemma_card_total_expanded(standard_counts(num_decks));
}

/// The undealt cards, counted per scoring class.
#[derive(Clone, Copy, Debug)]
pub struct Shoe {
    counts: [usize; 10],
    total: usize,
}

impl View for Shoe {
    type V = Seq<nat>;

    /// The ten counts, class by class.
    closed spec fn view(&self) -> Seq<nat> {
        Seq::new(10, |b: int| self.counts[b] as nat)
    }
}

impl Shoe {
    /// The stored total agrees with the counts.
    pub closed spec fn wf(&self) -> bool {
        self.total == card_total(self@)
    }

    /// A view always has one entry per class.
    pub broadcast proof fn lemma_view_len(&self)
        ensures
            #[trigger] self@.len() == 10,
    {
    }

    /// A shoe with no cards.
    pub fn new_empty() -> (shoe: Shoe)
        ensures
            shoe.wf(),
            shoe@ == Seq::new(10, |b: int| 0nat),
            card_total(shoe@) == 0,
    {
        let shoe = Shoe { counts: [0usize; 10], total: 0 };
        proof {
            assert(shoe@ =~= Seq::new(10, |b: int| 0nat));
            lemma_card_total_expanded(shoe@);
        }
        shoe
    }

    /// A shoe of `num_decks` standard decks.
    pub fn new_standard(num_decks: usize) -> (shoe: Shoe)
        requires
            52 * num_decks <= usize::MAX,
        ensures
            shoe.wf(),
            shoe@ == standard_counts(num_decks as nat),
            card_total(shoe@) == 52 * num_decks,
    {
        let low: usize = 4 * num_decks;
        let high: usize = 16 * num_decks;
        let shoe = Shoe {
            counts: [low, low, low, low, low, low, low, low, low, high],
            total: 52 * num_decks,
        };
        proof {
            assert(shoe@ =~= standard_counts(num_decks as nat));
            lemma_standard_total(num_decks as nat);
        }
        shoe
    }

    /// A shoe with the given counts, unless their sum exceeds what `usize` holds.
    pub fn from_counts(counts: [usize; 10]) -> (made: Option<Shoe>)
        ensures
            made.is_some() <==> card_total(Seq::new(10, |b: int| counts[b] as nat))
                <= usize::MAX,
            made.is_some() ==> made.unwrap().wf() && made.unwrap()@ == Seq::new(
                10,
                |b: int| counts[b] as nat,
            ),
    {
        let ghost target = Seq::new(10, |b: int| counts[b] as nat);
        let mut total: usize = 0;
        let mut b: usize = 0;
        while b < 10
            invariant
                b <= 10,
                total == prefix_sum(target, b as int),
                target == Seq::new(10, |b: int| counts[b] as nat),
            decreases 10 - b,
        {
            let c: usize = counts[b];
            if c > usize::MAX - total {
                proof {
                    lemma_prefix_sum_grows(target, b as int + 1, 10);
                }
                return None;
            }
            total = total + c;
            b = b + 1;
        }
        let shoe = Shoe { counts, total };
        proof {
            assert(shoe@ =~= target);
        }
        Some(shoe)
    }

    /// Number of cards left.
    pub fn total(&self) -> (t: usize)
        requires
            self.wf(),
        ensures
            t == card_total(self@),
    {
        self.total
    }

    /// Number of cards left in class `bucket`.
    pub fn count(&self, bucket: usize) -> (c: usize)
        requires
            bucket < 10,
        ensures
            c == self@[bucket as int],
    {
        self.counts[bucket]
    }

    /// Chances of the next card, class by class, as exact fractions: class `b`
    /// comes with probability `weights[b] / total`. The numerators add up to
    /// the denominator, so over a shoe that is not empty the chances add up
    /// to one.
    pub fn draw_weights(&self) -> (odds: ([usize; 10], usize))
        requires
            self.wf(),
        ensures
            odds.0@.len() == 10,
            forall|b: int| 0 <= b < 10 ==> odds.0[b] == self@[b],
            odds.1 == card_total(self@),
            card_total(Seq::new(10, |b: int| odds.0[b] as nat)) == odds.1,
    {
        proof {
            assert(Seq::new(10, |b: int| self.counts[b] as nat) =~= self@);
        }
        (self.counts, self.total)
    }

    /// The shoe after one card of class `bucket` has left it.
    pub fn draw(&self, bucket: usize) -> (rest: Shoe)
        requires
            self.wf(),
            bucket < 10,
            self@[bucket as int] > 0,
        ensures
            rest.wf(),
            rest@ == without_card(self@, bucket as int),
            card_total(rest@) + 1 == card_total(self@),
    {
        let mut counts = self.counts;
        let left: usize = self.counts[bucket] - 1;
        counts[bucket] = left;
        proof {
            lemma_without_card_total(self@, bucket as int);
            lemma_count_at_most_total(self@, bucket as int);
        }
        let rest = Shoe { counts, total: self.total - 1 };
        proof {
            assert(rest@ =~= without_card(self@, bucket as int));
        }
        rest
    }
}

/// A longer prefix never sums to less.
pub proof fn lemma_prefix_sum_grows(counts: Seq<nat>, m: int, n: int)
    requires
        m <= n,
    ensures
        prefix_sum(counts, m) <= prefix_sum(counts, n),
    decreases n - m,
{
    if m < n {
        lemma_prefix_sum_grows(counts, m, n - 1);
    }
}

/// The chance that the next card out of a shoe of these counts is of class
/// `card`.
pub open spec fn share(counts: Seq<nat>, card: int) -> real {
    counts[card] as real / card_total(counts) as real
}

/// The chances of the classes below `upto`, added up.
pub open spec fn share_sum(counts: Seq<nat>, upto: nat) -> real
    decreases upto,
{
    if upto == 0 {
        0 as real
    } else {
        share_sum(counts, (upto - 1) as nat) + share(counts, upto - 1)
    }
}

/// The chances of the classes below `upto` add up to the part of the shoe that
/// those classes make up.
pub proof fn lemma_share_sum(counts: Seq<nat>, upto: nat)
    requires
        card_total(counts) > 0,
    ensures
        share_sum(counts, upto) * card_total(counts) as real == prefix_sum(counts, upto as int) as real,
    decreases upto,
{
    if upto > 0 {
        lemma_share_sum(counts, (upto - 1) as nat);
        let n = card_total(counts) as real;
        let before = share_sum(counts, (upto - 1) as nat);
        let copies = counts[upto - 1] as real;
        assert((before + copies / n) * n == before * n + copies) by (nonlinear_arith)
            requires
                n > 0 as real,
        ;
    }
}

/// Over a shoe that is not empty, the chances of the ten classes add up to one.
pub proof fn lemma_shares_sum_to_one(counts: Seq<nat>)
    requires
        card_total(counts) > 0,
    ensures
        share_sum(counts, 10) == 1 as real,
{
    lemma_share_sum(counts, 10);
    let n = card_total(counts) as real;
    let sum = share_sum(counts, 10);
    assert(sum == 1 as real) by (nonlinear_arith)
        requires
            sum * n == n,
            n > 0 as real,
    ;
}

/// The chances of the classes below `upto` add up to no less than nothing and
/// no more than one.
pub proof fn lemma_share_sum_bounds(counts: Seq<nat>, upto: nat)
    requires
        card_total(counts) > 0,
        upto <= 10,
    ensures
        0 as real <= share_sum(counts, upto) <= 1 as real,
{
    lemma_share_sum(counts, upto);
    lemma_prefix_sum_grows(counts, upto as int, 10);
    let n = card_total(counts) as real;
    let part = prefix_sum(counts, upto as int) as real;
    let sum = share_sum(counts, upto);
    assert(0 as real <= sum <= 1 as real) by (nonlinear_arith)
        requires
            sum * n == part,
            0 as real <= part <= n,
            n > 0 as real,
    ;
}

} // verus!
