//! The exact value of a position: what it pays on average for one unit
//! wagered, when the player chooses the better of staying and hitting at every
//! turn and every card of the shoe is as likely as any other to come next.
//!
//! The value is a real number. A caller that computes it walks the positions by
//! `next_step` and `branches`, which give the case and the terms of each
//! expectation.

use crate::hand::{is_blackjack, is_bust, valid_cards};
use crate::opt_bj_game::{step_of, Draw, OptimizedBlackJackGame, Payoff, Step};
use crate::shoe::{
    card_total, lemma_count_at_most_total, lemma_share_sum_bounds, lemma_without_card_total, share,
    share_sum, without_card,
};
use vstd::prelude::*;

verus! {

/// What a settled position pays, in units of the wager.
pub open spec fn payoff_value(payoff: Payoff) -> real {
    payoff.spec_halves() as real / 2 as real
}

/// The better of two values.
pub open spec fn better(a: real, b: real) -> real {
    if a >= b {
        a
    } else {
        b
    }
}

/// Rank of a position among those over the same shoe: a position that has not
/// stayed is valued after the one that has.
pub open spec fn rank_of_stay(stay: bool) -> nat {
    if stay {
        1
    } else {
        2
    }
}

/// Rank of an expectation among the positions over the same shoe: the
/// expectation over a hit is taken after the value of the stayed position.
pub open spec fn rank_of_draw(draw: Draw) -> nat {
    if draw == Draw::Player {
        1
    } else {
        0
    }
}

/// The value of the position with these cards in the shoe, in the hand and with
/// the dealer: what it pays where it is settled, the expectation over the next
/// card where a card must come, and the better of staying and hitting where the
/// player chooses.
pub open spec fn value(counts: Seq<nat>, hand: Seq<usize>, dealer: Seq<usize>, stay: bool) -> real
    decreases card_total(counts), rank_of_stay(stay), 11nat,
    when counts.len() == 10
{
    match step_of(hand, dealer, stay) {
        Step::Settled(payoff) => payoff_value(payoff),
        Step::Undealt => expectation(counts, hand, dealer, Draw::Opening, 10),
        Step::DealerDraws => expectation(counts, hand, dealer, Draw::Dealer, 10),
        Step::PlayerChooses => better(
            value(counts, hand, dealer, true),
            expectation(counts, hand, dealer, Draw::Player, 10),
        ),
    }
}

/// The part of the expected value that comes from the classes below `upto`:
/// for each class of which the shoe holds a card, the chance of such a card
/// times the value that follows when it goes the way of `draw`. After the first
/// card of an undealt position, which goes to the dealer, the player gets a card.
pub open spec fn expectation(
    counts: Seq<nat>,
    hand: Seq<usize>,
    dealer: Seq<usize>,
    draw: Draw,
    upto: nat,
) -> real
    decreases card_total(counts), rank_of_draw(draw), upto,
    when counts.len() == 10 && upto <= 10
{
    if upto == 0 {
        0 as real
    } else {
        let card = (upto - 1) as usize;
        let rest = without_card(counts, card as int);
        expectation(counts, hand, dealer, draw, (upto - 1) as nat) + if counts[card as int] > 0 {
            proof {
                lemma_without_card_total(counts, card as int);
            }
            share(counts, card as int) * match draw {
                Draw::Player => value(rest, hand.push(card), dealer, false),
                Draw::Dealer => value(rest, hand, dealer.push(card), true),
                Draw::Opening => expectation(rest, hand, dealer.push(card), Draw::Player, 10),
            }
        } else {
            0 as real
        }
    }
}

/// The value of hitting: the expectation, over the next card, of the value of
/// the position with that card in the hand.
pub open spec fn hit_value(counts: Seq<nat>, hand: Seq<usize>, dealer: Seq<usize>) -> real {
    expectation(counts, hand, dealer, Draw::Player, 10)
}

/// The value of staying: the value of the same position with the stay flag set.
pub open spec fn stay_value(counts: Seq<nat>, hand: Seq<usize>, dealer: Seq<usize>) -> real {
    value(counts, hand, dealer, true)
}

/// The value of letting the dealer draw with the stay flag set.
pub open spec fn dealer_value(counts: Seq<nat>, hand: Seq<usize>, dealer: Seq<usize>) -> real {
    expectation(counts, hand, dealer, Draw::Dealer, 10)
}

/// The value of an opening: the expectation, over the dealer's card, of the
/// value of hitting after it.
pub open spec fn deck_value(counts: Seq<nat>, hand: Seq<usize>, dealer: Seq<usize>) -> real {
    expectation(counts, hand, dealer, Draw::Opening, 10)
}

impl OptimizedBlackJackGame {
    /// The exact value of this position.
    pub open spec fn spec_expected_value(&self) -> real {
        value(self.shoe()@, self.hand_cards(), self.dealer_cards(), self.stayed())
    }

    /// The exact value of hitting in this position.
    pub open spec fn spec_hit_expected_value(&self) -> real {
        hit_value(self.shoe()@, self.hand_cards(), self.dealer_cards())
    }

    /// The exact value of staying in this position.
    pub open spec fn spec_stay_expected_value(&self) -> real {
        stay_value(self.shoe()@, self.hand_cards(), self.dealer_cards())
    }

    /// The exact value of an opening deal out of the shoe of this position.
    pub open spec fn spec_deck_expected_value(&self) -> real {
        deck_value(self.shoe()@, self.hand_cards(), self.dealer_cards())
    }

    /// What the cards of class `card` add to the expectation over the next card:
    /// nothing where the shoe holds none, else their chance times the value that
    /// follows in `next`, the position after such a card.
    pub open spec fn spec_term(&self, draw: Draw, card: usize, next: Self) -> real {
        if self.shoe()@[card as int] == 0 {
            0 as real
        } else if draw == Draw::Opening {
            share(self.shoe()@, card as int) * next.spec_hit_expected_value()
        } else {
            share(self.shoe()@, card as int) * next.spec_expected_value()
        }
    }

    /// The value of a position follows from what `next_step` says of it: a
    /// settled position is worth its payoff, an undealt one the value of an
    /// opening, one where the dealer draws the expectation over the dealer's
    /// card, and one where the player chooses the better of staying and hitting.
    /// Whatever the case, the value lies between the loss of the wager and one
    /// and a half times the wager.
    pub proof fn lemma_value_by_step(&self)
        requires
            self.wf(),
        ensures
            self.spec_step() matches Step::Settled(payoff) ==> self.spec_expected_value()
                == payoff_value(payoff),
            self.spec_step() == Step::Undealt ==> self.spec_expected_value()
                == self.spec_deck_expected_value(),
            self.spec_step() == Step::DealerDraws ==> self.spec_expected_value() == dealer_value(
                self.shoe()@,
                self.hand_cards(),
                self.dealer_cards(),
            ),
            self.spec_step() == Step::PlayerChooses ==> self.spec_expected_value() == better(
                self.spec_stay_expected_value(),
                self.spec_hit_expected_value(),
            ),
            -(1 as real) <= self.spec_expected_value(),
            2 as real * self.spec_expected_value() <= 3 as real,
    {
        broadcast use crate::shoe::Shoe::lemma_view_len;

        lemma_value_range(self.shoe()@, self.hand_cards(), self.dealer_cards(), self.stayed());
    }

    /// The expectation over the next card, class by class: a class of which the
    /// shoe holds no card adds nothing, and any other adds the chance of its
    /// branch, its weight out of the cards of the shoe, times the value that
    /// follows on the branch.
    pub proof fn lemma_expectation_by_branch(&self, draw: Draw, card: usize, next: Self)
        requires
            self.wf(),
            card < 10,
            self.shoe()@[card as int] > 0 ==> self.spec_after(draw, card, next),
        ensures
            expectation(
                self.shoe()@,
                self.hand_cards(),
                self.dealer_cards(),
                draw,
                (card + 1) as nat,
            ) == expectation(self.shoe()@, self.hand_cards(), self.dealer_cards(), draw, card as nat)
                + self.spec_term(draw, card, next),
    {
        broadcast use crate::shoe::Shoe::lemma_view_len;

    }
}

/// No position is worth less than the loss of the wager, nor more than one
/// and a half times the wager.
pub proof fn lemma_value_range(counts: Seq<nat>, hand: Seq<usize>, dealer: Seq<usize>, stay: bool)
    requires
        counts.len() == 10,
    ensures
        -(1 as real) <= value(counts, hand, dealer, stay),
        2 as real * value(counts, hand, dealer, stay) <= 3 as real,
    decreases card_total(counts), rank_of_stay(stay), 11nat,
{
    match step_of(hand, dealer, stay) {
        Step::Settled(payoff) => {},
        Step::Undealt => {
            lemma_expectation_range(counts, hand, dealer, Draw::Opening, 10);
        },
        Step::DealerDraws => {
            lemma_expectation_range(counts, hand, dealer, Draw::Dealer, 10);
        },
        Step::PlayerChooses => {
            lemma_value_range(counts, hand, dealer, true);
            lemma_expectation_range(counts, hand, dealer, Draw::Player, 10);
        },
    }
}

/// The part of an expectation that comes from the classes below `upto` lies
/// between a loss and a blackjack, each taken with the chance of those classes.
pub proof fn lemma_expectation_range(
    counts: Seq<nat>,
    hand: Seq<usize>,
    dealer: Seq<usize>,
    draw: Draw,
    upto: nat,
)
    requires
        counts.len() == 10,
        upto <= 10,
    ensures
        -(1 as real) <= expectation(counts, hand, dealer, draw, upto),
        2 as real * expectation(counts, hand, dealer, draw, upto) <= 3 as real,
        card_total(counts) == 0 ==> expectation(counts, hand, dealer, draw, upto) == 0 as real,
        card_total(counts) > 0 ==> -share_sum(counts, upto) <= expectation(
            counts,
            hand,
            dealer,
            draw,
            upto,
        ),
        card_total(counts) > 0 ==> 2 as real * expectation(counts, hand, dealer, draw, upto)
            <= 3 as real * share_sum(counts, upto),
    decreases card_total(counts), rank_of_draw(draw), upto,
{
    if upto > 0 {
        let card = (upto - 1) as usize;
        let rest = without_card(counts, card as int);
        lemma_expectation_range(counts, hand, dealer, draw, (upto - 1) as nat);
        lemma_count_at_most_total(counts, card as int);
        if counts[card as int] > 0 {
            lemma_without_card_total(counts, card as int);
            let after = match draw {
                Draw::Player => value(rest, hand.push(card), dealer, false),
                Draw::Dealer => value(rest, hand, dealer.push(card), true),
                Draw::Opening => expectation(rest, hand, dealer.push(card), Draw::Player, 10),
            };
            match draw {
                Draw::Player => lemma_value_range(rest, hand.push(card), dealer, false),
                Draw::Dealer => lemma_value_range(rest, hand, dealer.push(card), true),
                Draw::Opening => lemma_expectation_range(
                    rest,
                    hand,
                    dealer.push(card),
                    Draw::Player,
                    10,
                ),
            }
            let chance = share(counts, card as int);
            let copies = counts[card as int] as real;
            let n = card_total(counts) as real;
            assert(chance >= 0 as real) by (nonlinear_arith)
                requires
                    chance == copies / n,
                    copies >= 0 as real,
                    n > 0 as real,
            ;
            assert(-chance <= chance * after && 2 as real * (chance * after) <= 3 as real * chance)
                by (nonlinear_arith)
                requires
                    chance >= 0 as real,
                    -(1 as real) <= after,
                    2 as real * after <= 3 as real,
            ;
        } else if card_total(counts) > 0 {
            assert(share(counts, card as int) == 0 as real) by (nonlinear_arith)
                requires
                    share(counts, card as int) == 0 as real / card_total(counts) as real,
                    card_total(counts) as real > 0 as real,
            ;
        }
    }
    if card_total(counts) > 0 {
        lemma_share_sum_bounds(counts, upto);
    }
}

/// Against a dealer's blackjack a blackjack is worth exactly nothing, and any
/// other hand exactly the loss of the wager.
pub proof fn lemma_dealer_blackjack_value(
    counts: Seq<nat>,
    hand: Seq<usize>,
    dealer: Seq<usize>,
    stay: bool,
)
    requires
        counts.len() == 10,
        is_blackjack(dealer),
    ensures
        is_blackjack(hand) ==> value(counts, hand, dealer, stay) == 0 as real,
        !is_blackjack(hand) ==> value(counts, hand, dealer, stay) == -(1 as real),
{
}

/// A bust hand is worth exactly the loss of the wager, whatever the dealer
/// holds or would still draw.
pub proof fn lemma_bust_hand_value(
    counts: Seq<nat>,
    hand: Seq<usize>,
    dealer: Seq<usize>,
    stay: bool,
)
    requires
        counts.len() == 10,
        is_bust(hand),
    ensures
        value(counts, hand, dealer, stay) == -(1 as real),
{
    crate::opt_bj_game::lemma_bust_hand_loses(hand, dealer, stay);
}

/// Two positions that hold the same cards, in whatever order, have the same
/// value.
pub proof fn lemma_value_ignores_order(
    counts: Seq<nat>,
    hand: Seq<usize>,
    dealer: Seq<usize>,
    other_hand: Seq<usize>,
    other_dealer: Seq<usize>,
    stay: bool,
)
    requires
        counts.len() == 10,
        valid_cards(hand),
        valid_cards(dealer),
        valid_cards(other_hand),
        valid_cards(other_dealer),
        hand.to_multiset() == other_hand.to_multiset(),
        dealer.to_multiset() == other_dealer.to_multiset(),
    ensures
        value(counts, hand, dealer, stay) == value(counts, other_hand, other_dealer, stay),
    decreases card_total(counts), rank_of_stay(stay), 11nat,
{
    crate::opt_bj_game::lemma_step_ignores_order(
        counts,
        hand,
        dealer,
        other_hand,
        other_dealer,
        stay,
    );
    match step_of(hand, dealer, stay) {
        Step::Settled(payoff) => {},
        Step::Undealt => {
            lemma_expectation_ignores_order(
                counts,
                hand,
                dealer,
                other_hand,
                other_dealer,
                Draw::Opening,
                10,
            );
        },
        Step::DealerDraws => {
            lemma_expectation_ignores_order(
                counts,
                hand,
                dealer,
                other_hand,
                other_dealer,
                Draw::Dealer,
                10,
            );
        },
        Step::PlayerChooses => {
            lemma_value_ignores_order(counts, hand, dealer, other_hand, other_dealer, true);
            lemma_expectation_ignores_order(
                counts,
                hand,
                dealer,
                other_hand,
                other_dealer,
                Draw::Player,
                10,
            );
        },
    }
}

/// The expectation over the next card is the same for two positions that hold
/// the same cards.
pub proof fn lemma_expectation_ignores_order(
    counts: Seq<nat>,
    hand: Seq<usize>,
    dealer: Seq<usize>,
    other_hand: Seq<usize>,
    other_dealer: Seq<usize>,
    draw: Draw,
    upto: nat,
)
    requires
        counts.len() == 10,
        upto <= 10,
        valid_cards(hand),
        valid_cards(dealer),
        valid_cards(other_hand),
        valid_cards(other_dealer),
        hand.to_multiset() == other_hand.to_multiset(),
        dealer.to_multiset() == other_dealer.to_multiset(),
    ensures
        expectation(counts, hand, dealer, draw, upto) == expectation(
            counts,
            other_hand,
            other_dealer,
            draw,
            upto,
        ),
    decreases card_total(counts), rank_of_draw(draw), upto,
{
    if upto > 0 {
        let card = (upto - 1) as usize;
        let rest = without_card(counts, card as int);
        lemma_expectation_ignores_order(
            counts,
            hand,
            dealer,
            other_hand,
            other_dealer,
            draw,
            (upto - 1) as nat,
        );
        if counts[card as int] > 0 {
            lemma_without_card_total(counts, card as int);
            crate::opt_bj_game::lemma_same_cards_after_draw(hand, other_hand, card);
            crate::opt_bj_game::lemma_same_cards_after_draw(dealer, other_dealer, card);
            match draw {
                Draw::Player => lemma_value_ignores_order(
                    rest,
                    hand.push(card),
                    dealer,
                    other_hand.push(card),
                    other_dealer,
                    false,
                ),
                Draw::Dealer => lemma_value_ignores_order(
                    rest,
                    hand,
                    dealer.push(card),
                    other_hand,
                    other_dealer.push(card),
                    true,
                ),
                Draw::Opening => lemma_expectation_ignores_order(
                    rest,
                    hand,
                    dealer.push(card),
                    other_hand,
                    other_dealer.push(card),
                    Draw::Player,
                    10,
                ),
            }
        }
    }
}

} // verus!
