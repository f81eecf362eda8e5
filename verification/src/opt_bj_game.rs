//! A blackjack position over scoring classes, its transitions, and the rules by
//! which a position is settled or branches.

use crate::hand::{hand_total, hand_value, is_blackjack, is_bust, valid_cards};
use crate::key::{as_nats, key_text, render_key};
use crate::shoe::{card_total, standard_counts, without_card, Shoe};
use vstd::prelude::*;

verus! {

/// What a settled position pays for one unit wagered.
#[derive(Clone, Copy, Debug, PartialEq, Eq, Structural)]
pub enum Payoff {
    /// The wager is lost.
    Loss,
    /// The wager comes back.
    Push,
    /// The wager is won at even money.
    Win,
    /// The wager is won at three to two.
    Blackjack,
}

impl Payoff {
    /// The payoff in half units of the wager.
    pub open spec fn spec_halves(self) -> int {
        match self {
            Payoff::Loss => -2,
            Payoff::Push => 0,
            Payoff::Win => 2,
            Payoff::Blackjack => 3,
        }
    }

    /// The payoff in half units of the wager: -2 for a loss, 0 for a push, 2 for
    /// a win and 3 for a blackjack.
    pub fn halves(self) -> (h: i8)
        ensures
            h == self.spec_halves(),
            -2 <= h <= 3,
    {
        match self {
            Payoff::Loss => -2,
            Payoff::Push => 0,
            Payoff::Win => 2,
            Payoff::Blackjack => 3,
        }
    }
}

/// What the rules say of a position.
#[derive(Clone, Copy, Debug, PartialEq, Eq, Structural)]
pub enum Step {
    /// No card has been dealt: the value is the average over the first cards.
    Undealt,
    /// The position is over and pays this.
    Settled(Payoff),
    /// The player has stayed and the dealer must draw: the value is the average
    /// over the dealer's next card.
    DealerDraws,
    /// The player may stay or hit: the value is the better of the two.
    PlayerChooses,
}

/// The rules, first match first: an undealt position; a dealer's blackjack; a
/// bust hand; a bust dealer; and then, by the stay flag, the showdown or the
/// player's choice.
pub open spec fn step_of(hand: Seq<usize>, dealer: Seq<usize>, stay: bool) -> Step {
    if hand.len() == 0 && dealer.len() == 0 {
        Step::Undealt
    } else if is_blackjack(dealer) {
        if is_blackjack(hand) {
            Step::Settled(Payoff::Push)
        } else {
            Step::Settled(Payoff::Loss)
        }
    } else if is_bust(hand) {
        Step::Settled(Payoff::Loss)
    } else if is_bust(dealer) {
        if is_blackjack(hand) {
            Step::Settled(Payoff::Blackjack)
        } else {
            Step::Settled(Payoff::Win)
        }
    } else if !stay {
        Step::PlayerChooses
    } else if is_blackjack(hand) {
        Step::Settled(Payoff::Blackjack)
    } else if hand_total(dealer) > hand_total(hand) {
        Step::Settled(Payoff::Loss)
    } else if hand_total(dealer) < 17 {
        Step::DealerDraws
    } else if hand_total(dealer) == hand_total(hand) {
        Step::Settled(Payoff::Push)
    } else {
        Step::Settled(Payoff::Win)
    }
}

/// Whether a card of class `card` can leave a shoe of these counts.
pub open spec fn can_draw(counts: Seq<nat>, card: usize) -> bool {
    card < 10 && counts[card as int] > 0
}

/// Who gets the card of a branch.
#[derive(Clone, Copy, Debug, PartialEq, Eq, Structural)]
pub enum Draw {
    /// The player hits.
    Player,
    /// The dealer draws after the player has stayed.
    Dealer,
    /// The dealer gets the first card of an undealt position.
    Opening,
}

/// One way a position goes on: a card of one class leaves the shoe.
pub struct Branch {
    /// The class of the card.
    pub card: usize,
    /// How many cards of that class the shoe held.
    pub weight: usize,
    /// How many cards the shoe held: the branch has the chance `weight / out_of`.
    pub out_of: usize,
    /// The position after the card.
    pub next: OptimizedBlackJackGame,
}

/// A position: the player's cards, the dealer's cards, whether the player has
/// stayed, and the shoe that the next card comes from.
#[derive(Debug)]
pub struct OptimizedBlackJackGame {
    hand: Vec<usize>,
    dealer: Vec<usize>,
    stay: bool,
    deck: Shoe,
}

/// A copy of the cards.
fn copy_cards(cards: &Vec<usize>) -> (copy: Vec<usize>)
    ensures
        copy@ == cards@,
{
    let mut copy: Vec<usize> = Vec::new();
    let mut i: usize = 0;
    while i < cards.len()
        invariant
            i <= cards@.len(),
            copy@ == cards@.take(i as int),
        decreases cards@.len() - i,
    {
        copy.push(cards[i]);
        proof {
            assert(copy@ =~= cards@.take(i as int + 1));
        }
        i = i + 1;
    }
    proof {
        assert(cards@.take(i as int) =~= cards@);
    }
    copy
}

/// Whether every card names a scoring class.
fn all_valid(cards: &Vec<usize>) -> (ok: bool)
    ensures
        ok == valid_cards(cards@),
{
    let mut i: usize = 0;
    while i < cards.len()
        invariant
            i <= cards@.len(),
            forall|j: int| 0 <= j < i ==> #[trigger] cards@[j] < 10,
        decreases cards@.len() - i,
    {
        if cards[i] >= 10 {
            return false;
        }
        i = i + 1;
    }
    true
}

/// What the rules say of the position with these cards and this stay flag.
pub fn step(hand: &Vec<usize>, dealer: &Vec<usize>, stay: bool) -> (step: Step)
    requires
        valid_cards(hand@),
        valid_cards(dealer@),
        10 * hand@.len() + 10 <= usize::MAX,
        10 * dealer@.len() + 10 <= usize::MAX,
    ensures
        step == step_of(hand@, dealer@, stay),
        step matches Step::Settled(payoff) ==> -2 <= payoff.spec_halves() <= 3,
{
    if hand.len() == 0 && dealer.len() == 0 {
        return Step::Undealt;
    }
    let own: usize = hand_value(hand);
    let house: usize = hand_value(dealer);
    let own_blackjack = own == 21 && hand.len() == 2;
    let house_blackjack = house == 21 && dealer.len() == 2;
    if house_blackjack {
        if own_blackjack {
            return Step::Settled(Payoff::Push);
        }
        return Step::Settled(Payoff::Loss);
    }
    if own > 21 {
        return Step::Settled(Payoff::Loss);
    }
    if house > 21 {
        if own_blackjack {
            return Step::Settled(Payoff::Blackjack);
        }
        return Step::Settled(Payoff::Win);
    }
    if !stay {
        return Step::PlayerChooses;
    }
    if own_blackjack {
        return Step::Settled(Payoff::Blackjack);
    }
    if house > own {
        return Step::Settled(Payoff::Loss);
    }
    if house > 16 {
        if house == own {
            Step::Settled(Payoff::Push)
        } else {
            Step::Settled(Payoff::Win)
        }
    } else {
        Step::DealerDraws
    }
}

impl OptimizedBlackJackGame {
    /// The player's cards, in the order in which they came.
    pub closed spec fn hand_cards(&self) -> Seq<usize> {
        self.hand@
    }

    /// The dealer's cards, in the order in which they came.
    pub closed spec fn dealer_cards(&self) -> Seq<usize> {
        self.dealer@
    }

    /// Whether the player has stayed.
    pub closed spec fn stayed(&self) -> bool {
        self.stay
    }

    /// The shoe.
    pub closed spec fn shoe(&self) -> Shoe {
        self.deck
    }

    /// Number of cards in the position, dealt or not.
    pub open spec fn cards_in_play(&self) -> nat {
        self.hand_cards().len() + self.dealer_cards().len() + card_total(self.shoe()@)
    }

    /// Every card names a scoring class, the shoe is consistent, and ten points
    /// for each card of the position fit in a `usize`.
    pub open spec fn wf(&self) -> bool {
        &&& self.shoe().wf()
        &&& valid_cards(self.hand_cards())
        &&& valid_cards(self.dealer_cards())
        &&& 10 * self.cards_in_play() + 10 <= usize::MAX
    }

    /// What the rules say of this position.
    pub open spec fn spec_step(&self) -> Step {
        step_of(self.hand_cards(), self.dealer_cards(), self.stayed())
    }

    /// The text under which the value of this position is remembered.
    pub open spec fn spec_key(&self) -> Seq<char> {
        key_text(self.shoe()@, self.hand_cards(), self.dealer_cards(), self.stayed())
    }

    /// A position with no cards at all.
    pub fn new_empty() -> (game: Self)
        ensures
            game.wf(),
            game.hand_cards().len() == 0,
            game.dealer_cards().len() == 0,
            !game.stayed(),
            card_total(game.shoe()@) == 0,
            game.shoe()@ == Seq::new(10, |b: int| 0nat),
    {
        Self { hand: Vec::new(), dealer: Vec::new(), stay: false, deck: Shoe::new_empty() }
    }

    /// An undealt position over a shoe of `num_decks` standard decks.
    pub fn new_standard(num_decks: usize) -> (game: Self)
        requires
            520 * num_decks + 10 <= usize::MAX,
        ensures
            game.wf(),
            game.hand_cards().len() == 0,
            game.dealer_cards().len() == 0,
            !game.stayed(),
            game.shoe()@ == standard_counts(num_decks as nat),
            card_total(game.shoe()@) == 52 * num_decks,
    {
        Self {
            hand: Vec::new(),
            dealer: Vec::new(),
            stay: false,
            deck: Shoe::new_standard(num_decks),
        }
    }

    /// The position with these parts, unless a card names no scoring class or
    /// the position holds more cards than can be scored in a `usize`.
    pub fn from_parts(
        hand: Vec<usize>,
        dealer: Vec<usize>,
        stay: bool,
        deck: Shoe,
    ) -> (made: Option<Self>)
        requires
            deck.wf(),
        ensures
            made.is_some() <==> valid_cards(hand@) && valid_cards(dealer@) && 10 * (hand@.len()
                + dealer@.len() + card_total(deck@)) + 10 <= usize::MAX,
            made.is_some() ==> made.unwrap().wf(),
            made.is_some() ==> made.unwrap().hand_cards() == hand@,
            made.is_some() ==> made.unwrap().dealer_cards() == dealer@,
            made.is_some() ==> made.unwrap().stayed() == stay,
            made.is_some() ==> made.unwrap().shoe() == deck,
    {
        let cap: usize = (usize::MAX - 10) / 10;
        if !all_valid(&hand) || !all_valid(&dealer) {
            return None;
        }
        if hand.len() > cap {
            return None;
        }
        let room: usize = cap - hand.len();
        if dealer.len() > room {
            return None;
        }
        if deck.total() > room - dealer.len() {
            return None;
        }
        Some(Self { hand, dealer, stay, deck })
    }

    /// The player's cards.
    pub fn hand(&self) -> (cards: &Vec<usize>)
        ensures
            cards@ == self.hand_cards(),
    {
        &self.hand
    }

    /// The dealer's cards.
    pub fn dealer(&self) -> (cards: &Vec<usize>)
        ensures
            cards@ == self.dealer_cards(),
    {
        &self.dealer
    }

    /// Whether the player has stayed.
    pub fn has_stayed(&self) -> (stay: bool)
        ensures
            stay == self.stayed(),
    {
        self.stay
    }

    /// The shoe.
    pub fn deck(&self) -> (deck: Shoe)
        ensures
            deck == self.shoe(),
    {
        self.deck
    }

    /// The text under which the value of this position is remembered.
    pub fn unique_key(&self) -> (key: String)
        requires
            self.wf(),
        ensures
            key@ == self.spec_key(),
    {
        let mut counts: Vec<usize> = Vec::new();
        let mut class: usize = 0;
        while class < 10
            invariant
                class <= 10,
                counts@.len() == class,
                forall|b: int| 0 <= b < class ==> counts@[b] == self.deck@[b],
            decreases 10 - class,
        {
            counts.push(self.deck.count(class));
            class = class + 1;
        }
        proof {
            broadcast use Shoe::lemma_view_len;

            assert(as_nats(counts@) =~= self.deck@);
        }
        render_key(self.deck.total(), &counts, &self.hand, &self.dealer, self.stay)
    }

    /// The opening deal: `first` and `second` go to the player, `upcard` to the
    /// dealer, one after the other out of the shoe.
    pub fn deal(&self, first: usize, second: usize, upcard: usize) -> (game: Self)
        requires
            self.wf(),
            self.hand_cards().len() == 0,
            self.dealer_cards().len() == 0,
            can_draw(self.shoe()@, first),
            can_draw(without_card(self.shoe()@, first as int), second),
            can_draw(
                without_card(without_card(self.shoe()@, first as int), second as int),
                upcard,
            ),
        ensures
            game.wf(),
            game.hand_cards() == seq![first, second],
            game.dealer_cards() == seq![upcard],
            !game.stayed(),
            game.shoe()@ == without_card(
                without_card(without_card(self.shoe()@, first as int), second as int),
                upcard as int,
            ),
            card_total(game.shoe()@) + 3 == card_total(self.shoe()@),
    {
        let mut hand: Vec<usize> = Vec::new();
        let mut dealer: Vec<usize> = Vec::new();
        let after_first = self.deck.draw(first);
        hand.push(first);
        let after_second = after_first.draw(second);
        hand.push(second);
        let after_upcard = after_second.draw(upcard);
        dealer.push(upcard);
        proof {
            assert(hand@ =~= seq![first, second]);
            assert(dealer@ =~= seq![upcard]);
        }
        Self { hand, dealer, stay: false, deck: after_upcard }
    }

    /// The player takes the card `card` out of the shoe.
    pub fn hit(&self, card: usize) -> (game: Self)
        requires
            self.wf(),
            can_draw(self.shoe()@, card),
        ensures
            game.wf(),
            game.hand_cards() == self.hand_cards().push(card),
            game.dealer_cards() == self.dealer_cards(),
            !game.stayed(),
            game.shoe()@ == without_card(self.shoe()@, card as int),
            card_total(game.shoe()@) + 1 == card_total(self.shoe()@),
    {
        let mut hand = copy_cards(&self.hand);
        let dealer = copy_cards(&self.dealer);
        let deck = self.deck.draw(card);
        hand.push(card);
        Self { hand, dealer, stay: false, deck }
    }

    /// The dealer takes the card `card` out of the shoe.
    pub fn dealer_hit(&self, card: usize) -> (game: Self)
        requires
            self.wf(),
            can_draw(self.shoe()@, card),
        ensures
            game.wf(),
            game.hand_cards() == self.hand_cards(),
            game.dealer_cards() == self.dealer_cards().push(card),
            !game.stayed(),
            game.shoe()@ == without_card(self.shoe()@, card as int),
            card_total(game.shoe()@) + 1 == card_total(self.shoe()@),
    {
        let hand = copy_cards(&self.hand);
        let mut dealer = copy_cards(&self.dealer);
        let deck = self.deck.draw(card);
        dealer.push(card);
        Self { hand, dealer, stay: false, deck }
    }

    /// The player stays.
    pub fn stay(&self) -> (game: Self)
        ensures
            game.hand_cards() == self.hand_cards(),
            game.dealer_cards() == self.dealer_cards(),
            game.stayed(),
            game.shoe() == self.shoe(),
            self.wf() ==> game.wf(),
    {
        Self {
            hand: copy_cards(&self.hand),
            dealer: copy_cards(&self.dealer),
            stay: true,
            deck: self.deck,
        }
    }

    /// The value of the player's hand.
    pub fn get_hand_value(&self) -> (value: usize)
        requires
            self.wf(),
        ensures
            value == hand_total(self.hand_cards()),
    {
        hand_value(&self.hand)
    }

    /// The value of the dealer's cards.
    pub fn get_dealer_value(&self) -> (value: usize)
        requires
            self.wf(),
        ensures
            value == hand_total(self.dealer_cards()),
    {
        hand_value(&self.dealer)
    }

    /// Whether the player's hand is worth more than 21.
    pub fn is_hand_bust(&self) -> (bust: bool)
        requires
            self.wf(),
        ensures
            bust == is_bust(self.hand_cards()),
    {
        self.get_hand_value() > 21
    }

    /// Whether the dealer's cards are worth more than 21.
    pub fn is_dealer_bust(&self) -> (bust: bool)
        requires
            self.wf(),
        ensures
            bust == is_bust(self.dealer_cards()),
    {
        self.get_dealer_value() > 21
    }

    /// Whether the player holds 21 in two cards.
    pub fn is_hand_blackjack(&self) -> (blackjack: bool)
        requires
            self.wf(),
        ensures
            blackjack == is_blackjack(self.hand_cards()),
    {
        self.get_hand_value() == 21 && self.hand.len() == 2
    }

    /// Whether the dealer holds 21 in two cards.
    pub fn is_dealer_blackjack(&self) -> (blackjack: bool)
        requires
            self.wf(),
        ensures
            blackjack == is_blackjack(self.dealer_cards()),
    {
        self.get_dealer_value() == 21 && self.dealer.len() == 2
    }

    /// What the rules say of this position: what it pays, or how its value
    /// comes from the positions that follow it.
    pub fn next_step(&self) -> (step: Step)
        requires
            self.wf(),
        ensures
            step == self.spec_step(),
            step matches Step::Settled(payoff) ==> -2 <= payoff.spec_halves() <= 3,
    {
        step(&self.hand, &self.dealer, self.stay)
    }

    /// The position after a card of class `card` has gone the way of `draw`.
    pub open spec fn spec_after(&self, draw: Draw, card: usize, next: Self) -> bool {
        &&& next.shoe()@ == without_card(self.shoe()@, card as int)
        &&& next.hand_cards() == if draw == Draw::Player {
            self.hand_cards().push(card)
        } else {
            self.hand_cards()
        }
        &&& next.dealer_cards() == if draw == Draw::Player {
            self.dealer_cards()
        } else {
            self.dealer_cards().push(card)
        }
        &&& next.stayed() == (draw == Draw::Dealer)
    }

    /// What the branch of a card of class `card` holds: the card, how many such
    /// cards the shoe holds out of how many, and the position after the card.
    pub open spec fn spec_branch(&self, draw: Draw, card: usize, branch: Branch) -> bool {
        &&& branch.card == card
        &&& branch.weight == self.shoe()@[card as int]
        &&& branch.out_of == card_total(self.shoe()@)
        &&& branch.next.wf()
        &&& self.spec_after(draw, card, branch.next)
    }

    /// The branch on which a card of class `card` goes the way of `draw`, where
    /// the shoe holds such a card.
    pub fn branch(&self, draw: Draw, card: usize) -> (branch: Option<Branch>)
        requires
            self.wf(),
            card < 10,
        ensures
            branch.is_some() <==> self.shoe()@[card as int] > 0,
            branch.is_some() ==> self.spec_branch(draw, card, branch.unwrap()),
    {
        let weight: usize = self.deck.count(card);
        if weight == 0 {
            return None;
        }
        let out_of: usize = self.deck.total();
        let next = match draw {
            Draw::Player => self.hit(card),
            Draw::Dealer => self.dealer_hit(card).stay(),
            Draw::Opening => self.dealer_hit(card),
        };
        Some(Branch { card, weight, out_of, next })
    }

    /// The ways this position goes on when a card goes the way of `draw`: one
    /// entry for each class, lowest first, empty where the shoe holds no card of
    /// the class. The weights add up to the number of cards in the shoe.
    pub fn branches(&self, draw: Draw) -> (all: Vec<Option<Branch>>)
        requires
            self.wf(),
        ensures
            all@.len() == 10,
            forall|c: int|
                0 <= c < 10 ==> ((#[trigger] all@[c]).is_some() <==> self.shoe()@[c] > 0),
            forall|c: int|
                0 <= c < 10 && (#[trigger] all@[c]).is_some() ==> self.spec_branch(
                    draw,
                    c as usize,
                    all@[c].unwrap(),
                ),
    {
        let mut all: Vec<Option<Branch>> = Vec::new();
        let mut card: usize = 0;
        while card < 10
            invariant
                card <= 10,
                self.wf(),
                all@.len() == card,
                forall|c: int|
                    0 <= c < card ==> ((#[trigger] all@[c]).is_some() <==> self.shoe()@[c] > 0),
                forall|c: int|
                    0 <= c < card && (#[trigger] all@[c]).is_some() ==> self.spec_branch(
                        draw,
                        c as usize,
                        all@[c].unwrap(),
                    ),
            decreases 10 - card,
        {
            let one = self.branch(draw, card);
            all.push(one);
            card = card + 1;
        }
        all
    }
}

/// A dealer's blackjack settles the position at once: a push against a
/// blackjack of the player, a loss against any other hand.
pub proof fn lemma_dealer_blackjack_settles(hand: Seq<usize>, dealer: Seq<usize>, stay: bool)
    requires
        is_blackjack(dealer),
    ensures
        is_blackjack(hand) ==> step_of(hand, dealer, stay) == Step::Settled(Payoff::Push),
        !is_blackjack(hand) ==> step_of(hand, dealer, stay) == Step::Settled(Payoff::Loss),
{
}

/// A bust hand loses, whatever the dealer holds and whether or not the player
/// has stayed.
pub proof fn lemma_bust_hand_loses(hand: Seq<usize>, dealer: Seq<usize>, stay: bool)
    requires
        is_bust(hand),
    ensures
        step_of(hand, dealer, stay) == Step::Settled(Payoff::Loss),
{
    assert(hand.len() > 0) by {
        reveal_with_fuel(crate::hand::pip_sum, 1);
    }
}

/// What the rules say of a position does not depend on the order of the cards
/// in the hand or with the dealer, and neither does its key.
pub proof fn lemma_step_ignores_order(
    counts: Seq<nat>,
    hand: Seq<usize>,
    dealer: Seq<usize>,
    other_hand: Seq<usize>,
    other_dealer: Seq<usize>,
    stay: bool,
)
    requires
        valid_cards(hand),
        valid_cards(dealer),
        valid_cards(other_hand),
        valid_cards(other_dealer),
        hand.to_multiset() == other_hand.to_multiset(),
        dealer.to_multiset() == other_dealer.to_multiset(),
    ensures
        step_of(hand, dealer, stay) == step_of(other_hand, other_dealer, stay),
        key_text(counts, hand, dealer, stay) == key_text(counts, other_hand, other_dealer, stay),
{
    crate::hand::lemma_hand_total_ignores_order(hand, other_hand);
    crate::hand::lemma_hand_total_ignores_order(dealer, other_dealer);
}

/// Two hands of the same cards still hold the same cards after each has taken
/// one more card of the same class.
pub proof fn lemma_same_cards_after_draw(cards: Seq<usize>, other: Seq<usize>, card: usize)
    requires
        cards.to_multiset() == other.to_multiset(),
    ensures
        cards.push(card).to_multiset() == other.push(card).to_multiset(),
{
    vstd::seq_lib::to_multiset_build(cards, card);
    vstd::seq_lib::to_multiset_build(other, card);
}

} // verus!
