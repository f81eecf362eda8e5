use blackjack_rs::opt_bj_game::{Draw, OptimizedBlackJackGame, Step};
use blackjack_rs::shoe::Shoe;

fn mean(position: &OptimizedBlackJackGame, draw: Draw, after: fn(&OptimizedBlackJackGame) -> f64) -> f64 {
    let mut sum = 0.0f64;
    for branch in position.branches(draw).iter().flatten() {
        sum += branch.weight as f64 / branch.out_of as f64 * after(&branch.next);
    }
    sum
}

fn hit_value(position: &OptimizedBlackJackGame) -> f64 {
    mean(position, Draw::Player, value)
}

fn value(position: &OptimizedBlackJackGame) -> f64 {
    match position.next_step() {
        Step::Undealt => mean(position, Draw::Opening, hit_value),
        Step::Settled(payoff) => f64::from(payoff.halves()) / 2.0,
        Step::DealerDraws => mean(position, Draw::Dealer, value),
        Step::PlayerChooses => f64::max(value(&position.stay()), hit_value(position)),
    }
}

fn over(counts: [usize; 10], hand: &[usize], dealer: &[usize], stay: bool) -> OptimizedBlackJackGame {
    OptimizedBlackJackGame::from_parts(
        hand.to_vec(),
        dealer.to_vec(),
        stay,
        Shoe::from_counts(counts).unwrap(),
    )
    .unwrap()
}

#[test]
fn settled_positions_are_worth_their_payoff() {
    let none = [0; 10];
    assert_eq!(value(&over(none, &[0, 9], &[9, 0], false)), 0.0);
    assert_eq!(value(&over(none, &[9, 9], &[9, 0], false)), -1.0);
    assert_eq!(value(&over(none, &[9, 9, 4], &[9, 8, 7], true)), -1.0);
    assert_eq!(value(&over(none, &[0, 9], &[9, 5, 8], true)), 1.5);
    assert_eq!(value(&over(none, &[9, 7], &[9, 5, 8], true)), 1.0);
}

#[test]
fn dealer_draws_the_only_card() {
    // the dealer's ten makes twenty against twenty
    let game = over([0, 0, 0, 0, 0, 0, 0, 0, 0, 1], &[9, 9], &[9], true);
    assert_eq!(value(&game), 0.0);
    // the dealer's nine makes nineteen against twenty
    let game = over([0, 0, 0, 0, 0, 0, 0, 0, 1, 0], &[9, 9], &[9], true);
    assert_eq!(value(&game), 1.0);
}

#[test]
fn dealer_draws_one_of_two_cards() {
    // an ace gives the dealer a blackjack; a six makes sixteen, and the ace
    // after it seventeen against twenty
    let game = over([1, 0, 0, 0, 0, 1, 0, 0, 0, 0], &[9, 9], &[9], true);
    assert_eq!(value(&game), 0.0);
    // three tens and a five: twenty pushes, fifteen then busts on a ten
    let game = over([0, 0, 0, 0, 1, 0, 0, 0, 0, 3], &[9, 9], &[9], true);
    assert_eq!(value(&game), 0.25);
}

#[test]
fn player_takes_the_better_of_stay_and_hit() {
    // twelve against a ten over two nines: staying loses to nineteen, hitting
    // makes twenty-one and then wins against nineteen
    let game = over([0, 0, 0, 0, 0, 0, 0, 0, 2, 0], &[9, 1], &[9], false);
    assert_eq!(value(&game.stay()), -1.0);
    assert_eq!(hit_value(&game), 1.0);
    assert_eq!(value(&game), 1.0);
    // twenty against a ten over two tens: staying pushes, hitting busts
    let game = over([0, 0, 0, 0, 0, 0, 0, 0, 0, 2], &[9, 9], &[9], false);
    assert_eq!(value(&game.stay()), 0.0);
    assert_eq!(hit_value(&game), -1.0);
    assert_eq!(value(&game), 0.0);
}

#[test]
fn empty_shoe_leaves_nothing_to_draw() {
    let none = [0; 10];
    assert_eq!(value(&over(none, &[9, 5], &[4], true)), 0.0);
    assert_eq!(value(&over(none, &[9, 5], &[4], false)), 0.0);
    assert_eq!(value(&over(none, &[], &[], false)), 0.0);
}

#[test]
fn undealt_shoe_of_three_tens() {
    let game = over([0, 0, 0, 0, 0, 0, 0, 0, 0, 3], &[], &[], false);
    assert_eq!(game.next_step(), Step::Undealt);
    assert_eq!(value(&game), 0.0);
}

#[test]
fn values_lie_between_a_loss_and_a_blackjack() {
    let shoes = [
        [1, 1, 1, 1, 1, 1, 1, 1, 1, 1],
        [2, 0, 0, 0, 0, 1, 0, 0, 0, 3],
        [0, 3, 0, 0, 2, 0, 0, 0, 0, 1],
        [1, 0, 0, 0, 0, 0, 0, 0, 0, 4],
    ];
    let hands: [&[usize]; 5] = [&[9, 5], &[0, 9], &[0, 0], &[4, 4, 4], &[9, 9, 1]];
    let dealers: [&[usize]; 4] = [&[9], &[0], &[5, 9], &[9, 0]];
    for counts in shoes {
        for hand in hands {
            for dealer in dealers {
                for stay in [false, true] {
                    let v = value(&over(counts, hand, dealer, stay));
                    assert!(-1.0 <= v && v <= 1.5);
                }
            }
        }
        let v = value(&over(counts, &[], &[], false));
        assert!(-1.0 <= v && v <= 1.5);
    }
}

#[test]
fn value_ignores_the_order_of_the_cards() {
    let counts = [2, 1, 0, 1, 0, 1, 0, 0, 1, 3];
    for stay in [false, true] {
        let one = value(&over(counts, &[0, 4, 2], &[1, 9], stay));
        let other = value(&over(counts, &[2, 0, 4], &[9, 1], stay));
        assert_eq!(one.to_bits(), other.to_bits());
    }
}
