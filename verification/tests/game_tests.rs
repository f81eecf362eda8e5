use blackjack_rs::opt_bj_game::{step, Draw, OptimizedBlackJackGame, Payoff, Step};
use blackjack_rs::shoe::Shoe;

fn position(hand: &[usize], dealer: &[usize], stay: bool) -> OptimizedBlackJackGame {
    OptimizedBlackJackGame::from_parts(hand.to_vec(), dealer.to_vec(), stay, Shoe::new_standard(1))
        .unwrap()
}

#[test]
fn empty_game_holds_nothing() {
    let game = OptimizedBlackJackGame::new_empty();
    assert!(game.hand().is_empty());
    assert!(game.dealer().is_empty());
    assert!(!game.has_stayed());
    assert_eq!(game.deck().total(), 0);
    assert_eq!(game.get_hand_value(), 0);
    assert_eq!(game.get_dealer_value(), 0);
}

#[test]
fn standard_game_is_undealt() {
    let game = OptimizedBlackJackGame::new_standard(1);
    assert!(game.hand().is_empty());
    assert!(game.dealer().is_empty());
    assert!(!game.has_stayed());
    assert_eq!(game.deck().total(), 52);
    assert_eq!(game.next_step(), Step::Undealt);
}

#[test]
fn deal_leaves_forty_nine_and_hit_forty_eight() {
    let game = OptimizedBlackJackGame::new_standard(1);
    let dealt = game.deal(0, 9, 5);
    assert_eq!(dealt.deck().total(), 49);
    assert_eq!(dealt.hand(), &vec![0, 9]);
    assert_eq!(dealt.dealer(), &vec![5]);
    assert!(!dealt.has_stayed());
    let after = dealt.hit(3);
    assert_eq!(after.deck().total(), 48);
    assert_eq!(after.hand().len(), dealt.hand().len() + 1);
    assert_eq!(after.hand(), &vec![0, 9, 3]);
    assert_eq!(after.dealer(), &vec![5]);
    // the positions before are untouched
    assert_eq!(game.deck().total(), 52);
    assert_eq!(dealt.deck().total(), 49);
    assert_eq!(dealt.hand().len(), 2);
}

#[test]
fn deal_takes_each_card_out_of_the_shoe() {
    let dealt = OptimizedBlackJackGame::new_standard(1).deal(9, 9, 9);
    assert_eq!(dealt.deck().count(9), 13);
    assert_eq!(dealt.deck().count(0), 4);
    let tiny = OptimizedBlackJackGame::from_parts(
        vec![],
        vec![],
        false,
        Shoe::from_counts([1, 0, 0, 0, 0, 0, 0, 0, 0, 2]).unwrap(),
    )
    .unwrap();
    let dealt = tiny.deal(9, 0, 9);
    assert_eq!(dealt.deck().total(), 0);
    assert_eq!(dealt.hand(), &vec![9, 0]);
    assert_eq!(dealt.dealer(), &vec![9]);
}

#[test]
fn dealer_hit_gives_the_dealer_the_card() {
    let dealt = OptimizedBlackJackGame::new_standard(1).deal(1, 2, 3).stay();
    let after = dealt.dealer_hit(7);
    assert_eq!(after.dealer(), &vec![3, 7]);
    assert_eq!(after.hand(), &vec![1, 2]);
    assert_eq!(after.deck().total(), 48);
    assert_eq!(after.deck().count(7), 3);
    assert!(!after.has_stayed());
}

#[test]
fn stay_sets_the_flag_and_nothing_else() {
    let dealt = OptimizedBlackJackGame::new_standard(1).deal(1, 2, 3);
    let stayed = dealt.stay();
    assert!(stayed.has_stayed());
    assert!(!dealt.has_stayed());
    assert_eq!(stayed.hand(), dealt.hand());
    assert_eq!(stayed.dealer(), dealt.dealer());
    assert_eq!(stayed.deck().total(), 49);
    assert!(!stayed.hit(4).has_stayed());
}

#[test]
fn from_parts_refuses_a_card_of_no_class() {
    assert!(OptimizedBlackJackGame::from_parts(vec![10], vec![], false, Shoe::new_empty()).is_none());
    assert!(OptimizedBlackJackGame::from_parts(vec![], vec![3, 11], true, Shoe::new_empty()).is_none());
    assert!(OptimizedBlackJackGame::from_parts(vec![9], vec![0], true, Shoe::new_empty()).is_some());
}

#[test]
fn from_parts_refuses_more_cards_than_can_be_scored() {
    let full = Shoe::from_counts([usize::MAX, 0, 0, 0, 0, 0, 0, 0, 0, 0]).unwrap();
    assert!(OptimizedBlackJackGame::from_parts(vec![], vec![], false, full).is_none());
    let most = Shoe::from_counts([(usize::MAX - 10) / 10, 0, 0, 0, 0, 0, 0, 0, 0, 0]).unwrap();
    assert!(OptimizedBlackJackGame::from_parts(vec![], vec![], false, most).is_some());
    assert!(OptimizedBlackJackGame::from_parts(vec![1], vec![], false, most).is_none());
}

#[test]
fn values_and_flags_of_a_position() {
    let game = position(&[0, 8], &[9, 9, 4], false);
    assert_eq!(game.get_hand_value(), 20);
    assert_eq!(game.get_dealer_value(), 25);
    assert!(!game.is_hand_bust());
    assert!(game.is_dealer_bust());
    assert!(!game.is_hand_blackjack());
    assert!(!game.is_dealer_blackjack());
    let game = position(&[0, 0, 8], &[0, 9], false);
    assert_eq!(game.get_hand_value(), 21);
    assert!(!game.is_hand_blackjack());
    assert!(game.is_dealer_blackjack());
}

#[test]
fn dealer_blackjack_counts_the_dealer_cards() {
    // 21 in two cards for the dealer, whatever the number of cards in the hand
    assert!(position(&[1, 2, 3], &[9, 0], false).is_dealer_blackjack());
    // 21 in three cards is no blackjack, though the hand holds two cards
    assert!(!position(&[1, 2], &[9, 4, 5], false).is_dealer_blackjack());
}

#[test]
fn dealer_blackjack_against_blackjack_is_a_push() {
    assert_eq!(position(&[0, 9], &[9, 0], false).next_step(), Step::Settled(Payoff::Push));
    assert_eq!(position(&[9, 0], &[0, 9], true).next_step(), Step::Settled(Payoff::Push));
    assert_eq!(Payoff::Push.halves(), 0);
}

#[test]
fn dealer_blackjack_against_another_hand_is_a_loss() {
    assert_eq!(position(&[9, 9], &[9, 0], false).next_step(), Step::Settled(Payoff::Loss));
    assert_eq!(position(&[4, 5, 8], &[0, 9], true).next_step(), Step::Settled(Payoff::Loss));
    assert_eq!(Payoff::Loss.halves(), -2);
}

#[test]
fn bust_hand_loses_even_against_a_bust_dealer() {
    assert_eq!(position(&[9, 9, 4], &[9, 8, 7], false).next_step(), Step::Settled(Payoff::Loss));
    assert_eq!(position(&[9, 9, 4], &[9, 8, 7], true).next_step(), Step::Settled(Payoff::Loss));
    assert_eq!(position(&[9, 9, 1], &[5], false).next_step(), Step::Settled(Payoff::Loss));
}

#[test]
fn bust_dealer_pays_the_hand() {
    assert_eq!(position(&[9, 7], &[9, 5, 8], true).next_step(), Step::Settled(Payoff::Win));
    assert_eq!(position(&[0, 9], &[9, 5, 8], true).next_step(), Step::Settled(Payoff::Blackjack));
    assert_eq!(Payoff::Win.halves(), 2);
    assert_eq!(Payoff::Blackjack.halves(), 3);
}

#[test]
fn stayed_blackjack_pays_three_to_two() {
    assert_eq!(position(&[0, 9], &[5], true).next_step(), Step::Settled(Payoff::Blackjack));
    assert_eq!(position(&[0, 9], &[9, 9], true).next_step(), Step::Settled(Payoff::Blackjack));
}

#[test]
fn stayed_hand_below_the_dealer_loses() {
    assert_eq!(position(&[1, 2], &[9], true).next_step(), Step::Settled(Payoff::Loss));
    assert_eq!(position(&[9, 7], &[9, 8], true).next_step(), Step::Settled(Payoff::Loss));
}

#[test]
fn dealer_stands_on_seventeen() {
    assert_eq!(position(&[9, 6], &[9, 6], true).next_step(), Step::Settled(Payoff::Push));
    assert_eq!(position(&[9, 8], &[9, 6], true).next_step(), Step::Settled(Payoff::Win));
    assert_eq!(position(&[9, 9], &[0, 5], true).next_step(), Step::Settled(Payoff::Win));
    assert_eq!(position(&[4, 4, 9], &[9, 9], true).next_step(), Step::Settled(Payoff::Push));
}

#[test]
fn dealer_draws_below_seventeen() {
    assert_eq!(position(&[9, 8], &[9, 5], true).next_step(), Step::DealerDraws);
    assert_eq!(position(&[9, 5], &[9, 5], true).next_step(), Step::DealerDraws);
    assert_eq!(position(&[9, 8], &[5], true).next_step(), Step::DealerDraws);
}

#[test]
fn player_chooses_until_stay() {
    assert_eq!(position(&[9, 8], &[5], false).next_step(), Step::PlayerChooses);
    assert_eq!(position(&[0, 9], &[5], false).next_step(), Step::PlayerChooses);
    assert_eq!(position(&[1, 2], &[9, 9], false).next_step(), Step::PlayerChooses);
    assert_eq!(position(&[3], &[], false).next_step(), Step::PlayerChooses);
}

#[test]
fn step_ignores_the_order_of_the_cards() {
    for stay in [false, true] {
        assert_eq!(
            position(&[0, 4, 9], &[2, 9, 3], stay).next_step(),
            position(&[9, 0, 4], &[3, 2, 9], stay).next_step()
        );
        assert_eq!(
            position(&[0, 9], &[9, 0], stay).next_step(),
            position(&[9, 0], &[0, 9], stay).next_step()
        );
    }
}

#[test]
fn payoffs_lie_between_a_loss_and_a_blackjack() {
    for payoff in [Payoff::Loss, Payoff::Push, Payoff::Win, Payoff::Blackjack] {
        assert!(-2 <= payoff.halves() && payoff.halves() <= 3);
    }
}

#[test]
fn branch_of_a_hit() {
    let game = OptimizedBlackJackGame::new_standard(1).deal(0, 9, 5);
    let branch = game.branch(Draw::Player, 9).unwrap();
    assert_eq!(branch.card, 9);
    assert_eq!(branch.weight, 15);
    assert_eq!(branch.out_of, 49);
    assert_eq!(branch.next.hand(), &vec![0, 9, 9]);
    assert_eq!(branch.next.dealer(), &vec![5]);
    assert!(!branch.next.has_stayed());
    assert_eq!(branch.next.deck().total(), 48);
    assert_eq!(branch.next.deck().count(9), 14);
}

#[test]
fn branch_of_a_dealer_draw_keeps_the_stay() {
    let game = OptimizedBlackJackGame::new_standard(1).deal(9, 8, 5).stay();
    let branch = game.branch(Draw::Dealer, 5).unwrap();
    assert_eq!(branch.weight, 3);
    assert_eq!(branch.out_of, 49);
    assert_eq!(branch.next.hand(), &vec![9, 8]);
    assert_eq!(branch.next.dealer(), &vec![5, 5]);
    assert!(branch.next.has_stayed());
    assert_eq!(branch.next.deck().count(5), 2);
}

#[test]
fn branch_of_an_opening_gives_the_dealer_the_card() {
    let game = OptimizedBlackJackGame::new_standard(1);
    let branch = game.branch(Draw::Opening, 0).unwrap();
    assert_eq!(branch.weight, 4);
    assert_eq!(branch.out_of, 52);
    assert!(branch.next.hand().is_empty());
    assert_eq!(branch.next.dealer(), &vec![0]);
    assert!(!branch.next.has_stayed());
}

#[test]
fn no_branch_where_the_shoe_lacks_the_class() {
    let shoe = Shoe::from_counts([0, 2, 0, 0, 0, 0, 0, 0, 0, 1]).unwrap();
    let game = OptimizedBlackJackGame::from_parts(vec![9, 5], vec![4], false, shoe).unwrap();
    assert!(game.branch(Draw::Player, 0).is_none());
    assert!(game.branch(Draw::Player, 1).is_some());
    let all = game.branches(Draw::Player);
    assert_eq!(all.len(), 10);
    let open: Vec<usize> = all.iter().flatten().map(|b| b.card).collect();
    assert_eq!(open, vec![1, 9]);
    let weights: usize = all.iter().flatten().map(|b| b.weight).sum();
    assert_eq!(weights, 3);
    for (class, entry) in all.iter().enumerate() {
        assert_eq!(entry.is_some(), class == 1 || class == 9);
    }
}

#[test]
fn empty_shoe_has_no_branches() {
    let game = OptimizedBlackJackGame::from_parts(vec![9, 5], vec![4], true, Shoe::new_empty()).unwrap();
    let all = game.branches(Draw::Dealer);
    assert_eq!(all.len(), 10);
    assert!(all.iter().all(|b| b.is_none()));
}

#[test]
fn branch_chances_add_up_to_one() {
    let game = OptimizedBlackJackGame::new_standard(1).deal(0, 9, 5);
    let mut sum = 0.0f64;
    for branch in game.branches(Draw::Player).iter().flatten() {
        sum += branch.weight as f64 / branch.out_of as f64;
    }
    assert!((sum - 1.0).abs() < 1e-12);
}

#[test]
fn step_of_plain_cards() {
    assert_eq!(step(&vec![], &vec![], false), Step::Undealt);
    assert_eq!(step(&vec![], &vec![], true), Step::Undealt);
    assert_eq!(step(&vec![0, 9], &vec![9, 0], false), Step::Settled(Payoff::Push));
    assert_eq!(step(&vec![9, 9, 9], &vec![9, 9, 9], true), Step::Settled(Payoff::Loss));
    assert_eq!(step(&vec![9, 6], &vec![9, 5, 9], false), Step::Settled(Payoff::Win));
    assert_eq!(step(&vec![9, 6], &vec![9], true), Step::DealerDraws);
    assert_eq!(step(&vec![9, 6], &vec![9], false), Step::PlayerChooses);
    assert_eq!(step(&vec![], &vec![9], false), Step::PlayerChooses);
}

#[test]
fn dealer_totals_at_the_edges() {
    // sixteen draws, seventeen stands, a soft seventeen stands too
    assert_eq!(position(&[9, 9], &[9, 5], true).next_step(), Step::DealerDraws);
    assert_eq!(position(&[9, 9], &[9, 6], true).next_step(), Step::Settled(Payoff::Win));
    assert_eq!(position(&[9, 6], &[0, 5], true).next_step(), Step::Settled(Payoff::Push));
    // twenty-one in three cards against twenty-one in three cards
    assert_eq!(position(&[6, 6, 6], &[9, 5, 4], true).next_step(), Step::Settled(Payoff::Push));
    // twenty-two busts
    assert_eq!(position(&[9, 9], &[9, 5, 5], true).next_step(), Step::Settled(Payoff::Win));
}
