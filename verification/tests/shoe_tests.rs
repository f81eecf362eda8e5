use blackjack_rs::shoe::Shoe;

#[test]
fn standard_shoe_has_fifty_two_cards_per_deck() {
    let shoe = Shoe::new_standard(1);
    assert_eq!(shoe.total(), 52);
    for class in 0..9 {
        assert_eq!(shoe.count(class), 4);
    }
    assert_eq!(shoe.count(9), 16);
    let big = Shoe::new_standard(8);
    assert_eq!(big.total(), 416);
    assert_eq!(big.count(0), 32);
    assert_eq!(big.count(9), 128);
}

#[test]
fn empty_shoe_has_no_cards() {
    let shoe = Shoe::new_empty();
    assert_eq!(shoe.total(), 0);
    for class in 0..10 {
        assert_eq!(shoe.count(class), 0);
    }
}

#[test]
fn zero_decks_make_an_empty_shoe() {
    let shoe = Shoe::new_standard(0);
    assert_eq!(shoe.total(), 0);
    assert_eq!(shoe.count(9), 0);
}

#[test]
fn from_counts_adds_the_counts_up() {
    let shoe = Shoe::from_counts([1, 2, 3, 4, 5, 6, 7, 8, 9, 10]).unwrap();
    assert_eq!(shoe.total(), 55);
    assert_eq!(shoe.count(0), 1);
    assert_eq!(shoe.count(4), 5);
    assert_eq!(shoe.count(9), 10);
}

#[test]
fn from_counts_refuses_a_sum_that_does_not_fit() {
    assert!(Shoe::from_counts([usize::MAX, 1, 0, 0, 0, 0, 0, 0, 0, 0]).is_none());
    assert!(Shoe::from_counts([0, 0, 0, 0, 0, 0, 0, 0, 1, usize::MAX]).is_none());
    let edge = Shoe::from_counts([usize::MAX - 1, 1, 0, 0, 0, 0, 0, 0, 0, 0]).unwrap();
    assert_eq!(edge.total(), usize::MAX);
}

#[test]
fn draw_takes_one_card_of_the_class() {
    let shoe = Shoe::new_standard(1);
    let rest = shoe.draw(9);
    assert_eq!(rest.total(), 51);
    assert_eq!(rest.count(9), 15);
    for class in 0..9 {
        assert_eq!(rest.count(class), 4);
    }
    // the shoe drawn from is a value of its own and keeps its cards
    assert_eq!(shoe.total(), 52);
    assert_eq!(shoe.count(9), 16);
}

#[test]
fn draw_of_the_last_card_empties_the_shoe() {
    let shoe = Shoe::from_counts([0, 0, 1, 0, 0, 0, 0, 0, 0, 0]).unwrap();
    let rest = shoe.draw(2);
    assert_eq!(rest.total(), 0);
    assert_eq!(rest.count(2), 0);
}

#[test]
fn draw_weights_add_up_to_the_total() {
    let shoe = Shoe::new_standard(2).draw(0).draw(9).draw(9);
    let (weights, out_of) = shoe.draw_weights();
    assert_eq!(out_of, 101);
    assert_eq!(weights, [7, 8, 8, 8, 8, 8, 8, 8, 8, 30]);
    assert_eq!(weights.iter().sum::<usize>(), out_of);
}

#[test]
fn draw_chances_add_up_to_one() {
    let shoe = Shoe::from_counts([3, 1, 4, 1, 5, 9, 2, 6, 5, 3]).unwrap();
    let (weights, out_of) = shoe.draw_weights();
    let mut sum = 0.0f64;
    for w in weights.iter() {
        sum += *w as f64 / out_of as f64;
    }
    assert!((sum - 1.0).abs() < 1e-12);
}
