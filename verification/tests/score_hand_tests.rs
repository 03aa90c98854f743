use cribbage::card::{Card, Rank, Suit};
use cribbage::score_hand::score_hand;

#[test]
fn score_hand_it_counts_fifteens() {
    let hand = vec![
        Card::new(Suit::Spades, Rank::Eight),
        Card::new(Suit::Spades, Rank::Seven),
        Card::new(Suit::Spades, Rank::Two),
        Card::new(Suit::Hearts, Rank::Queen),
    ];
    let starter = Card::new(Suit::Hearts, Rank::King);

    let score = score_hand(&hand, &starter);
    assert_eq!(score, 2);
}

#[test]
fn score_hand_it_counts_pairs() {
    let hand = vec![
        Card::new(Suit::Spades, Rank::Ace),
        Card::new(Suit::Hearts, Rank::Ace),
        Card::new(Suit::Diamonds, Rank::Ace),
        Card::new(Suit::Spades, Rank::King),
    ];
    let starter = Card::new(Suit::Hearts, Rank::King);

    let score = score_hand(&hand, &starter);
    assert_eq!(score, 8);
}

#[test]
fn it_counts_run_of_five() {
    let hand = vec![
        Card::new(Suit::Spades, Rank::King),
        Card::new(Suit::Hearts, Rank::Queen),
        Card::new(Suit::Diamonds, Rank::Jack),
        Card::new(Suit::Spades, Rank::Ten),
    ];
    let starter = Card::new(Suit::Clubs, Rank::Nine);

    let score = score_hand(&hand, &starter);
    assert_eq!(score, 5);
}

#[test]
fn it_counts_run_of_four() {
    let hand = vec![
        Card::new(Suit::Spades, Rank::King),
        Card::new(Suit::Hearts, Rank::Queen),
        Card::new(Suit::Diamonds, Rank::Jack),
        Card::new(Suit::Spades, Rank::Ten),
    ];
    let starter = Card::new(Suit::Clubs, Rank::Eight);

    let score = score_hand(&hand, &starter);
    assert_eq!(score, 4);
}

#[test]
fn it_counts_double_run_of_four() {
    let hand = vec![
        Card::new(Suit::Spades, Rank::King),
        Card::new(Suit::Hearts, Rank::King),
        Card::new(Suit::Diamonds, Rank::Queen),
        Card::new(Suit::Spades, Rank::Jack),
    ];
    let starter = Card::new(Suit::Clubs, Rank::Ten);
    let score = score_hand(&hand, &starter);
    assert_eq!(score, 10);
}

#[test]
fn it_counts_run_of_three() {
    let hand = vec![
        Card::new(Suit::Spades, Rank::Two),
        Card::new(Suit::Hearts, Rank::Ace),
        Card::new(Suit::Diamonds, Rank::Queen),
        Card::new(Suit::Spades, Rank::Jack),
    ];
    let starter = Card::new(Suit::Clubs, Rank::Ten);
    let score = score_hand(&hand, &starter);
    assert_eq!(score, 3);
}

#[test]
fn it_counts_double_run_of_three() {
    let hand = vec![
        Card::new(Suit::Spades, Rank::Two),
        Card::new(Suit::Hearts, Rank::Queen),
        Card::new(Suit::Diamonds, Rank::Queen),
        Card::new(Suit::Spades, Rank::Jack),
    ];
    let starter = Card::new(Suit::Clubs, Rank::Ten);

    let score = score_hand(&hand, &starter);
    assert_eq!(score, 8);
}

#[test]
fn it_counts_triple_run_of_three() {
    let hand = vec![
        Card::new(Suit::Spades, Rank::Queen),
        Card::new(Suit::Hearts, Rank::Queen),
        Card::new(Suit::Diamonds, Rank::Queen),
        Card::new(Suit::Spades, Rank::Jack),
    ];
    let starter = Card::new(Suit::Clubs, Rank::Ten);
    let score = score_hand(&hand, &starter);
    assert_eq!(score, 15);
}

#[test]
fn it_counts_four_card() {
    let hand = vec![
        Card::new(Suit::Spades, Rank::Queen),
        Card::new(Suit::Spades, Rank::Ten),
        Card::new(Suit::Spades, Rank::Eight),
        Card::new(Suit::Spades, Rank::Six),
    ];
    let starter = Card::new(Suit::Clubs, Rank::Four);
    let score = score_hand(&hand, &starter);
    assert_eq!(score, 4);
}

#[test]
fn it_counts_five_card() {
    let hand = vec![
        Card::new(Suit::Spades, Rank::Queen),
        Card::new(Suit::Spades, Rank::Ten),
        Card::new(Suit::Spades, Rank::Eight),
        Card::new(Suit::Spades, Rank::Six),
    ];
    let starter = Card::new(Suit::Spades, Rank::Four);
    let score = score_hand(&hand, &starter);
    assert_eq!(score, 5);
}

#[test]
fn it_counts_nobs() {
    let hand = vec![
        Card::new(Suit::Spades, Rank::Jack),
        Card::new(Suit::Hearts, Rank::Two),
        Card::new(Suit::Diamonds, Rank::Six),
        Card::new(Suit::Clubs, Rank::Eight),
    ];
    let starter = Card::new(Suit::Spades, Rank::Four);
    let score = score_hand(&hand, &starter);
    assert_eq!(score, 1);
}

#[test]
fn it_counts_the_highest_scoring_hand() {
    let hand = vec![
        Card::new(Suit::Hearts, Rank::Jack),
        Card::new(Suit::Spades, Rank::Five),
        Card::new(Suit::Diamonds, Rank::Five),
        Card::new(Suit::Clubs, Rank::Five),
    ];
    let starter = Card::new(Suit::Hearts, Rank::Five);
    let score = score_hand(&hand, &starter);
    assert_eq!(score, 29);
}

#[test]
fn it_counts_a_nineteen_point_hand() {
    let hand = vec![
        Card::new(Suit::Hearts, Rank::Two),
        Card::new(Suit::Clubs, Rank::Four),
        Card::new(Suit::Diamonds, Rank::Six),
        Card::new(Suit::Spades, Rank::Eight),
    ];
    let starter = Card::new(Suit::Hearts, Rank::Ten);
    let score = score_hand(&hand, &starter);
    assert_eq!(score, 0);
}

#[test]
fn show_score_ignores_hand_order() {
    let hand = vec![
        Card::new(Suit::Spades, Rank::King),
        Card::new(Suit::Hearts, Rank::King),
        Card::new(Suit::Diamonds, Rank::Queen),
        Card::new(Suit::Spades, Rank::Jack),
    ];
    let reordered = vec![
        Card::new(Suit::Diamonds, Rank::Queen),
        Card::new(Suit::Spades, Rank::Jack),
        Card::new(Suit::Hearts, Rank::King),
        Card::new(Suit::Spades, Rank::King),
    ];
    let starter = Card::new(Suit::Clubs, Rank::Ten);
    assert_eq!(score_hand(&hand, &starter), score_hand(&reordered, &starter));
}

#[test]
fn crib_flush_needs_the_starter() {
    let crib = vec![
        Card::new(Suit::Spades, Rank::Queen),
        Card::new(Suit::Spades, Rank::Ten),
        Card::new(Suit::Spades, Rank::Eight),
        Card::new(Suit::Spades, Rank::Six),
    ];
    // a hand flush without the starter scores four; the crib scores none
    let off_suit = Card::new(Suit::Clubs, Rank::Four);
    assert_eq!(cribbage::score_hand::score_crib(&crib, &off_suit), 0);
    // with the starter of the same suit, the crib flush scores five
    let on_suit = Card::new(Suit::Spades, Rank::Four);
    assert_eq!(cribbage::score_hand::score_crib(&crib, &on_suit), 5);
}
