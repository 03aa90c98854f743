use cribbage::card::{Card, Rank, Suit};
use cribbage::the_play::score_the_play;

#[test]
fn the_play_it_counts_fifteens() {
    let cards = vec![
        Card::new(Suit::Spades, Rank::Eight),
        Card::new(Suit::Spades, Rank::Seven),
    ];

    let score = score_the_play(&cards);
    assert_eq!(score, 2);
}

#[test]
fn it_counts_thirty_ones() {
    let cards = vec![
        Card::new(Suit::Spades, Rank::Ten),
        Card::new(Suit::Spades, Rank::Jack),
        Card::new(Suit::Spades, Rank::King),
        Card::new(Suit::Spades, Rank::Ace),
    ];

    let score = score_the_play(&cards);
    assert_eq!(score, 2)
}

#[test]
fn the_play_it_counts_pairs() {
    let cards = vec![
        Card::new(Suit::Spades, Rank::Two),
        Card::new(Suit::Hearts, Rank::Two),
    ];

    let score = score_the_play(&cards);
    assert_eq!(score, 2)
}

#[test]
fn it_counts_pair_royals() {
    let cards = vec![
        Card::new(Suit::Spades, Rank::Two),
        Card::new(Suit::Hearts, Rank::Two),
        Card::new(Suit::Diamonds, Rank::Two),
    ];

    let score = score_the_play(&cards);
    assert_eq!(score, 6);
}

#[test]
fn it_counts_double_pair_royals() {
    let cards = vec![
        Card::new(Suit::Spades, Rank::Two),
        Card::new(Suit::Hearts, Rank::Two),
        Card::new(Suit::Diamonds, Rank::Two),
        Card::new(Suit::Clubs, Rank::Two),
    ];

    let score = score_the_play(&cards);
    assert_eq!(score, 12);
}

#[test]
fn it_counts_runs_of_three() {
    let cards = vec![
        Card::new(Suit::Spades, Rank::Ace),
        Card::new(Suit::Spades, Rank::Two),
        Card::new(Suit::Spades, Rank::Three),
    ];

    let score = score_the_play(&cards);
    assert_eq!(score, 3)
}

#[test]
fn it_counts_runs_of_four() {
    let cards = vec![
        Card::new(Suit::Spades, Rank::Ace),
        Card::new(Suit::Spades, Rank::Two),
        Card::new(Suit::Spades, Rank::Three),
        Card::new(Suit::Spades, Rank::Four),
    ];

    let score = score_the_play(&cards);
    assert_eq!(score, 4)
}

#[test]
fn it_counts_runs_of_five() {
    let cards = vec![
        Card::new(Suit::Spades, Rank::Two),
        Card::new(Suit::Spades, Rank::Three),
        Card::new(Suit::Spades, Rank::Four),
        Card::new(Suit::Spades, Rank::Five),
        Card::new(Suit::Spades, Rank::Six),
    ];

    let score = score_the_play(&cards);
    assert_eq!(score, 5)
}

#[test]
fn it_counts_runs_of_six() {
    let cards = vec![
        Card::new(Suit::Spades, Rank::Ace),
        Card::new(Suit::Spades, Rank::Two),
        Card::new(Suit::Spades, Rank::Three),
        Card::new(Suit::Spades, Rank::Four),
        Card::new(Suit::Spades, Rank::Five),
        Card::new(Suit::Spades, Rank::Six),
    ];

    let score = score_the_play(&cards);
    assert_eq!(score, 6)
}

#[test]
fn it_counts_runs_of_seven() {
    let cards = vec![
        Card::new(Suit::Spades, Rank::Ace),
        Card::new(Suit::Spades, Rank::Two),
        Card::new(Suit::Spades, Rank::Three),
        Card::new(Suit::Spades, Rank::Four),
        Card::new(Suit::Spades, Rank::Five),
        Card::new(Suit::Spades, Rank::Six),
        Card::new(Suit::Spades, Rank::Seven),
    ];

    let score = score_the_play(&cards);
    assert_eq!(score, 7)
}

#[test]
fn a_run_must_end_the_played_sequence() {
    // an ace, a two and a three were played, but a seven stands between
    // them and the newest card: no trailing block forms a run
    let cards = vec![
        Card::new(Suit::Spades, Rank::Ace),
        Card::new(Suit::Hearts, Rank::Two),
        Card::new(Suit::Spades, Rank::Seven),
        Card::new(Suit::Clubs, Rank::Three),
    ];

    let score = score_the_play(&cards);
    assert_eq!(score, 0)
}

#[test]
fn trailing_matches_score_two_six_twelve() {
    let base = vec![
        Card::new(Suit::Spades, Rank::Nine),
        Card::new(Suit::Spades, Rank::Four),
        Card::new(Suit::Hearts, Rank::Four),
    ];
    assert_eq!(score_the_play(&base), 2);
    let mut three = base.clone();
    three.push(Card::new(Suit::Diamonds, Rank::Four));
    assert_eq!(score_the_play(&three), 6);
    let mut four = three.clone();
    four.push(Card::new(Suit::Clubs, Rank::Four));
    assert_eq!(score_the_play(&four), 12);
}
