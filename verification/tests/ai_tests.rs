use cribbage::ai::{discard_cards, select_play};
use cribbage::card::{Card, Rank, Suit};

fn six_cards() -> Vec<Card> {
    vec![
        Card::new(Suit::Spades, Rank::Five),
        Card::new(Suit::Hearts, Rank::Five),
        Card::new(Suit::Diamonds, Rank::Jack),
        Card::new(Suit::Clubs, Rank::Two),
        Card::new(Suit::Hearts, Rank::Nine),
        Card::new(Suit::Spades, Rank::King),
    ]
}

#[test]
fn the_discard_is_two_distinct_held_cards() {
    for dealer in [false, true] {
        let hand = six_cards();
        let discarded = discard_cards(hand.clone(), dealer);
        assert!(discarded[0] != discarded[1]);
        assert!(hand.contains(&discarded[0]));
        assert!(hand.contains(&discarded[1]));
    }
}

#[test]
fn the_discard_keeps_an_obviously_strong_hand() {
    // 5-5-5-J plus two worthless cards: any sensible split keeps the
    // fives and the jack
    let hand = vec![
        Card::new(Suit::Spades, Rank::Five),
        Card::new(Suit::Hearts, Rank::Five),
        Card::new(Suit::Diamonds, Rank::Five),
        Card::new(Suit::Clubs, Rank::Jack),
        Card::new(Suit::Hearts, Rank::Nine),
        Card::new(Suit::Spades, Rank::King),
    ];
    let discarded = discard_cards(hand, false);
    let mut thrown = vec![discarded[0], discarded[1]];
    thrown.sort_by(|a, b| a.run_cmp(b));
    assert_eq!(thrown[0], Card::new(Suit::Hearts, Rank::Nine));
    assert_eq!(thrown[1], Card::new(Suit::Spades, Rank::King));
}

#[test]
fn the_selected_play_is_legal_and_scores_when_it_can() {
    // pairing the opponent's eight scores two at once
    let hand = vec![
        Card::new(Suit::Spades, Rank::Two),
        Card::new(Suit::Hearts, Rank::Eight),
    ];
    let played = vec![Card::new(Suit::Clubs, Rank::Eight)];
    let card = select_play(hand, played, 8);
    assert_eq!(card, Card::new(Suit::Hearts, Rank::Eight));
}

#[test]
fn the_opening_card_avoids_a_count_of_ten() {
    // with nothing played yet, leading the ten would leave the count at
    // exactly ten; the ace keeps it low instead
    let hand = vec![
        Card::new(Suit::Spades, Rank::Ten),
        Card::new(Suit::Hearts, Rank::Ace),
    ];
    let card = select_play(hand, Vec::new(), 0);
    assert_eq!(card, Card::new(Suit::Hearts, Rank::Ace));
}

#[test]
fn the_selected_play_respects_the_count() {
    // only the ace fits under 31
    let hand = vec![
        Card::new(Suit::Spades, Rank::Ten),
        Card::new(Suit::Hearts, Rank::Ace),
    ];
    let played = vec![
        Card::new(Suit::Clubs, Rank::King),
        Card::new(Suit::Diamonds, Rank::King),
        Card::new(Suit::Spades, Rank::King),
    ];
    let card = select_play(hand, played, 30);
    assert_eq!(card, Card::new(Suit::Hearts, Rank::Ace));
}
