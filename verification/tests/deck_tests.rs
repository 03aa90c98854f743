use cribbage::card::Deck;

#[test]
fn a_fresh_deck_draws_fifty_two_distinct_cards() {
    let mut deck = Deck::new();
    let cards = deck.draw_n(52).expect("a fresh deck holds 52 cards");
    assert_eq!(cards.len(), 52);
    for i in 0..cards.len() {
        for j in 0..i {
            assert!(cards[i] != cards[j]);
        }
    }
    assert!(deck.draw().is_err());
}

#[test]
fn drawing_too_many_fails_without_touching_the_deck() {
    let mut deck = Deck::new();
    assert!(deck.draw_n(53).is_err());
    // the failed draw removed nothing: all 52 cards are still there
    let cards = deck.draw_n(52).expect("the deck is still full");
    assert_eq!(cards.len(), 52);
}

#[test]
fn a_partial_draw_leaves_the_rest() {
    let mut deck = Deck::new();
    let first = deck.draw_n(40).expect("40 of 52");
    assert_eq!(first.len(), 40);
    assert!(deck.draw_n(20).is_err());
    let rest = deck.draw_n(12).expect("12 remain");
    assert_eq!(rest.len(), 12);
    for c in rest.iter() {
        assert!(!first.contains(c));
    }
}
