use cribbage::ai::{discard_cards, select_play};
use cribbage::card::{Card, Rank, Suit};
use cribbage::game::{Game, GamePhase};

/// Drives a whole game with the AI answering for both seats, checking the
/// round structure and the scoring limits at every step.
#[test]
fn an_ai_game_runs_to_the_end_within_the_rules() {
    let mut game = Game::new();
    assert_eq!(game.phase, GamePhase::AwaitingPlayers);
    game.register_player();
    game.register_player();
    game.start();
    assert_eq!(game.phase, GamePhase::Deal);

    let mut steps = 0usize;
    loop {
        steps += 1;
        assert!(steps < 100_000, "the game did not end");
        match game.phase {
            GamePhase::AwaitingPlayers => unreachable!("the game has started"),
            GamePhase::Deal => {
                game.deal();
                assert_eq!(game.phase, GamePhase::Discard);
                assert_eq!(game.players[0].hand.len(), 6);
                assert_eq!(game.players[1].hand.len(), 6);
            }
            GamePhase::Discard => {
                let pidx = if game.players[0].hand.len() == 6 { 0 } else { 1 };
                let hand = game.players[pidx].hand.clone();
                let dealer = pidx == game.dealer_index;
                let discarded = discard_cards(hand, dealer);
                let ok = game.apply_discard(pidx, &discarded);
                assert!(ok, "the AI discard is always legal");
            }
            GamePhase::Cut => {
                game.cut();
                assert!(game.phase == GamePhase::Play || game.phase == GamePhase::Over);
            }
            GamePhase::Play => {
                let count = game.count();
                assert!(count <= 31, "the running count never exceeds 31");
                let cur = game.player_index;
                if game.players[cur].can_play(count) {
                    let hand = game.players[cur].unplayed_cards();
                    let played = game.played.clone();
                    let card = select_play(hand, played, count);
                    let ok = game.apply_play(card);
                    assert!(ok, "the AI play is always legal");
                } else {
                    game.play_go();
                }
            }
            GamePhase::Show => {
                game.show();
                assert!(game.phase == GamePhase::Cleanup || game.phase == GamePhase::Over);
            }
            GamePhase::Cleanup => {
                game.cleanup();
                assert_eq!(game.phase, GamePhase::Deal);
            }
            GamePhase::Over => break,
        }
        assert!(game.players[0].score <= 121, "scores never exceed 121");
        assert!(game.players[1].score <= 121, "scores never exceed 121");
        if game.phase != GamePhase::Over {
            assert!(game.players[0].score < 121, "121 ends the game at once");
            assert!(game.players[1].score < 121, "121 ends the game at once");
        }
    }
    assert!(game.players[0].score == 121 || game.players[1].score == 121);
    assert!(game.players[0].score < 121 || game.players[1].score < 121);
}

#[test]
fn a_malformed_discard_changes_nothing() {
    let mut game = Game::new();
    game.register_player();
    game.register_player();
    game.start();
    game.deal();

    let own = game.players[0].hand.clone();
    let foreign = game.players[1].hand[0];

    // twice the same card leaves five in hand, not four: rejected
    assert!(!game.apply_discard(0, &[own[0], own[0]]));
    // a card the player does not hold: rejected
    assert!(!game.apply_discard(0, &[own[0], foreign]));
    assert_eq!(game.players[0].hand.len(), 6);
    assert_eq!(game.crib.len(), 0);
    assert_eq!(game.phase, GamePhase::Discard);

    // a proper pair of held cards is taken
    assert!(game.apply_discard(0, &[own[0], own[1]]));
    assert_eq!(game.players[0].hand.len(), 4);
    assert_eq!(game.crib.len(), 2);
}

#[test]
fn an_illegal_play_changes_nothing() {
    let mut game = Game::new();
    game.register_player();
    game.register_player();
    game.start();
    game.deal();
    for pidx in 0..2 {
        let hand = game.players[pidx].hand.clone();
        let dealer = pidx == game.dealer_index;
        let discarded = discard_cards(hand, dealer);
        assert!(game.apply_discard(pidx, &discarded));
    }
    game.cut();
    if game.phase != GamePhase::Play {
        // the cut itself may end a game that was nearly won; not here,
        // since both scores started at zero
        unreachable!("two points cannot reach 121 from zero");
    }
    // a card belonging to the opponent is never playable
    let cur = game.player_index;
    let foreign = game.players[1 - cur].hand[0];
    let before_count = game.count();
    assert!(!game.apply_play(foreign));
    assert_eq!(game.count(), before_count);
    assert_eq!(game.phase, GamePhase::Play);
}

#[test]
fn thirty_one_awards_two_to_the_completer() {
    // a sequence reaching exactly 31 scores the play's two points and the
    // settlement's two more
    let cards = vec![
        Card::new(Suit::Spades, Rank::Ten),
        Card::new(Suit::Hearts, Rank::King),
        Card::new(Suit::Diamonds, Rank::Queen),
        Card::new(Suit::Clubs, Rank::Ace),
    ];
    assert_eq!(cribbage::the_play::score_the_play(&cards), 2);
}
