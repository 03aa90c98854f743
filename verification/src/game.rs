//! The round engine: one state machine owning all round state, walking
//! deal, discard, cut, play, show and cleanup, validating every player
//! action before applying it, and ending the game the instant a score
//! reaches 121.

use vstd::prelude::*;
use vstd::multiset::Multiset;
use crate::card::{Card, Deck, Rank, rng_range, fresh_rng, spec_count_value};
use crate::counting::sum_values;

verus! {

/// Where a round stands. A round walks the phases in order; `Over` is
/// terminal and is entered the instant a score reaches 121.
#[derive(Clone, Copy, Debug, PartialEq, Eq, Structural)]
pub enum GamePhase {
    AwaitingPlayers,
    Deal,
    Discard,
    Cut,
    Play,
    Show,
    Cleanup,
    Over,
}

/// What the engine tells a player actor.
#[derive(Clone, Debug)]
pub enum GameEvent {
    Deal { cards: Vec<Card>, dealer: bool },
    PlayRequest { hand: Vec<Card>, played: Vec<Card>, count: u8 },
}

/// What a player actor answers.
#[derive(Clone, Debug)]
pub enum GameAction {
    Discard { discarded: [Card; 2] },
    Play { card: Card },
}

/// One player's round state, as the engine tracks it.
pub struct Player {
    pub score: u8,
    pub hand: Vec<Card>,
    pub played: Vec<Card>,
    pub go: bool,
}

/// The cards of the hand not yet laid down this round.
pub open spec fn spec_unplayed(p: Player) -> Seq<Card> {
    p.hand@.filter(|c: Card| !p.played@.contains(c))
}

/// May this card be laid down on the given count?
pub open spec fn spec_card_playable(p: Player, c: Card, count: int) -> bool {
    &&& p.hand@.contains(c)
    &&& !p.played@.contains(c)
    &&& spec_count_value(c.rank) + count <= 31
}

/// Has the player any legal card left?
pub open spec fn spec_can_play(p: Player, count: int) -> bool {
    exists|i: int|
        0 <= i < p.hand@.len() && #[trigger] spec_card_playable(p, p.hand@[i], count)
}

/// A player's state never leaves these bounds: the score is capped at
/// 121, the hand holds at most six distinct cards, and only held cards
/// count as played.
pub open spec fn player_wf(p: Player) -> bool {
    &&& p.score <= 121
    &&& p.hand@.len() <= 6
    &&& p.hand@.no_duplicates()
    &&& p.played@.no_duplicates()
    &&& forall|i: int| 0 <= i < p.played@.len() ==> p.hand@.contains(#[trigger] p.played@[i])
    &&& p.played@.len() <= p.hand@.len()
}

impl Player {
    pub fn new() -> (p: Player)
        ensures
            player_wf(p),
            p.score == 0,
            p.hand@.len() == 0,
            p.played@.len() == 0,
            !p.go,
    {
        Player { score: 0, hand: Vec::new(), played: Vec::new(), go: false }
    }

    /// Replaces the hand and forgets what was played.
    pub fn set_hand(&mut self, cards: &Vec<Card>)
        requires
            cards@.len() <= 6,
            cards@.no_duplicates(),
        ensures
            final(self).hand@ == cards@,
            final(self).played@.len() == 0,
            final(self).score == old(self).score,
            final(self).go == old(self).go,
            player_wf(*old(self)) ==> player_wf(*final(self)),
    {
        self.hand = crate::counting::clone_cards(cards);
        self.played = Vec::new();
    }

    /// Adds points, capped at 121, and returns the new score.
    pub fn add_score(&mut self, score: u8) -> (ns: u8)
        requires
            score <= 140,
            old(self).score <= 121,
        ensures
            ns == final(self).score,
            final(self).score == spec_capped(old(self).score + score),
            final(self).hand == old(self).hand,
            final(self).played == old(self).played,
            final(self).go == old(self).go,
            player_wf(*old(self)) ==> player_wf(*final(self)),
    {
        let sum: u16 = self.score as u16 + score as u16;
        if sum >= 121 {
            self.score = 121;
        } else {
            self.score = sum as u8;
        }
        self.score
    }

    /// The cards of the hand not yet laid down this round.
    pub fn unplayed_cards(&self) -> (r: Vec<Card>)
        ensures
            r@ == spec_unplayed(*self),
    {
        let ghost pred = |c: Card| !self.played@.contains(c);
        let mut r: Vec<Card> = Vec::new();
        let mut i: usize = 0;
        proof {
            reveal(Seq::filter);
            assert(self.hand@.subrange(0, 0).filter(pred) =~= Seq::<Card>::empty());
        }
        while i < self.hand.len()
            invariant
                i <= self.hand@.len(),
                pred == (|c: Card| !self.played@.contains(c)),
                r@ == self.hand@.subrange(0, i as int).filter(pred),
            decreases self.hand@.len() - i,
        {
            let c = self.hand[i];
            let held = contains_card(&self.played, c);
            if !held {
                r.push(c);
            }
            proof {
                reveal(Seq::filter);
                let pre = self.hand@.subrange(0, i as int);
                let post = self.hand@.subrange(0, i + 1 as int);
                assert(post.drop_last() =~= pre);
                assert(post.last() == c);
            }
            i += 1;
        }
        proof {
            assert(self.hand@.subrange(0, self.hand@.len() as int) =~= self.hand@);
        }
        r
    }

    /// The unplayed cards that fit under the count of 31.
    pub fn playable_cards(&self, count: u8) -> (r: Vec<Card>)
        ensures
            r@ == self.hand@.filter(
                |c: Card|
                    !self.played@.contains(c) && spec_count_value(c.rank) + count as int <= 31,
            ),
            forall|k: int|
                0 <= k < r@.len() ==> #[trigger] spec_card_playable(*self, r@[k], count as int),
            r@.len() > 0 <==> spec_can_play(*self, count as int),
    {
        let ghost pred = |c: Card|
            !self.played@.contains(c) && spec_count_value(c.rank) + count as int <= 31;
        let mut r: Vec<Card> = Vec::new();
        let mut i: usize = 0;
        proof {
            reveal(Seq::filter);
            assert(self.hand@.subrange(0, 0).filter(pred) =~= Seq::<Card>::empty());
        }
        while i < self.hand.len()
            invariant
                i <= self.hand@.len(),
                pred == (|c: Card|
                    !self.played@.contains(c) && spec_count_value(c.rank) + count as int <= 31),
                r@ == self.hand@.subrange(0, i as int).filter(pred),
                (exists|j: int|
                    0 <= j < i && #[trigger] spec_card_playable(
                        *self,
                        self.hand@[j],
                        count as int,
                    )) ==> r@.len() > 0,
            decreases self.hand@.len() - i,
        {
            let c = self.hand[i];
            let played_already = contains_card(&self.played, c);
            let v = c.count_value();
            let keep = !played_already && (v as u16) + (count as u16) <= 31;
            if keep {
                r.push(c);
            }
            proof {
                reveal(Seq::filter);
                let pre = self.hand@.subrange(0, i as int);
                let post = self.hand@.subrange(0, i + 1 as int);
                assert(post.drop_last() =~= pre);
                assert(post.last() == c);
                assert(self.hand@.contains(self.hand@[i as int]));
                if keep {
                    assert(spec_card_playable(*self, c, count as int));
                }
                pre.lemma_filter_len(pred);
            }
            i += 1;
        }
        proof {
            assert(self.hand@.subrange(0, self.hand@.len() as int) =~= self.hand@);
            assert forall|k: int| 0 <= k < r@.len() implies #[trigger] spec_card_playable(
                *self,
                r@[k],
                count as int,
            ) by {
                self.hand@.lemma_filter_pred(pred, k);
                assert(self.hand@.filter(pred).contains(r@[k]));
                self.hand@.lemma_filter_contains_rev(pred, r@[k]);
            }
            if r@.len() > 0 {
                let c0 = r@[0];
                assert(spec_card_playable(*self, c0, count as int));
                assert(self.hand@.contains(c0));
                let w = choose|w: int| 0 <= w < self.hand@.len() && self.hand@[w] == c0;
                assert(spec_card_playable(*self, self.hand@[w], count as int));
            }
            if spec_can_play(*self, count as int) {
                let j = choose|j: int|
                    0 <= j < self.hand@.len() && #[trigger] spec_card_playable(
                        *self,
                        self.hand@[j],
                        count as int,
                    );
                assert(r@.len() > 0);
            }
        }
        r
    }

    /// Has the player any legal card left?
    pub fn can_play(&self, count: u8) -> (r: bool)
        ensures
            r == spec_can_play(*self, count as int),
    {
        let cards = self.playable_cards(count);
        let r = cards.len() > 0;
        proof {
            if !r {
                assert forall|i: int|
                    0 <= i < self.hand@.len() implies !spec_card_playable(
                    *self,
                    self.hand@[i],
                    count as int,
                ) by {
                    if spec_card_playable(*self, self.hand@[i], count as int) {
                        assert(exists|j: int|
                            0 <= j < self.hand@.len() && #[trigger] spec_card_playable(
                                *self,
                                self.hand@[j],
                                count as int,
                            ));
                    }
                }
            }
        }
        r
    }

    /// Has the player laid down every card of the hand?
    pub fn played_out(&self) -> (r: bool)
        ensures
            r == (self.played@.len() == self.hand@.len()),
    {
        self.played.len() == self.hand.len()
    }
}

/// Is the card among those given?
fn contains_card(cards: &Vec<Card>, c: Card) -> (r: bool)
    ensures
        r == cards@.contains(c),
{
    let mut i: usize = 0;
    while i < cards.len()
        invariant
            i <= cards@.len(),
            forall|j: int| 0 <= j < i ==> cards@[j] != c,
        decreases cards@.len() - i,
    {
        if crate::card::card_is(cards[i], c) {
            return true;
        }
        i += 1;
    }
    false
}

/// A score after an award: capped at 121.
pub open spec fn spec_capped(s: int) -> int {
    if s >= 121 {
        121
    } else {
        s
    }
}

/// The whole round state, owned by the engine alone. Player actors only
/// ever see copies handed to them as events.
pub struct Game {
    pub players: Vec<Player>,
    pub dealer_index: usize,
    pub player_index: usize,
    pub deck: Deck,
    pub crib: Vec<Card>,
    pub starter: Option<Card>,
    pub played: Vec<Card>,
    pub phase: GamePhase,
}

/// The engine's invariant. It ties the structure of the state to the
/// phase: the running count never exceeds 31, scores never exceed 121,
/// the game is over the instant a score reaches 121, and each phase sees
/// the deck, hands and crib exactly as the round structure demands.
pub open spec fn game_wf(g: Game) -> bool {
    &&& g.players@.len() <= 2
    &&& (!(g.phase is AwaitingPlayers) ==> g.players@.len() == 2)
    &&& g.dealer_index < 2
    &&& g.player_index < 2
    &&& (forall|i: int| 0 <= i < g.players@.len() ==> player_wf(#[trigger] g.players@[i]))
    &&& (!(g.phase is Over) ==> forall|i: int|
        0 <= i < g.players@.len() ==> (#[trigger] g.players@[i]).score < 121)
    &&& sum_values(g.played@) <= 31
    &&& g.crib@.len() <= 4
    &&& g.deck.wf()
    &&& (g.phase is Deal ==> g.deck@.len() == 52 && g.crib@.len() == 0 && g.played@.len() == 0
        && g.starter is None)
    &&& (g.phase is Discard ==> {
        &&& g.deck@.len() == 40
        &&& g.played@.len() == 0
        &&& g.starter is None
        &&& (g.players@[0].hand@.len() == 4 || g.players@[0].hand@.len() == 6)
        &&& (g.players@[1].hand@.len() == 4 || g.players@[1].hand@.len() == 6)
        &&& g.crib@.len() == 12 - g.players@[0].hand@.len() - g.players@[1].hand@.len()
        &&& g.players@[0].played@.len() == 0 && g.players@[1].played@.len() == 0
    })
    &&& (g.phase is Cut ==> {
        &&& g.deck@.len() == 40
        &&& g.played@.len() == 0
        &&& g.starter is None
        &&& g.crib@.len() == 4
        &&& g.players@[0].hand@.len() == 4 && g.players@[1].hand@.len() == 4
        &&& g.players@[0].played@.len() == 0 && g.players@[1].played@.len() == 0
    })
    &&& (g.phase is Play ==> {
        &&& g.crib@.len() == 4
        &&& g.starter is Some
        &&& g.players@[0].hand@.len() == 4 && g.players@[1].hand@.len() == 4
    })
    &&& (g.phase is Show ==> {
        &&& g.crib@.len() == 4
        &&& g.starter is Some
        &&& g.players@[0].hand@.len() == 4 && g.players@[1].hand@.len() == 4
    })
    &&& ((g.phase is Discard || g.phase is Cut || g.phase is Play || g.phase is Show)
        ==> zones_partition(g))
}

/// The starter as a sequence: one card once it is cut, none before.
pub open spec fn starter_cards(g: Game) -> Seq<Card> {
    match g.starter {
        Some(c) => seq![c],
        None => Seq::<Card>::empty(),
    }
}

/// Every card the round tracks, zone by zone: the deck, both hands, the
/// crib and the starter.
pub open spec fn zone_cards(g: Game) -> Seq<Card> {
    g.deck@ + g.players@[0].hand@ + g.players@[1].hand@ + g.crib@ + starter_cards(g)
}

/// From the discard phase to the show, the zones together partition the
/// 52 unique cards: no card is lost and none appears twice.
pub open spec fn zones_partition(g: Game) -> bool {
    zone_cards(g).len() == 52 && zone_cards(g).no_duplicates()
}

/// Is the card a legal play for the player whose turn it is?
pub open spec fn spec_play_valid(g: Game, card: Card) -> bool {
    spec_card_playable(g.players@[g.player_index as int], card, sum_values(g.played@))
}

impl Game {
    /// A fresh game awaiting its two players.
    pub fn new() -> (g: Game)
        ensures
            game_wf(g),
            g.phase is AwaitingPlayers,
            g.players@.len() == 0,
            g.dealer_index == 0,
            g.player_index == 1,
            g.deck@.len() == 52,
            g.deck.wf(),
            g.crib@.len() == 0,
            g.starter is None,
            g.played@.len() == 0,
    {
        Game {
            players: Vec::new(),
            dealer_index: 0,
            player_index: 1,
            deck: Deck::new(),
            crib: Vec::new(),
            starter: None,
            played: Vec::new(),
            phase: GamePhase::AwaitingPlayers,
        }
    }

    /// Adds one of the two players; at most two may join.
    pub fn register_player(&mut self) -> (idx: usize)
        requires
            game_wf(*old(self)),
            old(self).phase is AwaitingPlayers,
            old(self).players@.len() < 2,
        ensures
            game_wf(*final(self)),
            final(self).phase is AwaitingPlayers,
            idx == old(self).players@.len(),
            final(self).players@.len() == old(self).players@.len() + 1,
            forall|j: int|
                0 <= j < old(self).players@.len() ==> final(self).players@[j] == old(
                    self,
                ).players@[j],
            final(self).players@[idx as int].score == 0,
            final(self).players@[idx as int].hand@.len() == 0,
            final(self).players@[idx as int].played@.len() == 0,
            !final(self).players@[idx as int].go,
            final(self).dealer_index == old(self).dealer_index,
            final(self).player_index == old(self).player_index,
            final(self).deck == old(self).deck,
            final(self).crib == old(self).crib,
            final(self).starter == old(self).starter,
            final(self).played == old(self).played,
    {
        let idx = self.players.len();
        self.players.push(Player::new());
        idx
    }

    /// Starts the game: one of the two players is drawn as first dealer,
    /// a fresh shuffled deck stands ready, and the round heads to the
    /// deal. Which player deals first depends on the random generator.
    pub fn start(&mut self)
        requires
            game_wf(*old(self)),
            old(self).phase is AwaitingPlayers,
            old(self).players@.len() == 2,
        ensures
            game_wf(*final(self)),
            final(self).phase is Deal,
            final(self).players@ == old(self).players@,
            final(self).dealer_index < 2,
            final(self).player_index == 1 - final(self).dealer_index,
    {
        let mut rng = fresh_rng();
        self.dealer_index = rng_range(&mut rng, 0, 2);
        self.player_index = (self.dealer_index + 1) % 2;
        self.deck = Deck::new();
        self.crib = Vec::new();
        self.starter = None;
        self.played = Vec::new();
        self.phase = GamePhase::Deal;
    }

    /// The player at a position.
    pub fn player_at(&self, i: usize) -> (p: &Player)
        requires
            i < self.players@.len(),
        ensures
            *p == self.players@[i as int],
    {
        &self.players[i]
    }

    /// The dealer of the current round.
    pub fn dealer(&self) -> (p: &Player)
        requires
            game_wf(*self),
            !(self.phase is AwaitingPlayers),
        ensures
            *p == self.players@[self.dealer_index as int],
    {
        &self.players[self.dealer_index]
    }

    /// The player whose turn it is.
    pub fn player(&self) -> (p: &Player)
        requires
            game_wf(*self),
            !(self.phase is AwaitingPlayers),
        ensures
            *p == self.players@[self.player_index as int],
    {
        &self.players[self.player_index]
    }

    /// The player whose turn it is not.
    pub fn next_player(&self) -> (p: &Player)
        requires
            game_wf(*self),
            !(self.phase is AwaitingPlayers),
        ensures
            *p == self.players@[1 - self.player_index as int],
    {
        &self.players[(self.player_index + 1) % 2]
    }

    /// The running count: the values of the cards played since the last
    /// reset.
    pub fn count(&self) -> (c: u8)
        requires
            game_wf(*self),
        ensures
            c == sum_values(self.played@),
            c <= 31,
    {
        let n = self.played.len();
        let mut sum: u8 = 0;
        let mut i: usize = 0;
        while i < n
            invariant
                i <= n,
                n == self.played@.len(),
                sum_values(self.played@) <= 31,
                sum == sum_values(self.played@.subrange(0, i as int)),
                sum <= 31,
            decreases n - i,
        {
            proof {
                assert(self.played@.subrange(0, i + 1 as int).drop_last() =~= self.played@.subrange(
                    0,
                    i as int,
                ));
                crate::counting::lemma_sum_values_prefix_le(self.played@, i + 1 as int);
                crate::counting::lemma_sum_values_bounds(self.played@.subrange(0, i + 1 as int));
            }
            sum = sum + self.played[i].count_value();
            i += 1;
        }
        proof {
            assert(self.played@.subrange(0, n as int) =~= self.played@);
        }
        sum
    }

    /// Toggles whose turn it is.
    fn switch_player(&mut self)
        requires
            old(self).player_index < 2,
        ensures
            final(self).player_index == 1 - old(self).player_index,
            final(self).players == old(self).players,
            final(self).dealer_index == old(self).dealer_index,
            final(self).deck == old(self).deck,
            final(self).crib == old(self).crib,
            final(self).starter == old(self).starter,
            final(self).played == old(self).played,
            final(self).phase == old(self).phase,
    {
        self.player_index = (self.player_index + 1) % 2;
    }

    /// Awards points to a player, capped at 121; true means the game is
    /// won. Nothing is awarded for zero points.
    fn add_score(&mut self, pidx: usize, pts: u8) -> (over: bool)
        requires
            pidx < old(self).players@.len(),
            pts <= 140,
            old(self).players@[pidx as int].score <= 121,
        ensures
            over == (pts > 0 && spec_capped(old(self).players@[pidx as int].score + pts) == 121),
            final(self).players@.len() == old(self).players@.len(),
            final(self).players@[pidx as int].score == (if pts == 0 {
                old(self).players@[pidx as int].score as int
            } else {
                spec_capped(old(self).players@[pidx as int].score + pts)
            }),
            final(self).players@[pidx as int].hand == old(self).players@[pidx as int].hand,
            final(self).players@[pidx as int].played == old(self).players@[pidx as int].played,
            final(self).players@[pidx as int].go == old(self).players@[pidx as int].go,
            forall|j: int|
                0 <= j < old(self).players@.len() && j != pidx ==> final(self).players@[j] == old(
                    self,
                ).players@[j],
            player_wf(old(self).players@[pidx as int]) ==> player_wf(
                final(self).players@[pidx as int],
            ),
            final(self).dealer_index == old(self).dealer_index,
            final(self).player_index == old(self).player_index,
            final(self).deck == old(self).deck,
            final(self).crib == old(self).crib,
            final(self).starter == old(self).starter,
            final(self).played == old(self).played,
            final(self).phase == old(self).phase,
    {
        if pts == 0 {
            return false;
        }
        let ghost before = self.players@;
        let mut p = self.players.remove(pidx);
        let ns = p.add_score(pts);
        self.players.insert(pidx, p);
        proof {
            assert(self.players@ =~= before.update(pidx as int, self.players@[pidx as int]));
        }
        ns == 121
    }

    /// Flips a player's go flag.
    fn set_go(&mut self, pidx: usize, val: bool)
        requires
            pidx < old(self).players@.len(),
        ensures
            final(self).players@.len() == old(self).players@.len(),
            final(self).players@[pidx as int].go == val,
            final(self).players@[pidx as int].score == old(self).players@[pidx as int].score,
            final(self).players@[pidx as int].hand == old(self).players@[pidx as int].hand,
            final(self).players@[pidx as int].played == old(self).players@[pidx as int].played,
            forall|j: int|
                0 <= j < old(self).players@.len() && j != pidx ==> final(self).players@[j] == old(
                    self,
                ).players@[j],
            player_wf(old(self).players@[pidx as int]) ==> player_wf(
                final(self).players@[pidx as int],
            ),
            final(self).dealer_index == old(self).dealer_index,
            final(self).player_index == old(self).player_index,
            final(self).deck == old(self).deck,
            final(self).crib == old(self).crib,
            final(self).starter == old(self).starter,
            final(self).played == old(self).played,
            final(self).phase == old(self).phase,
    {
        let ghost before = self.players@;
        let mut p = self.players.remove(pidx);
        p.go = val;
        self.players.insert(pidx, p);
        proof {
            assert(self.players@ =~= before.update(pidx as int, self.players@[pidx as int]));
        }
    }

    /// Deals six cards to each player from the fresh deck.
    pub fn deal(&mut self)
        requires
            game_wf(*old(self)),
            old(self).phase is Deal,
        ensures
            game_wf(*final(self)),
            final(self).phase is Discard,
            final(self).players@.len() == 2,
            final(self).players@[0].hand@.len() == 6,
            final(self).players@[1].hand@.len() == 6,
            final(self).players@[0].played@.len() == 0,
            final(self).players@[1].played@.len() == 0,
            final(self).players@[0].score == old(self).players@[0].score,
            final(self).players@[1].score == old(self).players@[1].score,
            final(self).deck@.len() == 40,
            final(self).crib@.len() == 0,
            final(self).dealer_index == old(self).dealer_index,
            final(self).player_index == old(self).player_index,
    {
        let cards0 = match self.deck.draw_n(6) {
            Ok(c) => c,
            Err(_) => vstd::pervasive::unreached(),
        };
        let ghost before0 = self.players@;
        let mut p0 = self.players.remove(0);
        p0.set_hand(&cards0);
        self.players.insert(0, p0);
        proof {
            assert(self.players@ =~= before0.update(0, self.players@[0]));
        }
        let cards1 = match self.deck.draw_n(6) {
            Ok(c) => c,
            Err(_) => vstd::pervasive::unreached(),
        };
        let ghost before1 = self.players@;
        let mut p1 = self.players.remove(1);
        p1.set_hand(&cards1);
        self.players.insert(1, p1);
        proof {
            assert(self.players@ =~= before1.update(1, self.players@[1]));
        }
        self.phase = GamePhase::Discard;
    }

    /// A player's answer to the deal: exactly two held cards for the
    /// crib. An answer that does not leave four cards in the hand, or
    /// comes from a player who has already discarded, changes nothing and
    /// asks to be repeated.
    pub fn apply_discard(&mut self, pidx: usize, discarded: &[Card; 2]) -> (ok: bool)
        requires
            game_wf(*old(self)),
            old(self).phase is Discard,
            pidx < 2,
        ensures
            game_wf(*final(self)),
            ok == spec_discard_valid(*old(self), pidx as int, *discarded),
            !ok ==> *final(self) == *old(self),
            ok ==> {
                &&& final(self).players@[pidx as int].hand@ == old(
                    self,
                ).players@[pidx as int].hand@.filter(|c: Card| !discarded@.contains(c))
                &&& final(self).players@[pidx as int].hand@.len() == 4
                &&& final(self).players@[pidx as int].score == old(
                    self,
                ).players@[pidx as int].score
                &&& final(self).players@[pidx as int].go == old(self).players@[pidx as int].go
                &&& final(self).players@[pidx as int].played@.len() == 0
                &&& final(self).players@[1 - pidx as int] == old(self).players@[1 - pidx as int]
                &&& final(self).crib@ == old(self).crib@.push(discarded@[0]).push(discarded@[1])
                &&& final(self).phase == (if old(self).crib@.len() == 2 {
                    GamePhase::Cut
                } else {
                    GamePhase::Discard
                })
                &&& final(self).deck == old(self).deck
                &&& final(self).starter == old(self).starter
                &&& final(self).played == old(self).played
                &&& final(self).dealer_index == old(self).dealer_index
                &&& final(self).player_index == old(self).player_index
            },
    {
        if self.players[pidx].hand.len() != 6 {
            return false;
        }
        let new_hand = filter_out_discarded(&self.players[pidx].hand, discarded);
        if new_hand.len() != 4 {
            return false;
        }
        let ghost before = self.players@;
        let mut p = self.players.remove(pidx);
        p.set_hand(&new_hand);
        self.players.insert(pidx, p);
        proof {
            assert(self.players@ =~= before.update(pidx as int, self.players@[pidx as int]));
        }
        self.crib.push(discarded[0]);
        self.crib.push(discarded[1]);
        if self.crib.len() == 4 {
            self.phase = GamePhase::Cut;
        }
        proof {
            lemma_discard_keeps_partition(*old(self), *self, pidx as int, *discarded);
        }
        true
    }

    /// Cuts the starter from the deck. A Jack is two at once for the
    /// dealer, "his heels", and can end the game on the spot.
    pub fn cut(&mut self)
        requires
            game_wf(*old(self)),
            old(self).phase is Cut,
        ensures
            game_wf(*final(self)),
            final(self).starter == Some(old(self).deck@.last()),
            final(self).deck@ == old(self).deck@.drop_last(),
            ({
                let d = old(self).dealer_index as int;
                let heels: int = if old(self).deck@.last().rank == Rank::Jack {
                    2
                } else {
                    0
                };
                let ns = spec_capped(old(self).players@[d].score + heels);
                &&& final(self).players@[d].score == ns
                &&& final(self).players@[1 - d] == old(self).players@[1 - d]
                &&& final(self).players@[d].hand == old(self).players@[d].hand
                &&& final(self).players@[d].played == old(self).players@[d].played
                &&& final(self).phase == (if ns == 121 {
                    GamePhase::Over
                } else {
                    GamePhase::Play
                })
            }),
            final(self).crib == old(self).crib,
            final(self).played == old(self).played,
            final(self).dealer_index == old(self).dealer_index,
            final(self).player_index == old(self).player_index,
    {
        let starter = match self.deck.draw() {
            Ok(c) => c,
            Err(_) => vstd::pervasive::unreached(),
        };
        self.starter = Some(starter);
        if matches!(starter.rank(), Rank::Jack) {
            let over = self.add_score(self.dealer_index, 2);
            if over {
                self.phase = GamePhase::Over;
                return;
            }
        }
        proof {
            lemma_cut_keeps_partition(*old(self), *self);
        }
        self.phase = GamePhase::Play;
    }
}

impl Game {
    /// Lays down one card for the player whose turn it is. An illegal
    /// card — not held, already played, or pushing the count past 31 —
    /// changes nothing and asks to be repeated. A legal card is scored at
    /// once; reaching exactly 31 or playing the last card settles the
    /// sub-round with its bonus and resets the count. The game ends the
    /// instant any award reaches 121.
    pub fn apply_play(&mut self, card: Card) -> (ok: bool)
        requires
            game_wf(*old(self)),
            old(self).phase is Play,
        ensures
            game_wf(*final(self)),
            ok == spec_play_valid(*old(self), card),
            !ok ==> *final(self) == *old(self),
            ok ==> ({
                let cur = old(self).player_index as int;
                let p0 = old(self).players@[cur];
                let newplayed = old(self).played@.push(card);
                let pts = crate::the_play::spec_play_score(newplayed);
                let s1 = spec_capped(p0.score + pts);
                let count1 = sum_values(newplayed);
                let allout = p0.played@.len() + 1 == p0.hand@.len() && old(self).players@[1
                    - cur].played@.len() == old(self).players@[1 - cur].hand@.len();
                &&& final(self).players@[cur].played@ == p0.played@.push(card)
                &&& final(self).players@[cur].hand == p0.hand
                &&& final(self).players@[1 - cur].score == old(self).players@[1 - cur].score
                &&& final(self).dealer_index == old(self).dealer_index
                &&& final(self).deck == old(self).deck
                &&& final(self).crib == old(self).crib
                &&& final(self).starter == old(self).starter
                &&& if s1 == 121 {
                    &&& final(self).phase is Over
                    &&& final(self).players@[cur].score == 121
                    &&& final(self).played@ == newplayed
                    &&& final(self).player_index == old(self).player_index
                } else if count1 == 31 || allout {
                    let award: int = if count1 == 31 {
                        2
                    } else {
                        1
                    };
                    let s2 = spec_capped(s1 + award);
                    if s2 == 121 {
                        &&& final(self).phase is Over
                        &&& final(self).players@[cur].score == 121
                        &&& final(self).played@ == newplayed
                        &&& final(self).player_index == old(self).player_index
                    } else {
                        &&& final(self).players@[cur].score == s2
                        &&& final(self).played@.len() == 0
                        &&& !final(self).players@[0].go && !final(self).players@[1].go
                        &&& final(self).player_index == 1 - old(self).player_index
                        &&& final(self).phase == (if allout {
                            GamePhase::Show
                        } else {
                            GamePhase::Play
                        })
                    }
                } else {
                    &&& final(self).players@[cur].score == s1
                    &&& final(self).played@ == newplayed
                    &&& final(self).player_index == 1 - old(self).player_index
                    &&& final(self).phase is Play
                    &&& final(self).players@[cur].go == p0.go
                    &&& final(self).players@[1 - cur].go == old(self).players@[1 - cur].go
                }
            }),
    {
        let cur = self.player_index;
        let cnt = self.count();
        let v = card.count_value();
        let in_hand = contains_card(&self.players[cur].hand, card);
        let already = contains_card(&self.players[cur].played, card);
        if !in_hand || already || (v as u16) + (cnt as u16) > 31 {
            return false;
        }
        let ghost before = self.players@;
        let mut p = self.players.remove(cur);
        p.played.push(card);
        proof {
            assert(p.hand@.contains(card));
            if p.played@.drop_last().contains(card) {
                assert(false);
            }
            assert(p.played@.drop_last() =~= old(self).players@[cur as int].played@);
            assert forall|i: int| 0 <= i < p.played@.len() implies p.hand@.contains(
                #[trigger] p.played@[i],
            ) by {
                if i < p.played@.len() - 1 {
                    assert(p.played@[i] == old(self).players@[cur as int].played@[i]);
                }
            }
            assert(p.played@.no_duplicates());
            // the played card was not yet played, so the played pile was
            // strictly smaller than the hand
            lemma_unplayed_means_room(old(self).players@[cur as int], card);
        }
        self.players.insert(cur, p);
        proof {
            assert(self.players@ =~= before.update(cur as int, self.players@[cur as int]));
        }
        self.played.push(card);
        proof {
            assert(self.played@.drop_last() =~= old(self).played@);
            assert(sum_values(self.played@) == sum_values(old(self).played@) + spec_count_value(
                card.rank,
            ));
        }
        let pts = crate::the_play::score_the_play(&self.played);
        let over = self.add_score(cur, pts);
        if over {
            self.phase = GamePhase::Over;
            return true;
        }
        let count1 = self.count();
        let allout = self.player_at(0).played_out() && self.player_at(1).played_out();
        if count1 == 31 || allout {
            let award: u8 = if count1 == 31 {
                2
            } else {
                1
            };
            let over2 = self.add_score(cur, award);
            if over2 {
                self.phase = GamePhase::Over;
                return true;
            }
            self.played = Vec::new();
            self.set_go(0, false);
            self.set_go(1, false);
        }
        self.switch_player();
        if allout {
            self.phase = GamePhase::Show;
        } else {
            self.phase = GamePhase::Play;
        }
        true
    }

    /// The turn of a player with no legal card. When the opponent has
    /// already said "go", the point for the go falls to this player — the
    /// last to have played — and the count resets; otherwise the player
    /// says "go" and the turn passes.
    pub fn play_go(&mut self)
        requires
            game_wf(*old(self)),
            old(self).phase is Play,
            !spec_can_play(
                old(self).players@[old(self).player_index as int],
                sum_values(old(self).played@),
            ),
        ensures
            game_wf(*final(self)),
            ({
                let cur = old(self).player_index as int;
                let nxt = 1 - cur;
                let p0 = old(self).players@[cur];
                &&& final(self).players@[cur].hand == p0.hand
                &&& final(self).players@[cur].played == p0.played
                &&& final(self).players@[nxt].score == old(self).players@[nxt].score
                &&& final(self).dealer_index == old(self).dealer_index
                &&& final(self).deck == old(self).deck
                &&& final(self).crib == old(self).crib
                &&& final(self).starter == old(self).starter
                &&& if old(self).players@[nxt].go {
                    let s2 = spec_capped(p0.score + 1);
                    if s2 == 121 {
                        &&& final(self).phase is Over
                        &&& final(self).players@[cur].score == 121
                        &&& final(self).played == old(self).played
                        &&& final(self).player_index == old(self).player_index
                    } else {
                        &&& final(self).phase is Play
                        &&& final(self).players@[cur].score == s2
                        &&& final(self).played@.len() == 0
                        &&& !final(self).players@[0].go && !final(self).players@[1].go
                        &&& final(self).player_index == nxt
                    }
                } else {
                    &&& final(self).phase is Play
                    &&& final(self).players@[cur].score == p0.score
                    &&& final(self).played == old(self).played
                    &&& final(self).players@[cur].go == (p0.go || !old(self).players@[nxt].go)
                    &&& final(self).players@[nxt].go == old(self).players@[nxt].go
                    &&& final(self).player_index == nxt
                }
            }),
    {
        let cur = self.player_index;
        let nxt = (cur + 1) % 2;
        if self.player_at(nxt).go {
            let over = self.add_score(cur, 1);
            if over {
                self.phase = GamePhase::Over;
                return;
            }
            self.played = Vec::new();
            self.set_go(0, false);
            self.set_go(1, false);
            self.switch_player();
        } else {
            self.set_go(cur, true);
            self.switch_player();
        }
    }

    /// Scores the show: the non-dealer's hand, the dealer's hand, then
    /// the crib for the dealer, each against the starter. Scoring stops
    /// the instant an award ends the game.
    pub fn show(&mut self)
        requires
            game_wf(*old(self)),
            old(self).phase is Show,
        ensures
            game_wf(*final(self)),
            ({
                let d = old(self).dealer_index as int;
                let nd = 1 - d;
                let st = old(self).starter->0;
                let nd_pts = crate::score_hand::spec_show_score(old(self).players@[nd].hand@, st);
                let nds = spec_capped(old(self).players@[nd].score + nd_pts);
                let d_pts = crate::score_hand::spec_show_score(old(self).players@[d].hand@, st);
                let crib_pts = crate::score_hand::spec_crib_show_score(old(self).crib@, st);
                &&& final(self).players@[nd].score == nds
                &&& (nds == 121 ==> final(self).phase is Over && final(self).players@[d].score
                    == old(self).players@[d].score)
                &&& (nds < 121 ==> {
                    let ds1 = spec_capped(old(self).players@[d].score + d_pts);
                    &&& (ds1 == 121 ==> final(self).phase is Over
                        && final(self).players@[d].score == 121)
                    &&& (ds1 < 121 ==> {
                        let ds2 = spec_capped(ds1 + crib_pts);
                        &&& final(self).players@[d].score == ds2
                        &&& final(self).phase == (if ds2 == 121 {
                            GamePhase::Over
                        } else {
                            GamePhase::Cleanup
                        })
                    })
                })
            }),
            final(self).dealer_index == old(self).dealer_index,
            final(self).player_index == old(self).player_index,
            final(self).deck == old(self).deck,
            final(self).crib == old(self).crib,
            final(self).starter == old(self).starter,
            final(self).played == old(self).played,
    {
        let st = match self.starter {
            Some(c) => c,
            None => vstd::pervasive::unreached(),
        };
        let nd = (self.dealer_index + 1) % 2;
        let nd_hand = crate::counting::clone_cards(&self.players[nd].hand);
        let s = crate::score_hand::score_hand(&nd_hand, &st);
        let over = self.add_score(nd, s);
        if over {
            self.phase = GamePhase::Over;
            return;
        }
        let d = self.dealer_index;
        let d_hand = crate::counting::clone_cards(&self.players[d].hand);
        let s2 = crate::score_hand::score_hand(&d_hand, &st);
        let over2 = self.add_score(d, s2);
        if over2 {
            self.phase = GamePhase::Over;
            return;
        }
        let crib_cards = crate::counting::clone_cards(&self.crib);
        let s3 = crate::score_hand::score_crib(&crib_cards, &st);
        let over3 = self.add_score(d, s3);
        if over3 {
            self.phase = GamePhase::Over;
            return;
        }
        self.phase = GamePhase::Cleanup;
    }

    /// Ends the round: the deal rotates, a fresh shuffled deck stands
    /// ready, and crib, starter, played cards and go flags are cleared.
    pub fn cleanup(&mut self)
        requires
            game_wf(*old(self)),
            old(self).phase is Cleanup,
        ensures
            game_wf(*final(self)),
            final(self).phase is Deal,
            final(self).dealer_index == 1 - old(self).dealer_index,
            final(self).player_index == 1 - final(self).dealer_index,
            final(self).players@[0].score == old(self).players@[0].score,
            final(self).players@[1].score == old(self).players@[1].score,
            final(self).deck@.len() == 52,
            final(self).crib@.len() == 0,
            final(self).starter is None,
            final(self).played@.len() == 0,
    {
        self.dealer_index = (self.dealer_index + 1) % 2;
        self.player_index = (self.dealer_index + 1) % 2;
        self.deck = Deck::new();
        self.crib = Vec::new();
        self.starter = None;
        self.played = Vec::new();
        self.set_go(0, false);
        self.set_go(1, false);
        self.phase = GamePhase::Deal;
    }
}

/// The running count never exceeds 31: every step keeps the game well
/// formed, every play is validated against the count, and the count is
/// reset the moment it reaches 31.
pub proof fn lemma_running_count_bounded(g: Game)
    requires
        game_wf(g),
    ensures
        sum_values(g.played@) <= 31,
{
}

/// Scores never pass 121, and the game is over the instant a score
/// reaches it: in every well-formed state that is not yet over, both
/// players stand strictly below 121, so no further points are ever
/// awarded to a finished game — every scoring step requires an unfinished
/// phase.
pub proof fn lemma_game_ends_at_121(g: Game)
    requires
        game_wf(g),
    ensures
        forall|i: int| 0 <= i < g.players@.len() ==> (#[trigger] g.players@[i]).score <= 121,
        !(g.phase is Over) ==> forall|i: int|
            0 <= i < g.players@.len() ==> (#[trigger] g.players@[i]).score < 121,
{
}

/// Moving the starter from the deck to its own zone moves cards around
/// without creating or losing any: the partition survives the cut.
proof fn lemma_cut_keeps_partition(g1: Game, g2: Game)
    requires
        game_wf(g1),
        g1.phase is Cut,
        g1.deck@.len() > 0,
        g2.deck@ == g1.deck@.drop_last(),
        g2.starter == Some(g1.deck@.last()),
        g2.players@.len() == 2,
        g2.players@[0].hand == g1.players@[0].hand,
        g2.players@[1].hand == g1.players@[1].hand,
        g2.crib == g1.crib,
    ensures
        zones_partition(g2),
{
    broadcast use vstd::seq_lib::group_to_multiset_ensures;
    broadcast use vstd::seq_lib::lemma_multiset_commutative;
    broadcast use vstd::multiset::group_multiset_axioms;

    let z1 = zone_cards(g1);
    let z2 = zone_cards(g2);
    let last = g1.deck@.last();
    assert(g1.deck@ =~= g2.deck@.push(last));
    assert(starter_cards(g1) =~= Seq::<Card>::empty());
    assert(starter_cards(g2) =~= Seq::<Card>::empty().push(last));
    assert(Seq::<Card>::empty().to_multiset() =~= Multiset::<Card>::empty());
    assert(z2.to_multiset() =~= z1.to_multiset());
    crate::counting::lemma_same_multiset_no_dup(z1, z2);
}

/// Moving two cards from a hand to the crib moves cards around without
/// creating or losing any: the partition survives a discard.
proof fn lemma_discard_keeps_partition(g1: Game, g2: Game, pidx: int, discarded: [Card; 2])
    requires
        game_wf(g1),
        g1.phase is Discard,
        0 <= pidx < 2,
        g1.players@[pidx].hand@.len() == 6,
        g2.players@.len() == 2,
        g2.players@[pidx].hand@ == g1.players@[pidx].hand@.filter(
            |c: Card| !discarded@.contains(c),
        ),
        g2.players@[pidx].hand@.len() == 4,
        g2.players@[1 - pidx].hand == g1.players@[1 - pidx].hand,
        g2.crib@ == g1.crib@.push(discarded@[0]).push(discarded@[1]),
        g2.deck == g1.deck,
        g2.starter == g1.starter,
    ensures
        zones_partition(g2),
{
    broadcast use vstd::seq_lib::group_to_multiset_ensures;
    broadcast use vstd::seq_lib::lemma_multiset_commutative;
    broadcast use vstd::multiset::group_multiset_axioms;

    let hand = g1.players@[pidx].hand@;
    let keep = |c: Card| !discarded@.contains(c);
    let toss = |c: Card| discarded@.contains(c);
    crate::counting::lemma_filter_partition(hand, keep, toss);
    let kept = hand.filter(keep);
    let removed = hand.filter(toss);
    vstd::seq_lib::to_multiset_len(hand);
    vstd::seq_lib::to_multiset_len(kept);
    vstd::seq_lib::to_multiset_len(removed);
    assert(removed.len() == 2);
    let d0 = discarded@[0];
    let d1 = discarded@[1];
    // each removed card is one of the two discarded
    assert forall|k: int| 0 <= k < removed.len() implies discarded@.contains(
        #[trigger] removed[k],
    ) by {
        hand.lemma_filter_pred(toss, k);
    }
    assert(discarded@.len() == 2);
    assert(removed[0] == d0 || removed[0] == d1);
    assert(removed[1] == d0 || removed[1] == d1);
    // the hand held no duplicates, so the two removed cards differ
    assert(hand.no_duplicates());
    hand.lemma_multiset_has_no_duplicates();
    if removed[0] == removed[1] {
        assert(removed =~= Seq::<Card>::empty().push(removed[0]).push(removed[0]));
        assert(removed.to_multiset().count(removed[0]) == 2);
        assert(hand.to_multiset().count(removed[0]) >= 2);
        assert(hand.to_multiset().contains(removed[0]));
        assert(false);
    }
    // so the removed cards are exactly the two discarded, in one order or
    // the other
    assert(removed =~= Seq::<Card>::empty().push(removed[0]).push(removed[1]));
    if removed[0] == d0 {
        assert(removed[1] == d1);
    } else {
        assert(removed[0] == d1 && removed[1] == d0);
    }
    assert(removed.to_multiset() =~= Multiset::<Card>::empty().insert(d0).insert(d1));
    assert(g2.crib@.to_multiset() =~= g1.crib@.to_multiset().insert(d0).insert(d1));
    let z1 = zone_cards(g1);
    let z2 = zone_cards(g2);
    assert(z2.to_multiset() =~= z1.to_multiset());
    crate::counting::lemma_same_multiset_no_dup(z1, z2);
}

/// A card that is held but not yet played leaves the played pile strictly
/// smaller than the hand.
proof fn lemma_unplayed_means_room(p: Player, card: Card)
    requires
        player_wf(p),
        p.hand@.contains(card),
        !p.played@.contains(card),
    ensures
        p.played@.len() < p.hand@.len(),
{
    broadcast use vstd::seq_lib::group_to_multiset_ensures;

    let withc = p.played@.push(card);
    assert(withc.no_duplicates()) by {
        assert forall|i: int, j: int|
            0 <= i < withc.len() && 0 <= j < withc.len() && i != j implies withc[i] != withc[j] by {
            if i < withc.len() - 1 && j < withc.len() - 1 {
                assert(withc[i] == p.played@[i] && withc[j] == p.played@[j]);
            }
        }
    }
    assert(forall|i: int| 0 <= i < withc.len() ==> p.hand@.contains(#[trigger] withc[i]));
    lemma_distinct_subset_len(withc, p.hand@);
}

/// Distinct cards all drawn from a pool are no more numerous than the pool.
proof fn lemma_distinct_subset_len(s: Seq<Card>, pool: Seq<Card>)
    requires
        s.no_duplicates(),
        pool.no_duplicates(),
        forall|i: int| 0 <= i < s.len() ==> pool.contains(#[trigger] s[i]),
    ensures
        s.len() <= pool.len(),
    decreases s.len(),
{
    if s.len() > 0 {
        let x = s.last();
        assert(pool.contains(x));
        let j = choose|j: int| 0 <= j < pool.len() && pool[j] == x;
        let pool2 = pool.remove(j);
        assert(pool2.no_duplicates()) by {
            assert forall|a: int, b: int|
                0 <= a < pool2.len() && 0 <= b < pool2.len() && a != b implies pool2[a]
                != pool2[b] by {
                assert(pool2[a] == (if a < j {
                    pool[a]
                } else {
                    pool[a + 1]
                }));
                assert(pool2[b] == (if b < j {
                    pool[b]
                } else {
                    pool[b + 1]
                }));
            }
        }
        let s2 = s.drop_last();
        assert forall|i: int| 0 <= i < s2.len() implies pool2.contains(#[trigger] s2[i]) by {
            assert(s2[i] == s[i]);
            assert(pool.contains(s[i]));
            let k = choose|k: int| 0 <= k < pool.len() && pool[k] == s[i];
            assert(s[i] != x);
            assert(k != j);
            if k < j {
                assert(pool2[k] == pool[k]);
            } else {
                assert(pool2[k - 1] == pool[k]);
            }
        }
        lemma_distinct_subset_len(s2, pool2);
    }
}

/// Does the discard leave the player's six-card hand at exactly four?
pub open spec fn spec_discard_valid(g: Game, pidx: int, discarded: [Card; 2]) -> bool {
    &&& g.players@[pidx].hand@.len() == 6
    &&& g.players@[pidx].hand@.filter(|c: Card| !discarded@.contains(c)).len() == 4
}

/// The hand without the two discarded cards.
fn filter_out_discarded(hand: &Vec<Card>, discarded: &[Card; 2]) -> (r: Vec<Card>)
    requires
        hand@.no_duplicates(),
        hand@.len() <= 6,
    ensures
        r@ == hand@.filter(|c: Card| !discarded@.contains(c)),
        r@.no_duplicates(),
        r@.len() <= hand@.len(),
{
    let ghost pred = |c: Card| !discarded@.contains(c);
    let mut r: Vec<Card> = Vec::new();
    let mut i: usize = 0;
    proof {
        reveal(Seq::filter);
        assert(hand@.subrange(0, 0).filter(pred) =~= Seq::<Card>::empty());
    }
    while i < hand.len()
        invariant
            i <= hand@.len(),
            hand@.no_duplicates(),
            pred == (|c: Card| !discarded@.contains(c)),
            r@ == hand@.subrange(0, i as int).filter(pred),
            r@.no_duplicates(),
            forall|k: int|
                0 <= k < r@.len() ==> hand@.subrange(0, i as int).contains(#[trigger] r@[k]),
        decreases hand@.len() - i,
    {
        let c = hand[i];
        let d0 = discarded[0];
        let d1 = discarded[1];
        let keep = !crate::card::card_is(c, d0) && !crate::card::card_is(c, d1);
        proof {
            assert(discarded@.len() == 2);
            assert(discarded@[0] == d0 && discarded@[1] == d1);
            if keep {
                assert(forall|k: int| 0 <= k < 2 ==> discarded@[k] != c);
                assert(!discarded@.contains(c));
            } else {
                assert(discarded@.contains(c));
            }
        }
        if keep {
            proof {
                if r@.contains(c) {
                    let k = choose|k: int| 0 <= k < r@.len() && r@[k] == c;
                    assert(hand@.subrange(0, i as int).contains(c));
                    let j = choose|j: int| 0 <= j < i && hand@.subrange(0, i as int)[j] == c;
                    assert(hand@[j] == c && hand@[i as int] == c);
                }
            }
            r.push(c);
        }
        proof {
            reveal(Seq::filter);
            let pre = hand@.subrange(0, i as int);
            let post = hand@.subrange(0, i + 1 as int);
            assert(post.drop_last() =~= pre);
            assert(post.last() == c);
            assert forall|k: int| 0 <= k < r@.len() implies hand@.subrange(0, i + 1 as int).contains(
                #[trigger] r@[k],
            ) by {
                if k < r@.len() - 1 || !keep {
                    assert(hand@.subrange(0, i as int).contains(r@[k]));
                    let j = choose|j: int|
                        0 <= j < i && hand@.subrange(0, i as int)[j] == r@[k];
                    assert(hand@.subrange(0, i + 1 as int)[j] == r@[k]);
                } else {
                    assert(r@[k] == c);
                    assert(hand@.subrange(0, i + 1 as int)[i as int] == c);
                }
            }
        }
        i += 1;
    }
    proof {
        assert(hand@.subrange(0, hand@.len() as int) =~= hand@);
        hand@.lemma_filter_len(pred);
    }
    r
}

} // verus!
