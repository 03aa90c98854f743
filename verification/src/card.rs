//! Cards and the shuffled deck: suits, ranks, counting values, run
//! orders, and drawing without replacement.

use vstd::prelude::*;
use vstd::seq_lib::group_to_multiset_ensures;

verus! {

/// The four suits of a standard deck.
#[derive(Clone, Copy, Debug, PartialEq, Eq, Structural)]
pub enum Suit {
    Clubs,
    Diamonds,
    Hearts,
    Spades,
}

/// The thirteen ranks of a standard deck.
#[derive(Clone, Copy, Debug, PartialEq, Eq, Structural)]
pub enum Rank {
    Ace,
    Two,
    Three,
    Four,
    Five,
    Six,
    Seven,
    Eight,
    Nine,
    Ten,
    Jack,
    Queen,
    King,
}

/// An immutable card: a suit and a rank.
#[derive(Clone, Copy, Debug, PartialEq, Eq, Structural)]
pub struct Card {
    pub suit: Suit,
    pub rank: Rank,
}

/// The value a rank contributes to the running count during the play
/// and to fifteens during the show: Ace counts 1, face cards count 10.
pub open spec fn spec_count_value(r: Rank) -> int {
    match r {
        Rank::Ace => 1,
        Rank::Two => 2,
        Rank::Three => 3,
        Rank::Four => 4,
        Rank::Five => 5,
        Rank::Six => 6,
        Rank::Seven => 7,
        Rank::Eight => 8,
        Rank::Nine => 9,
        Rank::Ten => 10,
        Rank::Jack => 10,
        Rank::Queen => 10,
        Rank::King => 10,
    }
}

/// The position of a rank in the total order used for run detection:
/// Ace is 0, King is 12.
pub open spec fn spec_run_order(r: Rank) -> int {
    match r {
        Rank::Ace => 0,
        Rank::Two => 1,
        Rank::Three => 2,
        Rank::Four => 3,
        Rank::Five => 4,
        Rank::Six => 5,
        Rank::Seven => 6,
        Rank::Eight => 7,
        Rank::Nine => 8,
        Rank::Ten => 9,
        Rank::Jack => 10,
        Rank::Queen => 11,
        Rank::King => 12,
    }
}

/// The rank whose run order is `o`, for `0 <= o < 13`.
pub open spec fn spec_rank_from_run_order(o: int) -> Rank {
    if o == 0 {
        Rank::Ace
    } else if o == 1 {
        Rank::Two
    } else if o == 2 {
        Rank::Three
    } else if o == 3 {
        Rank::Four
    } else if o == 4 {
        Rank::Five
    } else if o == 5 {
        Rank::Six
    } else if o == 6 {
        Rank::Seven
    } else if o == 7 {
        Rank::Eight
    } else if o == 8 {
        Rank::Nine
    } else if o == 9 {
        Rank::Ten
    } else if o == 10 {
        Rank::Jack
    } else if o == 11 {
        Rank::Queen
    } else {
        Rank::King
    }
}

impl Card {
    pub fn new(suit: Suit, rank: Rank) -> (c: Self)
        ensures
            c == (Card { suit, rank }),
    {
        Card { suit, rank }
    }

    pub fn suit(&self) -> (s: Suit)
        ensures
            s == self.suit,
    {
        self.suit
    }

    pub fn rank(&self) -> (r: Rank)
        ensures
            r == self.rank,
    {
        self.rank
    }

    /// The value used when counting during the play or fifteens during the show.
    pub fn count_value(&self) -> (v: u8)
        ensures
            v == spec_count_value(self.rank),
    {
        match self.rank {
            Rank::Ace => 1,
            Rank::Two => 2,
            Rank::Three => 3,
            Rank::Four => 4,
            Rank::Five => 5,
            Rank::Six => 6,
            Rank::Seven => 7,
            Rank::Eight => 8,
            Rank::Nine => 9,
            Rank::Ten => 10,
            Rank::Jack => 10,
            Rank::Queen => 10,
            Rank::King => 10,
        }
    }

    /// The order of a card when sorted for a run.
    pub fn run_order(&self) -> (o: u8)
        ensures
            o == spec_run_order(self.rank),
    {
        match self.rank {
            Rank::Ace => 0,
            Rank::Two => 1,
            Rank::Three => 2,
            Rank::Four => 3,
            Rank::Five => 4,
            Rank::Six => 5,
            Rank::Seven => 6,
            Rank::Eight => 7,
            Rank::Nine => 8,
            Rank::Ten => 9,
            Rank::Jack => 10,
            Rank::Queen => 11,
            Rank::King => 12,
        }
    }

    /// Compares two cards by their run order alone.
    pub fn run_cmp(&self, other: &Self) -> (o: core::cmp::Ordering)
        ensures
            o == core::cmp::Ordering::Greater <==> spec_run_order(self.rank) > spec_run_order(
                other.rank,
            ),
            o == core::cmp::Ordering::Less <==> spec_run_order(self.rank) < spec_run_order(
                other.rank,
            ),
            o == core::cmp::Ordering::Equal <==> spec_run_order(self.rank) == spec_run_order(
                other.rank,
            ),
    {
        let a = self.run_order();
        let b = other.run_order();
        if a > b {
            core::cmp::Ordering::Greater
        } else if a < b {
            core::cmp::Ordering::Less
        } else {
            core::cmp::Ordering::Equal
        }
    }
}

/// The suit at a given position of the canonical suit order.
pub open spec fn spec_suit_from_index(i: int) -> Suit {
    if i == 0 {
        Suit::Clubs
    } else if i == 1 {
        Suit::Diamonds
    } else if i == 2 {
        Suit::Hearts
    } else {
        Suit::Spades
    }
}

/// The position of a suit in the canonical suit order.
pub open spec fn spec_suit_index(s: Suit) -> int {
    match s {
        Suit::Clubs => 0,
        Suit::Diamonds => 1,
        Suit::Hearts => 2,
        Suit::Spades => 3,
    }
}

/// The card at position `k` of the freshly built deck: suits in canonical
/// order, each holding its thirteen ranks in run order.
pub open spec fn spec_card_at(k: int) -> Card {
    Card { suit: spec_suit_from_index(k / 13), rank: spec_rank_from_run_order(k % 13) }
}

/// The suit at a given position of the canonical suit order, for `i < 4`.
pub fn suit_from_index(i: u8) -> (s: Suit)
    requires
        i < 4,
    ensures
        s == spec_suit_from_index(i as int),
{
    match i {
        0 => Suit::Clubs,
        1 => Suit::Diamonds,
        2 => Suit::Hearts,
        _ => Suit::Spades,
    }
}

/// Are two cards the same?
pub fn card_is(a: Card, b: Card) -> (r: bool)
    ensures
        r == (a == b),
{
    a == b
}

/// Are two suits the same?
pub fn suit_is(a: Suit, b: Suit) -> (r: bool)
    ensures
        r == (a == b),
{
    a == b
}

/// The position of a suit in the canonical suit order.
pub fn suit_index(s: Suit) -> (i: u8)
    ensures
        i == spec_suit_index(s),
{
    match s {
        Suit::Clubs => 0,
        Suit::Diamonds => 1,
        Suit::Hearts => 2,
        Suit::Spades => 3,
    }
}

/// The rank at a given run order, or `None` when the order is out of range.
pub fn rank_from_run_order(o: u8) -> (r: Option<Rank>)
    ensures
        0 <= o <= 12 ==> r == Some(spec_rank_from_run_order(o as int)),
        o > 12 ==> r is None,
{
    match o {
        0 => Some(Rank::Ace),
        1 => Some(Rank::Two),
        2 => Some(Rank::Three),
        3 => Some(Rank::Four),
        4 => Some(Rank::Five),
        5 => Some(Rank::Six),
        6 => Some(Rank::Seven),
        7 => Some(Rank::Eight),
        8 => Some(Rank::Nine),
        9 => Some(Rank::Ten),
        10 => Some(Rank::Jack),
        11 => Some(Rank::Queen),
        12 => Some(Rank::King),
        _ => None,
    }
}

pub proof fn lemma_run_order_range(r: Rank)
    ensures
        0 <= spec_run_order(r) <= 12,
{
}

pub proof fn lemma_rank_roundtrip(r: Rank)
    ensures
        spec_rank_from_run_order(spec_run_order(r)) == r,
{
}

pub proof fn lemma_run_order_roundtrip(o: int)
    requires
        0 <= o < 13,
    ensures
        spec_run_order(spec_rank_from_run_order(o)) == o,
{
}

/// A draw was requested that exceeds what the deck still holds.
#[derive(Debug)]
pub struct InsufficientCardsError;

#[verifier::external_type_specification]
#[verifier::external_body]
pub struct ExThreadRng(rand::rngs::ThreadRng);

/// Relies on rand::thread_rng: a handle to the thread-local generator.
/// Nothing is promised of it; it panics only if the operating system's
/// entropy source cannot be reached at all.
#[verifier::external_body]
pub(crate) fn fresh_rng() -> rand::rngs::ThreadRng {
    rand::thread_rng()
}

/// Relies on rand::Rng::gen_range: a sample within the given half-open
/// range. It panics only on an empty range, which the precondition rules
/// out. The result depends on the generator's state, so no more is stated.
#[verifier::external_body]
pub(crate) fn rng_range(rng: &mut rand::rngs::ThreadRng, lo: usize, hi: usize) -> (r: usize)
    requires
        lo < hi,
    ensures
        lo <= r < hi,
{
    rand::Rng::gen_range(rng, lo..hi)
}

/// Round trip: the canonical position of a card leads back to that card.
proof fn lemma_card_at_roundtrip(c: Card)
    ensures
        0 <= 13 * spec_suit_index(c.suit) + spec_run_order(c.rank) < 52,
        spec_card_at(13 * spec_suit_index(c.suit) + spec_run_order(c.rank)) == c,
{
    let k = 13 * spec_suit_index(c.suit) + spec_run_order(c.rank);
    assert(k / 13 == spec_suit_index(c.suit) && k % 13 == spec_run_order(c.rank))
        by (nonlinear_arith)
        requires
            0 <= spec_suit_index(c.suit) < 4,
            0 <= spec_run_order(c.rank) < 13,
            k == 13 * spec_suit_index(c.suit) + spec_run_order(c.rank),
    ;
    assert(spec_suit_from_index(spec_suit_index(c.suit)) == c.suit);
    assert(spec_rank_from_run_order(spec_run_order(c.rank)) == c.rank);
}

/// Distinct positions of the canonical deck hold distinct cards.
proof fn lemma_card_at_injective(a: int, b: int)
    requires
        0 <= a < 52,
        0 <= b < 52,
        spec_card_at(a) == spec_card_at(b),
    ensures
        a == b,
{
    assert(0 <= a / 13 < 4 && 0 <= a % 13 < 13 && a == 13 * (a / 13) + a % 13)
        by (nonlinear_arith)
        requires 0 <= a < 52,
    ;
    assert(0 <= b / 13 < 4 && 0 <= b % 13 < 13 && b == 13 * (b / 13) + b % 13)
        by (nonlinear_arith)
        requires 0 <= b < 52,
    ;
    assert(spec_suit_index(spec_suit_from_index(a / 13)) == a / 13);
    assert(spec_suit_index(spec_suit_from_index(b / 13)) == b / 13);
    assert(spec_run_order(spec_rank_from_run_order(a % 13)) == a % 13);
    assert(spec_run_order(spec_rank_from_run_order(b % 13)) == b % 13);
    assert(a / 13 == b / 13 && a % 13 == b % 13);
}

/// Swapping two positions of a sequence leaves its multiset of elements
/// unchanged.
proof fn lemma_swap_preserves_multiset(s: Seq<Card>, i: int, j: int)
    requires
        0 <= i < s.len(),
        0 <= j < s.len(),
    ensures
        s.update(i, s[j]).update(j, s[i]).to_multiset() == s.to_multiset(),
{
    broadcast use group_to_multiset_ensures;

    if i == j {
        assert(s.update(i, s[j]).update(j, s[i]) =~= s);
    } else {
        let s1 = s.update(i, s[j]);
        let s2 = s1.update(j, s[i]);
        assert(s1 =~= s.remove(i).insert(i, s[j]));
        assert(s2 =~= s1.remove(j).insert(j, s[i]));
        vstd::seq_lib::to_multiset_remove(s, i);
        vstd::seq_lib::to_multiset_insert(s.remove(i), i, s[j]);
        vstd::seq_lib::to_multiset_remove(s1, j);
        vstd::seq_lib::to_multiset_insert(s1.remove(j), j, s[i]);
        assert(s1[j] == s[j]);
        assert(s2.to_multiset() =~= s.to_multiset());
    }
}

/// A shuffled drawing pile of the 52 unique cards.
pub struct Deck {
    cards: Vec<Card>,
}

impl View for Deck {
    type V = Seq<Card>;

    closed spec fn view(&self) -> Seq<Card> {
        self.cards@
    }
}

impl Deck {
    /// No card appears twice.
    pub open spec fn wf(&self) -> bool {
        self@.no_duplicates()
    }

    /// Builds the 52 unique cards and shuffles them.
    pub fn new() -> (d: Deck)
        ensures
            d.wf(),
            d@.len() == 52,
            forall|c: Card| d@.contains(c),
    {
        let mut cards: Vec<Card> = Vec::new();
        let mut si: u8 = 0;
        while si < 4
            invariant
                si <= 4,
                cards@.len() == 13 * si,
                forall|k: int| 0 <= k < cards@.len() ==> cards@[k] == spec_card_at(k),
            decreases 4 - si,
        {
            let mut ri: u8 = 0;
            while ri < 13
                invariant
                    si < 4,
                    ri <= 13,
                    cards@.len() == 13 * si + ri,
                    forall|k: int| 0 <= k < cards@.len() ==> cards@[k] == spec_card_at(k),
                decreases 13 - ri,
            {
                let c = Card::new(suit_from_index(si), rank_from_run_order(ri).unwrap());
                proof {
                    assert((13 * si + ri) / 13 == si as int && (13 * si + ri) % 13 == ri as int)
                        by (nonlinear_arith)
                        requires si < 4 && ri < 13;
                }
                cards.push(c);
                ri += 1;
            }
            si += 1;
        }
        proof {
            assert forall|c: Card| cards@.contains(c) by {
                let k = 13 * spec_suit_index(c.suit) + spec_run_order(c.rank);
                lemma_card_at_roundtrip(c);
                assert(cards@[k] == c);
            }
            assert(cards@.no_duplicates()) by {
                assert forall|a: int, b: int|
                    0 <= a < cards@.len() && 0 <= b < cards@.len() && a != b implies cards@[a]
                    != cards@[b] by {
                    if cards@[a] == cards@[b] {
                        lemma_card_at_injective(a, b);
                    }
                }
            }
        }
        let mut deck = Deck { cards };
        deck.shuffle();
        deck
    }

    /// Permutes the cards in place; which permutation comes out depends on
    /// the thread's random generator.
    fn shuffle(&mut self)
        ensures
            final(self)@.to_multiset() == old(self)@.to_multiset(),
            final(self)@.len() == old(self)@.len(),
            old(self).wf() ==> final(self).wf(),
            forall|c: Card| old(self)@.contains(c) ==> final(self)@.contains(c),
    {
        let ghost orig = self@;
        let mut rng = fresh_rng();
        let n = self.cards.len();
        let mut i: usize = 0;
        while i < n
            invariant
                i <= n,
                self@.len() == n,
                self@.to_multiset() == orig.to_multiset(),
            decreases n - i,
        {
            let j = rng_range(&mut rng, i, n);
            let a = self.cards[i];
            let b = self.cards[j];
            let ghost before = self@;
            self.cards[i] = b;
            self.cards[j] = a;
            proof {
                lemma_swap_preserves_multiset(before, i as int, j as int);
            }
            i += 1;
        }
        proof {
            broadcast use group_to_multiset_ensures;

            if orig.no_duplicates() {
                orig.lemma_multiset_has_no_duplicates();
                self@.lemma_multiset_has_no_duplicates_conv();
            }
            assert forall|c: Card| orig.contains(c) implies self@.contains(c) by {
                assert(orig.to_multiset().count(c) > 0);
            }
        }
    }

    /// Draws `n` cards from the deck; fails, leaving the deck unchanged,
    /// when fewer than `n` remain. The cards come off the end of the deck,
    /// newest first, so a well-formed deck yields `n` distinct cards.
    pub fn draw_n(&mut self, n: u8) -> (r: Result<Vec<Card>, InsufficientCardsError>)
        ensures
            match r {
                Ok(cards) => {
                    &&& old(self)@.len() >= n
                    &&& cards@.len() == n as int
                    &&& final(self)@ == old(self)@.subrange(0, old(self)@.len() - n)
                    &&& forall|i: int|
                        0 <= i < n ==> cards@[i] == old(self)@[old(self)@.len() - 1 - i]
                    &&& old(self).wf() ==> cards@.no_duplicates()
                    &&& old(self).wf() ==> final(self).wf()
                },
                Err(_) => old(self)@.len() < n && *final(self) == *old(self),
            },
    {
        let remaining = self.cards.len();
        if remaining < n as usize {
            return Err(InsufficientCardsError);
        }

        let ghost orig = self@;
        let mut cards: Vec<Card> = Vec::new();
        let mut k: u8 = 0;
        while k < n
            invariant
                k <= n,
                n <= orig.len(),
                self@ == orig.subrange(0, orig.len() - k),
                cards@.len() == k as int,
                forall|i: int| 0 <= i < k ==> cards@[i] == orig[orig.len() - 1 - i],
            decreases n - k,
        {
            let ghost before = self@;
            let c = match self.draw() {
                Ok(c) => c,
                Err(_) => vstd::pervasive::unreached(),
            };
            proof {
                assert(self@ =~= orig.subrange(0, orig.len() - (k + 1)));
            }
            cards.push(c);
            k += 1;
        }
        proof {
            if orig.no_duplicates() {
                assert forall|i: int, j: int|
                    0 <= i < cards@.len() && 0 <= j < cards@.len() && i != j implies cards@[i]
                    != cards@[j] by {
                    assert(cards@[i] == orig[orig.len() - 1 - i]);
                    assert(cards@[j] == orig[orig.len() - 1 - j]);
                }
                assert forall|i: int, j: int|
                    0 <= i < self@.len() && 0 <= j < self@.len() && i != j implies self@[i]
                    != self@[j] by {
                    assert(self@[i] == orig[i] && self@[j] == orig[j]);
                }
            }
        }
        Ok(cards)
    }

    /// Draws a single card from the end of the deck, or fails when it is
    /// empty.
    pub fn draw(&mut self) -> (r: Result<Card, InsufficientCardsError>)
        ensures
            match r {
                Ok(c) => {
                    &&& old(self)@.len() > 0
                    &&& c == old(self)@.last()
                    &&& final(self)@ == old(self)@.drop_last()
                    &&& old(self).wf() ==> final(self).wf()
                },
                Err(_) => old(self)@.len() == 0 && *final(self) == *old(self),
            },
    {
        if self.cards.len() == 0 {
            return Err(InsufficientCardsError);
        }
        let c = match self.cards.pop() {
            Some(c) => c,
            None => vstd::pervasive::unreached(),
        };
        proof {
            if old(self).wf() {
                assert forall|i: int, j: int|
                    0 <= i < self@.len() && 0 <= j < self@.len() && i != j implies self@[i]
                    != self@[j] by {
                    assert(self@[i] == old(self)@[i] && self@[j] == old(self)@[j]);
                }
            }
        }
        Ok(c)
    }
}

} // verus!
