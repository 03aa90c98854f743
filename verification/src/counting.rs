//! Shared counting machinery: spec-level tallies of cards by rank, suit,
//! counting value and run order, with the lemmas that relate them, and
//! small verified helpers used across the scorers.

use vstd::prelude::*;
use vstd::multiset::Multiset;
use crate::card::{Card, Rank, spec_count_value, spec_rank_from_run_order, spec_run_order};

verus! {

/// The sum of the counting values of a sequence of cards.
pub open spec fn sum_values(s: Seq<Card>) -> int
    decreases s.len(),
{
    if s.len() == 0 {
        0
    } else {
        sum_values(s.drop_last()) + spec_count_value(s.last().rank)
    }
}

/// How many cards of the sequence have the given rank.
pub open spec fn rank_count(s: Seq<Card>, r: Rank) -> int
    decreases s.len(),
{
    if s.len() == 0 {
        0
    } else {
        rank_count(s.drop_last(), r) + if s.last().rank == r {
            1int
        } else {
            0int
        }
    }
}

/// How many cards of the sequence have the given run order.
pub open spec fn ro_count(s: Seq<Card>, o: int) -> int {
    rank_count(s, spec_rank_from_run_order(o))
}

/// The sum of the run-order counts over the half-open interval `[lo, hi)`.
pub open spec fn interval_count_sum(s: Seq<Card>, lo: int, hi: int) -> int
    decreases hi - lo,
{
    if lo >= hi {
        0
    } else {
        ro_count(s, lo) + interval_count_sum(s, lo + 1, hi)
    }
}

pub proof fn lemma_rank_count_bounds(s: Seq<Card>, r: Rank)
    ensures
        0 <= rank_count(s, r) <= s.len(),
    decreases s.len(),
{
    if s.len() > 0 {
        lemma_rank_count_bounds(s.drop_last(), r);
    }
}

/// A card of rank `r` at any position makes the rank count positive.
pub proof fn lemma_rank_count_at_index(s: Seq<Card>, i: int, r: Rank)
    requires
        0 <= i < s.len(),
        s[i].rank == r,
    ensures
        rank_count(s, r) >= 1,
    decreases s.len(),
{
    lemma_rank_count_bounds(s.drop_last(), r);
    if i < s.len() - 1 {
        lemma_rank_count_at_index(s.drop_last(), i, r);
    }
}

/// A positive rank count puts a card of that rank at some position.
pub proof fn lemma_rank_count_exists(s: Seq<Card>, r: Rank)
    requires
        rank_count(s, r) >= 1,
    ensures
        exists|i: int| 0 <= i < s.len() && s[i].rank == r,
    decreases s.len(),
{
    if s.len() > 0 {
        if s.last().rank == r {
            assert(s[s.len() - 1].rank == r);
        } else {
            lemma_rank_count_exists(s.drop_last(), r);
            let i = choose|i: int| 0 <= i < s.drop_last().len() && s.drop_last()[i].rank == r;
            assert(s[i].rank == r);
        }
    }
}

/// Appending one card raises the interval sum by one exactly when the card's
/// run order falls inside the interval.
proof fn lemma_interval_sum_step(s: Seq<Card>, lo: int, hi: int)
    requires
        s.len() > 0,
        0 <= lo,
        hi <= 13,
    ensures
        interval_count_sum(s, lo, hi) == interval_count_sum(s.drop_last(), lo, hi) + if lo
            <= spec_run_order(s.last().rank) < hi {
            1int
        } else {
            0int
        },
    decreases hi - lo,
{
    if lo < hi {
        lemma_interval_sum_step(s, lo + 1, hi);
        let o = spec_run_order(s.last().rank);
        if o == lo {
            assert(spec_rank_from_run_order(lo) == s.last().rank);
        } else {
            assert(spec_rank_from_run_order(lo) != s.last().rank);
        }
    }
}

/// The run-order counts over the whole range account for every card.
pub proof fn lemma_interval_sum_total(s: Seq<Card>)
    ensures
        interval_count_sum(s, 0, 13) == s.len(),
    decreases s.len(),
{
    if s.len() == 0 {
        lemma_interval_sum_empty(s, 0, 13);
    } else {
        lemma_interval_sum_total(s.drop_last());
        lemma_interval_sum_step(s, 0, 13);
    }
}

proof fn lemma_interval_sum_empty(s: Seq<Card>, lo: int, hi: int)
    requires
        s.len() == 0,
    ensures
        interval_count_sum(s, lo, hi) == 0,
    decreases hi - lo,
{
    if lo < hi {
        lemma_interval_sum_empty(s, lo + 1, hi);
    }
}

/// Interval sums split at any midpoint.
pub proof fn lemma_interval_sum_split(s: Seq<Card>, lo: int, mid: int, hi: int)
    requires
        lo <= mid <= hi,
    ensures
        interval_count_sum(s, lo, hi) == interval_count_sum(s, lo, mid) + interval_count_sum(
            s,
            mid,
            hi,
        ),
    decreases mid - lo,
{
    if lo < mid {
        lemma_interval_sum_split(s, lo + 1, mid, hi);
    }
}

pub proof fn lemma_interval_sum_nonneg(s: Seq<Card>, lo: int, hi: int)
    ensures
        interval_count_sum(s, lo, hi) >= 0,
    decreases hi - lo,
{
    if lo < hi {
        lemma_interval_sum_nonneg(s, lo + 1, hi);
        lemma_rank_count_bounds(s, spec_rank_from_run_order(lo));
    }
}

/// One run-order count never exceeds an interval sum that covers it.
pub proof fn lemma_count_le_interval_sum(s: Seq<Card>, lo: int, hi: int, o: int)
    requires
        lo <= o < hi,
    ensures
        ro_count(s, o) <= interval_count_sum(s, lo, hi),
    decreases o - lo,
{
    if lo == o {
        lemma_interval_sum_nonneg(s, lo + 1, hi);
    } else {
        lemma_count_le_interval_sum(s, lo + 1, hi, o);
        lemma_rank_count_bounds(s, spec_rank_from_run_order(lo));
    }
}

/// An interval whose counts are all positive sums to at least its width.
pub proof fn lemma_interval_sum_ge_width(s: Seq<Card>, lo: int, hi: int)
    requires
        lo <= hi,
        forall|o: int| lo <= o < hi ==> ro_count(s, o) >= 1,
    ensures
        interval_count_sum(s, lo, hi) >= hi - lo,
    decreases hi - lo,
{
    if lo < hi {
        lemma_interval_sum_ge_width(s, lo + 1, hi);
    }
}

/// Powers of two.
pub open spec fn two_to(n: nat) -> int
    decreases n,
{
    if n == 0 {
        1
    } else {
        2 * two_to((n - 1) as nat)
    }
}

pub proof fn lemma_two_to_pos(n: nat)
    ensures
        two_to(n) >= 1,
    decreases n,
{
    if n > 0 {
        lemma_two_to_pos((n - 1) as nat);
    }
}

pub proof fn lemma_two_to_adds(m: nat, n: nat)
    ensures
        two_to(m + n) == two_to(m) * two_to(n),
    decreases m,
{
    if m == 0 {
    } else {
        lemma_two_to_adds((m - 1) as nat, n);
        assert(two_to(m + n) == 2 * two_to((m + n - 1) as nat));
        assert((m - 1) + n == (m + n - 1) as nat);
        assert(2 * (two_to((m - 1) as nat) * two_to(n)) == (2 * two_to((m - 1) as nat)) * two_to(
            n,
        )) by (nonlinear_arith);
    }
}

pub proof fn lemma_two_to_monotone(m: nat, n: nat)
    requires
        m <= n,
    ensures
        two_to(m) <= two_to(n),
    decreases n,
{
    if m < n {
        lemma_two_to_monotone(m, (n - 1) as nat);
        lemma_two_to_pos((n - 1) as nat);
    }
}

/// The small powers of two, spelled out.
pub proof fn lemma_two_to_values()
    ensures
        two_to(0) == 1,
        two_to(1) == 2,
        two_to(2) == 4,
        two_to(3) == 8,
        two_to(4) == 16,
        two_to(5) == 32,
        two_to(6) == 64,
        two_to(7) == 128,
{
    reveal_with_fuel(two_to, 9);
}

/// Every positive count is at most two to the count less one.
pub proof fn lemma_le_two_to(n: nat)
    ensures
        n + 1 <= two_to(n),
    decreases n,
{
    if n > 0 {
        lemma_le_two_to((n - 1) as nat);
    }
}

/// An interval whose counts are all one sums to its width.
pub proof fn lemma_interval_sum_all_ones(s: Seq<Card>, lo: int, hi: int)
    requires
        lo <= hi,
        forall|o: int| lo <= o < hi ==> ro_count(s, o) == 1,
    ensures
        interval_count_sum(s, lo, hi) == hi - lo,
    decreases hi - lo,
{
    if lo < hi {
        lemma_interval_sum_all_ones(s, lo + 1, hi);
    }
}

/// How many cards of the sequence have the given suit.
pub open spec fn suit_count(s: Seq<Card>, t: crate::card::Suit) -> int
    decreases s.len(),
{
    if s.len() == 0 {
        0
    } else {
        suit_count(s.drop_last(), t) + if s.last().suit == t {
            1int
        } else {
            0int
        }
    }
}

/// How many cards of the sequence have the given counting value.
pub open spec fn value_count(s: Seq<Card>, v: int) -> int
    decreases s.len(),
{
    if s.len() == 0 {
        0
    } else {
        value_count(s.drop_last(), v) + if spec_count_value(s.last().rank) == v {
            1int
        } else {
            0int
        }
    }
}

pub proof fn lemma_suit_count_bounds(s: Seq<Card>, t: crate::card::Suit)
    ensures
        0 <= suit_count(s, t) <= s.len(),
    decreases s.len(),
{
    if s.len() > 0 {
        lemma_suit_count_bounds(s.drop_last(), t);
    }
}

pub proof fn lemma_value_count_bounds(s: Seq<Card>, v: int)
    ensures
        0 <= value_count(s, v) <= s.len(),
    decreases s.len(),
{
    if s.len() > 0 {
        lemma_value_count_bounds(s.drop_last(), v);
    }
}

/// Every card adds between one and ten to the total.
pub proof fn lemma_sum_values_bounds(s: Seq<Card>)
    ensures
        s.len() <= sum_values(s) <= 10 * s.len(),
    decreases s.len(),
{
    if s.len() > 0 {
        lemma_sum_values_bounds(s.drop_last());
    }
}

/// How many cards of the deck bear the given rank.
pub fn count_by_rank(deck: &Vec<Card>, r: Rank) -> (n: usize)
    ensures
        n == rank_count(deck@, r),
{
    let mut n: usize = 0;
    let mut i: usize = 0;
    while i < deck.len()
        invariant
            i <= deck@.len(),
            n == rank_count(deck@.subrange(0, i as int), r),
            n <= i,
        decreases deck@.len() - i,
    {
        proof {
            assert(deck@.subrange(0, i + 1 as int).drop_last() =~= deck@.subrange(0, i as int));
            lemma_rank_count_bounds(deck@.subrange(0, i as int), r);
        }
        if rank_eq(deck[i].rank(), r) {
            n += 1;
        }
        i += 1;
    }
    proof {
        assert(deck@.subrange(0, deck@.len() as int) =~= deck@);
    }
    n
}

/// How many cards of the deck bear the given suit.
pub fn count_by_suit(deck: &Vec<Card>, t: crate::card::Suit) -> (n: usize)
    ensures
        n == suit_count(deck@, t),
{
    let mut n: usize = 0;
    let mut i: usize = 0;
    while i < deck.len()
        invariant
            i <= deck@.len(),
            n == suit_count(deck@.subrange(0, i as int), t),
            n <= i,
        decreases deck@.len() - i,
    {
        proof {
            assert(deck@.subrange(0, i + 1 as int).drop_last() =~= deck@.subrange(0, i as int));
            lemma_suit_count_bounds(deck@.subrange(0, i as int), t);
        }
        if crate::card::suit_is(deck[i].suit(), t) {
            n += 1;
        }
        i += 1;
    }
    proof {
        assert(deck@.subrange(0, deck@.len() as int) =~= deck@);
    }
    n
}

/// How many cards of the deck carry the given counting value.
pub fn count_by_value(deck: &Vec<Card>, v: u8) -> (n: usize)
    ensures
        n == value_count(deck@, v as int),
{
    let mut n: usize = 0;
    let mut i: usize = 0;
    while i < deck.len()
        invariant
            i <= deck@.len(),
            n == value_count(deck@.subrange(0, i as int), v as int),
            n <= i,
        decreases deck@.len() - i,
    {
        proof {
            assert(deck@.subrange(0, i + 1 as int).drop_last() =~= deck@.subrange(0, i as int));
            lemma_value_count_bounds(deck@.subrange(0, i as int), v as int);
        }
        if deck[i].count_value() == v {
            n += 1;
        }
        i += 1;
    }
    proof {
        assert(deck@.subrange(0, deck@.len() as int) =~= deck@);
    }
    n
}

/// Are two ranks the same?
fn rank_eq(a: Rank, b: Rank) -> (r: bool)
    ensures
        r == (a == b),
{
    a == b
}

/// The sum of the counting values of a handful of cards.
pub fn count_total(hand: &Vec<Card>) -> (t: u8)
    requires
        hand@.len() <= 6,
    ensures
        t == sum_values(hand@),
{
    let mut t: u8 = 0;
    let mut i: usize = 0;
    while i < hand.len()
        invariant
            i <= hand@.len() <= 6,
            t == sum_values(hand@.subrange(0, i as int)),
            t <= 10 * i,
        decreases hand@.len() - i,
    {
        proof {
            assert(hand@.subrange(0, i + 1 as int).drop_last() =~= hand@.subrange(0, i as int));
        }
        t += hand[i].count_value();
        i += 1;
    }
    proof {
        assert(hand@.subrange(0, hand@.len() as int) =~= hand@);
    }
    t
}

/// The whole sequence weighs at least as much as any of its prefixes:
/// every card adds a positive value.
pub proof fn lemma_sum_values_prefix_le(s: Seq<Card>, i: int)
    requires
        0 <= i <= s.len(),
    ensures
        sum_values(s.subrange(0, i)) <= sum_values(s),
    decreases s.len() - i,
{
    if i == s.len() {
        assert(s.subrange(0, i) =~= s);
    } else {
        assert(s.subrange(0, i + 1).drop_last() =~= s.subrange(0, i));
        lemma_sum_values_prefix_le(s, i + 1);
    }
}

/// A filter and its complement split a sequence's cards exactly in two.
pub proof fn lemma_filter_partition(s: Seq<Card>, p: spec_fn(Card) -> bool, q: spec_fn(Card) -> bool)
    requires
        forall|c: Card| #[trigger] q(c) == !p(c),
    ensures
        s.to_multiset() =~= s.filter(p).to_multiset().add(s.filter(q).to_multiset()),
    decreases s.len(),
{
    broadcast use vstd::seq_lib::group_to_multiset_ensures;
    broadcast use vstd::multiset::group_multiset_axioms;

    reveal(Seq::filter);
    if s.len() == 0 {
        assert(s.filter(p) =~= s && s.filter(q) =~= s);
        assert(s.to_multiset() =~= Multiset::<Card>::empty());
    } else {
        let dl = s.drop_last();
        let last = s.last();
        lemma_filter_partition(dl, p, q);
        assert(dl.push(last) =~= s);
        assert(q(last) == !p(last));
        if p(last) {
            assert(s.filter(p) == dl.filter(p).push(last));
            assert(s.filter(q) == dl.filter(q));
        } else {
            assert(s.filter(p) == dl.filter(p));
            assert(s.filter(q) == dl.filter(q).push(last));
        }
        assert(s.to_multiset() =~= dl.to_multiset().insert(last));
    }
}

/// Two sequences with the same cards: if one has no duplicates, neither
/// has the other, and their lengths agree.
pub proof fn lemma_same_multiset_no_dup(z1: Seq<Card>, z2: Seq<Card>)
    requires
        z1.no_duplicates(),
        z2.to_multiset() == z1.to_multiset(),
    ensures
        z2.no_duplicates(),
        z2.len() == z1.len(),
{
    broadcast use vstd::seq_lib::group_to_multiset_ensures;

    vstd::seq_lib::to_multiset_len(z1);
    vstd::seq_lib::to_multiset_len(z2);
    z1.lemma_multiset_has_no_duplicates();
    assert forall|x: Card| z2.to_multiset().contains(x) implies z2.to_multiset().count(x)
        == 1 by {
        assert(z1.to_multiset().count(x) > 0);
        assert(z1.contains(x));
    }
    z2.lemma_multiset_has_no_duplicates_conv();
}

/// A copy of the cards.
pub fn clone_cards(v: &Vec<Card>) -> (r: Vec<Card>)
    ensures
        r@ == v@,
{
    let mut r: Vec<Card> = Vec::new();
    let mut i: usize = 0;
    while i < v.len()
        invariant
            i <= v@.len(),
            r@ == v@.subrange(0, i as int),
        decreases v@.len() - i,
    {
        r.push(v[i]);
        proof {
            assert(r@ =~= v@.subrange(0, i + 1 as int));
        }
        i += 1;
    }
    proof {
        assert(v@.subrange(0, v@.len() as int) =~= v@);
    }
    r
}

/// The run-order tallies of `cards[from..to]`, as thirteen counters.
pub fn build_ro_counts(cards: &Vec<Card>, from: usize, to: usize) -> (counts: Vec<u8>)
    requires
        from <= to <= cards@.len(),
        to - from <= 255,
    ensures
        counts@.len() == 13,
        forall|o: int|
            0 <= o < 13 ==> counts@[o] == ro_count(
                cards@.subrange(from as int, to as int),
                o,
            ),
{
    let mut counts: Vec<u8> = Vec::new();
    let mut z: usize = 0;
    while z < 13
        invariant
            counts@.len() == z,
            z <= 13,
            forall|o: int| 0 <= o < z ==> counts@[o] == 0,
        decreases 13 - z,
    {
        counts.push(0);
        z += 1;
    }
    proof {
        assert forall|o: int| 0 <= o < 13 implies counts@[o] == ro_count(
            cards@.subrange(from as int, from as int),
            o,
        ) by {
            assert(cards@.subrange(from as int, from as int).len() == 0);
        }
    }
    let mut i: usize = from;
    while i < to
        invariant
            from <= i <= to,
            to <= cards@.len(),
            to - from <= 255,
            counts@.len() == 13,
            forall|o: int|
                0 <= o < 13 ==> counts@[o] == ro_count(cards@.subrange(from as int, i as int), o),
        decreases to - i,
    {
        let ghost pre = cards@.subrange(from as int, i as int);
        let ghost post = cards@.subrange(from as int, i + 1 as int);
        let c = cards[i];
        let o = c.run_order();
        proof {
            crate::card::lemma_run_order_range(c.rank);
            lemma_rank_count_bounds(pre, spec_rank_from_run_order(o as int));
            assert(pre.len() == i - from < 255);
        }
        let cur = counts[o as usize];
        counts[o as usize] = cur + 1;
        proof {
            assert(post.drop_last() =~= pre);
            assert(post.last() == c);
            crate::card::lemma_rank_roundtrip(c.rank);
            assert forall|o2: int| 0 <= o2 < 13 implies counts@[o2] == ro_count(post, o2) by {
                crate::card::lemma_run_order_roundtrip(o2);
                if o2 == o as int {
                    assert(spec_rank_from_run_order(o2) == c.rank);
                } else {
                    assert(spec_rank_from_run_order(o2) != c.rank);
                }
            }
        }
        i += 1;
    }
    counts
}

} // verus!
