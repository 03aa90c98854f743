//! The play scorer: points earned by the newest card of the pegging
//! sequence, from the count reaching fifteen or thirty-one, matching
//! ranks at the end, and runs among the most recently played cards.

use vstd::prelude::*;
use crate::card::{Card, lemma_rank_roundtrip, lemma_run_order_range, lemma_run_order_roundtrip,
    spec_rank_from_run_order, spec_run_order};
use crate::counting::{build_ro_counts, interval_count_sum, lemma_count_le_interval_sum,
    lemma_interval_sum_all_ones, lemma_interval_sum_nonneg, lemma_interval_sum_split,
    lemma_interval_sum_total, lemma_rank_count_at_index, lemma_rank_count_exists, ro_count,
    sum_values};

verus! {

/// Two points when the running count stands at exactly fifteen or
/// thirty-one after the newest card.
pub open spec fn spec_count_score(s: Seq<Card>) -> int {
    if sum_values(s) == 15 || sum_values(s) == 31 {
        2
    } else {
        0
    }
}

/// Matching-rank points for the trailing cards: a quad beats a triple
/// beats a pair, scoring 12, 6 or 2.
pub open spec fn spec_trailing_pairs_score(s: Seq<Card>) -> int {
    let n = s.len() as int;
    if n >= 4 && s[n - 1].rank == s[n - 2].rank && s[n - 2].rank == s[n - 3].rank && s[n - 3].rank
        == s[n - 4].rank {
        12
    } else if n >= 3 && s[n - 1].rank == s[n - 2].rank && s[n - 2].rank == s[n - 3].rank {
        6
    } else if n >= 2 && s[n - 1].rank == s[n - 2].rank {
        2
    } else {
        0
    }
}

/// The cards hold each run order in `[a, a + len)` exactly once: they can
/// be laid out as a consecutive ascending run starting at `a`.
pub open spec fn spec_is_run_at(s: Seq<Card>, a: int) -> bool {
    &&& 0 <= a
    &&& a + s.len() <= 13
    &&& forall|o: int| a <= o < a + s.len() ==> ro_count(s, o) == 1
}

/// The cards form a run: distinct and contiguous in run order.
pub open spec fn spec_is_run(s: Seq<Card>) -> bool {
    exists|a: int| spec_is_run_at(s, a)
}

/// Run points during the play: the longest trailing block of 3 to 7 cards
/// that forms a run, scored at its length. Only the most recently played
/// cards count, never an arbitrary subset.
pub open spec fn spec_play_run_score(s: Seq<Card>) -> int {
    let n = s.len() as int;
    if n >= 7 && spec_is_run(s.subrange(n - 7, n)) {
        7
    } else if n >= 6 && spec_is_run(s.subrange(n - 6, n)) {
        6
    } else if n >= 5 && spec_is_run(s.subrange(n - 5, n)) {
        5
    } else if n >= 4 && spec_is_run(s.subrange(n - 4, n)) {
        4
    } else if n >= 3 && spec_is_run(s.subrange(n - 3, n)) {
        3
    } else {
        0
    }
}

/// Points earned by the newest card of the played sequence.
pub open spec fn spec_play_score(s: Seq<Card>) -> int {
    spec_count_score(s) + spec_trailing_pairs_score(s) + spec_play_run_score(s)
}

/// In a run the cards' orders all fall inside the interval, and the
/// interval's start is among them.
proof fn lemma_run_at_covers(s: Seq<Card>, a: int)
    requires
        s.len() >= 1,
        spec_is_run_at(s, a),
    ensures
        forall|i: int| 0 <= i < s.len() ==> a <= #[trigger] spec_run_order(s[i].rank) < a + s.len(),
        exists|i: int| 0 <= i < s.len() && spec_run_order(s[i].rank) == a,
{
    let n = s.len() as int;
    lemma_interval_sum_all_ones(s, a, a + n);
    lemma_interval_sum_total(s);
    lemma_interval_sum_split(s, 0, a, 13);
    lemma_interval_sum_split(s, a, a + n, 13);
    lemma_interval_sum_nonneg(s, 0, a);
    lemma_interval_sum_nonneg(s, a + n, 13);
    assert(interval_count_sum(s, 0, a) == 0 && interval_count_sum(s, a + n, 13) == 0);
    assert forall|i: int| 0 <= i < n implies a <= #[trigger] spec_run_order(s[i].rank) < a + n by {
        let o = spec_run_order(s[i].rank);
        lemma_run_order_range(s[i].rank);
        lemma_rank_roundtrip(s[i].rank);
        lemma_rank_count_at_index(s, i, s[i].rank);
        if o < a {
            lemma_count_le_interval_sum(s, 0, a, o);
        }
        if o >= a + n {
            lemma_count_le_interval_sum(s, a + n, 13, o);
        }
    }
    lemma_rank_count_exists(s, spec_rank_from_run_order(a));
    lemma_run_order_roundtrip(a);
    let i = choose|i: int| 0 <= i < s.len() && s[i].rank == spec_rank_from_run_order(a);
    assert(spec_run_order(s[i].rank) == a);
}

/// A run's starting order is the smallest order among its cards.
proof fn lemma_run_at_is_min(s: Seq<Card>, a: int, lo: int)
    requires
        s.len() >= 1,
        spec_is_run_at(s, a),
        forall|j: int| 0 <= j < s.len() ==> #[trigger] spec_run_order(s[j].rank) >= lo,
        exists|j: int| 0 <= j < s.len() && #[trigger] spec_run_order(s[j].rank) == lo,
    ensures
        a == lo,
{
    lemma_run_at_covers(s, a);
    let jw = choose|j: int| 0 <= j < s.len() && spec_run_order(s[j].rank) == lo;
    assert(spec_run_order(s[jw].rank) >= a);
    let iw = choose|i: int| 0 <= i < s.len() && spec_run_order(s[i].rank) == a;
    assert(spec_run_order(s[iw].rank) >= lo);
}

/// Do the trailing `k` cards form a run?
fn trailing_run(cards: &Vec<Card>, k: usize) -> (b: bool)
    requires
        1 <= k <= cards@.len(),
        k <= 13,
    ensures
        b == spec_is_run(cards@.subrange(cards@.len() - k, cards@.len() as int)),
{
    let n = cards.len();
    let ghost sub = cards@.subrange(n - k, n as int);
    let mut lo: u8 = cards[n - k].run_order();
    proof {
        lemma_run_order_range(cards@[n - k].rank);
    }
    let mut i: usize = n - k + 1;
    while i < n
        invariant
            n == cards@.len(),
            1 <= k <= n,
            n - k + 1 <= i <= n,
            lo <= 12,
            forall|j: int| n - k <= j < i ==> #[trigger] spec_run_order(cards@[j].rank) >= lo,
            exists|j: int| n - k <= j < i && #[trigger] spec_run_order(cards@[j].rank) == lo,
        decreases n - i,
    {
        let o = cards[i].run_order();
        proof {
            lemma_run_order_range(cards@[i as int].rank);
        }
        if o < lo {
            lo = o;
        }
        i += 1;
    }
    proof {
        assert forall|j: int| 0 <= j < sub.len() implies spec_run_order(sub[j].rank) >= lo by {
            assert(sub[j] == cards@[n - k + j]);
        }
        let jw = choose|j: int| n - k <= j < n && spec_run_order(cards@[j].rank) == lo;
        assert(sub[jw - (n - k)] == cards@[jw]);
        assert(spec_run_order(sub[jw - (n - k)].rank) == lo);
    }
    if lo as usize + k > 13 {
        proof {
            if spec_is_run(sub) {
                let a = choose|a: int| spec_is_run_at(sub, a);
                lemma_run_at_is_min(sub, a, lo as int);
            }
        }
        return false;
    }
    let counts = build_ro_counts(cards, n - k, n);
    let hi = lo as usize + k;
    let mut o: usize = lo as usize;
    while o < hi
        invariant
            1 <= k <= cards@.len(),
            hi == lo as usize + k,
            lo as usize <= o <= hi,
            hi <= 13,
            counts@.len() == 13,
            sub == cards@.subrange(cards@.len() - k, cards@.len() as int),
            sub.len() == k,
            forall|o2: int| 0 <= o2 < 13 ==> counts@[o2] == ro_count(sub, o2),
            forall|o2: int| lo <= o2 < o ==> ro_count(sub, o2) == 1,
            forall|j: int| 0 <= j < sub.len() ==> #[trigger] spec_run_order(sub[j].rank) >= lo,
            exists|j: int| 0 <= j < sub.len() && #[trigger] spec_run_order(sub[j].rank) == lo,
        decreases hi - o,
    {
        if counts[o] != 1 {
            proof {
                if spec_is_run(sub) {
                    let a = choose|a: int| spec_is_run_at(sub, a);
                    lemma_run_at_is_min(sub, a, lo as int);
                    assert(ro_count(sub, o as int) == 1);
                }
            }
            return false;
        }
        o += 1;
    }
    proof {
        assert(spec_is_run_at(sub, lo as int));
    }
    true
}

/// The running count stands at fifteen or thirty-one: two points.
fn count_count(cards: &Vec<Card>) -> (score: u8)
    ensures
        score == spec_count_score(cards@),
{
    let n = cards.len();
    let mut sum: u16 = 0;
    let mut i: usize = 0;
    while i < n
        invariant_except_break
            i <= n,
            n == cards@.len(),
            sum == sum_values(cards@.subrange(0, i as int)),
            sum <= 31,
        ensures
            sum > 31 ==> sum_values(cards@) > 31,
            sum <= 31 ==> sum == sum_values(cards@.subrange(0, n as int)),
        decreases n - i,
    {
        let v = cards[i].count_value();
        proof {
            assert(cards@.subrange(0, i + 1 as int).drop_last() =~= cards@.subrange(0, i as int));
        }
        sum = sum + v as u16;
        i += 1;
        if sum > 31 {
            proof {
                crate::counting::lemma_sum_values_prefix_le(cards@, i as int);
            }
            break;
        }
    }
    proof {
        assert(cards@.subrange(0, n as int) =~= cards@);
    }
    if sum == 15 || sum == 31 {
        2
    } else {
        0
    }
}

/// Matching-rank points for the trailing two, three or four cards,
/// longest grouping first.
fn count_pairs(cards: &Vec<Card>) -> (score: u8)
    ensures
        score == spec_trailing_pairs_score(cards@),
{
    let n = cards.len();
    if n >= 4 && cards[n - 1].rank() == cards[n - 2].rank() && cards[n - 2].rank() == cards[n
        - 3].rank() && cards[n - 3].rank() == cards[n - 4].rank() {
        return 12;
    }
    if n >= 3 && cards[n - 1].rank() == cards[n - 2].rank() && cards[n - 2].rank() == cards[n
        - 3].rank() {
        return 6;
    }
    if n >= 2 && cards[n - 1].rank() == cards[n - 2].rank() {
        return 2;
    }
    0
}

/// Run points for the longest trailing block of three to seven cards.
fn count_runs(cards: &Vec<Card>) -> (score: u8)
    ensures
        score == spec_play_run_score(cards@),
{
    let n = cards.len();
    if n >= 7 && trailing_run(cards, 7) {
        return 7;
    }
    if n >= 6 && trailing_run(cards, 6) {
        return 6;
    }
    if n >= 5 && trailing_run(cards, 5) {
        return 5;
    }
    if n >= 4 && trailing_run(cards, 4) {
        return 4;
    }
    if n >= 3 && trailing_run(cards, 3) {
        return 3;
    }
    0
}

/// Points earned by the card just appended to the played sequence:
/// the count reaching fifteen or thirty-one, matching ranks at the end,
/// and a run among the most recently played cards.
pub fn score_the_play(cards: &Vec<Card>) -> (score: u8)
    ensures
        score == spec_play_score(cards@),
        score <= 21,
{
    let mut score: u8 = 0;
    score += count_count(cards);
    score += count_pairs(cards);
    score += count_runs(cards);
    score
}

} // verus!
