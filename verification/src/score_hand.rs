//! The show scorer: the full value of a four-card hand or crib against
//! the shared starter, from fifteens, pairs, runs, flush and nobs; with
//! the proof that the score never depends on the order of the hand.

use vstd::prelude::*;
use crate::card::{Card, Rank, spec_count_value};
use crate::counting::{build_ro_counts, interval_count_sum, lemma_interval_sum_ge_width,
    lemma_interval_sum_nonneg, lemma_interval_sum_split, lemma_interval_sum_total,
    lemma_le_two_to, lemma_rank_count_bounds, lemma_two_to_adds, lemma_two_to_monotone,
    lemma_two_to_pos, rank_count, ro_count, two_to};

verus! {

/// How many sub-multisets of the cards have counting values that sum to
/// the target. The empty subset and singletons can never reach fifteen,
/// so for that target this counts exactly the spec's subsets of two or
/// more cards.
pub open spec fn subset_sum_count(s: Seq<Card>, target: int) -> int
    decreases s.len(),
{
    if s.len() == 0 {
        if target == 0 {
            1
        } else {
            0
        }
    } else {
        subset_sum_count(s.drop_first(), target) + subset_sum_count(
            s.drop_first(),
            target - spec_count_value(s.first().rank),
        )
    }
}

/// Two points for every subset of cards whose values sum to fifteen.
pub open spec fn spec_fifteens_score(s: Seq<Card>) -> int {
    2 * subset_sum_count(s, 15)
}

/// How many unordered pairs of positions share a rank.
pub open spec fn spec_pair_count(s: Seq<Card>) -> int
    decreases s.len(),
{
    if s.len() == 0 {
        0
    } else {
        spec_pair_count(s.drop_last()) + rank_count(s.drop_last(), s.last().rank)
    }
}

/// Two points for every unordered pair of cards sharing a rank.
pub open spec fn spec_pairs_score(s: Seq<Card>) -> int {
    2 * spec_pair_count(s)
}

/// How many consecutive run orders, starting at `a`, hold at least one
/// card each.
pub open spec fn run_len_from(s: Seq<Card>, a: int) -> int
    decreases 13 - a,
{
    if a < 0 || a >= 13 || ro_count(s, a) == 0 {
        0
    } else {
        1 + run_len_from(s, a + 1)
    }
}

/// The product of the run-order counts over `l` orders starting at `a`:
/// how many distinct card combinations span that stretch of orders.
pub open spec fn run_prod_from(s: Seq<Card>, a: int, l: int) -> int
    decreases l,
{
    if l <= 0 {
        1
    } else {
        ro_count(s, a) * run_prod_from(s, a + 1, l - 1)
    }
}

/// Run points contributed by the maximal stretch of occupied run orders
/// that starts exactly at `a`: its length, once for every combination of
/// cards that spans it, provided it is at least three long.
pub open spec fn run_contribution(s: Seq<Card>, a: int) -> int {
    if (a == 0 || ro_count(s, a - 1) == 0) && run_len_from(s, a) >= 3 {
        run_len_from(s, a) * run_prod_from(s, a, run_len_from(s, a))
    } else {
        0
    }
}

pub open spec fn spec_runs_score_from(s: Seq<Card>, a: int) -> int
    decreases 13 - a,
{
    if a >= 13 {
        0
    } else {
        run_contribution(s, a) + spec_runs_score_from(s, a + 1)
    }
}

/// Run points of the show: every maximal stretch of three or more
/// consecutive occupied run orders scores its length for each distinct
/// combination of cards spanning it; shorter runs inside it are subsumed.
pub open spec fn spec_runs_score(s: Seq<Card>) -> int {
    spec_runs_score_from(s, 0)
}

/// Flush of a held hand: all cards of one suit score one each, and one
/// more when the starter matches too.
pub open spec fn spec_flush_score(h: Seq<Card>, starter: Card) -> int {
    if h.len() >= 1 && (forall|i: int| 0 <= i < h.len() ==> #[trigger] h[i].suit == h[0].suit) {
        if starter.suit == h[0].suit {
            h.len() + 1int
        } else {
            h.len() as int
        }
    } else {
        0
    }
}

/// Flush of the crib: it only counts when the starter matches as well.
pub open spec fn spec_crib_flush_score(h: Seq<Card>, starter: Card) -> int {
    if h.len() >= 1 && (forall|i: int| 0 <= i < h.len() ==> #[trigger] h[i].suit == h[0].suit)
        && starter.suit == h[0].suit {
        h.len() + 1int
    } else {
        0
    }
}

/// One point for holding the Jack of the starter's suit.
pub open spec fn spec_nobs_score(h: Seq<Card>, starter: Card) -> int {
    if exists|i: int|
        0 <= i < h.len() && h[i].rank == Rank::Jack && #[trigger] h[i].suit == starter.suit {
        1
    } else {
        0
    }
}

/// The full show score of a held hand against the starter.
pub open spec fn spec_show_score(hand: Seq<Card>, starter: Card) -> int {
    spec_fifteens_score(hand.push(starter)) + spec_pairs_score(hand.push(starter))
        + spec_runs_score(hand.push(starter)) + spec_flush_score(hand, starter) + spec_nobs_score(
        hand,
        starter,
    )
}

/// The full show score of the crib against the starter: identical but for
/// the stricter flush rule.
pub open spec fn spec_crib_show_score(hand: Seq<Card>, starter: Card) -> int {
    spec_fifteens_score(hand.push(starter)) + spec_pairs_score(hand.push(starter))
        + spec_runs_score(hand.push(starter)) + spec_crib_flush_score(hand, starter)
        + spec_nobs_score(hand, starter)
}

/// Removing the card at `i` splits the subset count: subsets without that
/// card, and subsets with it, which need the rest to reach the smaller
/// target.
proof fn lemma_subset_count_remove(s: Seq<Card>, i: int, t: int)
    requires
        0 <= i < s.len(),
    ensures
        subset_sum_count(s, t) == subset_sum_count(s.remove(i), t) + subset_sum_count(
            s.remove(i),
            t - spec_count_value(s[i].rank),
        ),
    decreases s.len(),
{
    if i == 0 {
        assert(s.remove(0) =~= s.drop_first());
    } else {
        let df = s.drop_first();
        let vf = spec_count_value(s.first().rank);
        lemma_subset_count_remove(df, i - 1, t);
        lemma_subset_count_remove(df, i - 1, t - vf);
        assert(s.remove(i).drop_first() =~= df.remove(i - 1));
        assert(s.remove(i).first() == s.first());
        assert(df[i - 1] == s[i]);
    }
}

/// The subset count only sees the multiset of cards, not their order.
proof fn lemma_subset_count_multiset(s1: Seq<Card>, s2: Seq<Card>, t: int)
    requires
        s1.to_multiset() == s2.to_multiset(),
    ensures
        subset_sum_count(s1, t) == subset_sum_count(s2, t),
    decreases s2.len(),
{
    broadcast use vstd::seq_lib::group_to_multiset_ensures;

    if s2.len() == 0 {
        vstd::seq_lib::to_multiset_len(s1);
        vstd::seq_lib::to_multiset_len(s2);
        assert(s1.len() == 0);
    } else {
        let x = s2.last();
        assert(s2.contains(x));
        assert(s1.to_multiset().count(x) > 0);
        assert(s1.contains(x));
        let i = choose|i: int| 0 <= i < s1.len() && s1[i] == x;
        assert(s2.drop_last().push(x) =~= s2);
        assert(s1.remove(i).to_multiset() =~= s2.drop_last().to_multiset());
        let v = spec_count_value(x.rank);
        lemma_subset_count_multiset(s1.remove(i), s2.drop_last(), t);
        lemma_subset_count_multiset(s1.remove(i), s2.drop_last(), t - v);
        lemma_subset_count_remove(s1, i, t);
        lemma_subset_count_remove(s2, s2.len() - 1, t);
        assert(s2.remove(s2.len() - 1) =~= s2.drop_last());
    }
}

/// Removing the card at `i` takes one off its own rank's count and leaves
/// the other ranks alone.
proof fn lemma_rank_count_remove(s: Seq<Card>, i: int, r: Rank)
    requires
        0 <= i < s.len(),
    ensures
        rank_count(s, r) == rank_count(s.remove(i), r) + if s[i].rank == r {
            1int
        } else {
            0int
        },
    decreases s.len(),
{
    if i == s.len() - 1 {
        assert(s.remove(i) =~= s.drop_last());
    } else {
        lemma_rank_count_remove(s.drop_last(), i, r);
        assert(s.remove(i).drop_last() =~= s.drop_last().remove(i));
        assert(s.remove(i).last() == s.last());
        assert(s.drop_last()[i] == s[i]);
    }
}

/// Rank counts only see the multiset of cards.
proof fn lemma_rank_count_multiset(s1: Seq<Card>, s2: Seq<Card>, r: Rank)
    requires
        s1.to_multiset() == s2.to_multiset(),
    ensures
        rank_count(s1, r) == rank_count(s2, r),
    decreases s2.len(),
{
    broadcast use vstd::seq_lib::group_to_multiset_ensures;

    if s2.len() == 0 {
        vstd::seq_lib::to_multiset_len(s1);
        vstd::seq_lib::to_multiset_len(s2);
        assert(s1.len() == 0);
    } else {
        let x = s2.last();
        assert(s2.contains(x));
        assert(s1.to_multiset().count(x) > 0);
        assert(s1.contains(x));
        let i = choose|i: int| 0 <= i < s1.len() && s1[i] == x;
        assert(s2.drop_last().push(x) =~= s2);
        assert(s1.remove(i).to_multiset() =~= s2.drop_last().to_multiset());
        lemma_rank_count_multiset(s1.remove(i), s2.drop_last(), r);
        lemma_rank_count_remove(s1, i, r);
    }
}

/// Removing the card at `i` takes away exactly its pairs with the rest.
proof fn lemma_pair_count_remove(s: Seq<Card>, i: int)
    requires
        0 <= i < s.len(),
    ensures
        spec_pair_count(s) == spec_pair_count(s.remove(i)) + rank_count(s.remove(i), s[i].rank),
    decreases s.len(),
{
    if i == s.len() - 1 {
        assert(s.remove(i) =~= s.drop_last());
    } else {
        let dl = s.drop_last();
        lemma_pair_count_remove(dl, i);
        assert(s.remove(i).drop_last() =~= dl.remove(i));
        assert(s.remove(i).last() == s.last());
        assert(dl[i] == s[i]);
        lemma_rank_count_remove(dl, i, s.last().rank);
        lemma_rank_count_remove(s.remove(i), s.remove(i).len() - 1, s[i].rank);
        assert(s.remove(i).remove(s.remove(i).len() - 1) =~= dl.remove(i));
        assert(s.remove(i)[s.remove(i).len() - 1] == s.last());
    }
}

/// The pair count only sees the multiset of cards.
proof fn lemma_pair_count_multiset(s1: Seq<Card>, s2: Seq<Card>)
    requires
        s1.to_multiset() == s2.to_multiset(),
    ensures
        spec_pair_count(s1) == spec_pair_count(s2),
    decreases s2.len(),
{
    broadcast use vstd::seq_lib::group_to_multiset_ensures;

    if s2.len() == 0 {
        vstd::seq_lib::to_multiset_len(s1);
        vstd::seq_lib::to_multiset_len(s2);
        assert(s1.len() == 0);
    } else {
        let x = s2.last();
        assert(s2.contains(x));
        assert(s1.to_multiset().count(x) > 0);
        assert(s1.contains(x));
        let i = choose|i: int| 0 <= i < s1.len() && s1[i] == x;
        assert(s2.drop_last().push(x) =~= s2);
        assert(s1.remove(i).to_multiset() =~= s2.drop_last().to_multiset());
        lemma_pair_count_multiset(s1.remove(i), s2.drop_last());
        lemma_pair_count_remove(s1, i);
        lemma_rank_count_multiset(s1.remove(i), s2.drop_last(), x.rank);
    }
}

/// Sequences with the same cards have the same rank counts everywhere.
spec fn same_rank_counts(s1: Seq<Card>, s2: Seq<Card>) -> bool {
    forall|r: Rank| #[trigger] rank_count(s1, r) == rank_count(s2, r)
}

proof fn lemma_run_len_congruent(s1: Seq<Card>, s2: Seq<Card>, a: int)
    requires
        same_rank_counts(s1, s2),
    ensures
        run_len_from(s1, a) == run_len_from(s2, a),
    decreases 13 - a,
{
    if a >= 0 && a < 13 {
        assert(ro_count(s1, a) == ro_count(s2, a));
        if ro_count(s1, a) != 0 {
            lemma_run_len_congruent(s1, s2, a + 1);
        }
    }
}

proof fn lemma_run_prod_congruent(s1: Seq<Card>, s2: Seq<Card>, a: int, l: int)
    requires
        same_rank_counts(s1, s2),
    ensures
        run_prod_from(s1, a, l) == run_prod_from(s2, a, l),
    decreases l,
{
    if l > 0 {
        assert(ro_count(s1, a) == ro_count(s2, a));
        lemma_run_prod_congruent(s1, s2, a + 1, l - 1);
    }
}

proof fn lemma_runs_score_congruent(s1: Seq<Card>, s2: Seq<Card>, a: int)
    requires
        same_rank_counts(s1, s2),
    ensures
        spec_runs_score_from(s1, a) == spec_runs_score_from(s2, a),
    decreases 13 - a,
{
    if a < 13 {
        lemma_run_len_congruent(s1, s2, a);
        lemma_run_prod_congruent(s1, s2, a, run_len_from(s1, a));
        if a >= 1 {
            assert(ro_count(s1, a - 1) == ro_count(s2, a - 1));
        }
        assert(run_contribution(s1, a) == run_contribution(s2, a));
        lemma_runs_score_congruent(s1, s2, a + 1);
    }
}

/// The run score only sees the multiset of cards.
proof fn lemma_runs_score_multiset(s1: Seq<Card>, s2: Seq<Card>)
    requires
        s1.to_multiset() == s2.to_multiset(),
    ensures
        spec_runs_score(s1) == spec_runs_score(s2),
{
    assert forall|r: Rank| #[trigger] rank_count(s1, r) == rank_count(s2, r) by {
        lemma_rank_count_multiset(s1, s2, r);
    }
    lemma_runs_score_congruent(s1, s2, 0);
}

/// The flush score only sees the multiset of held cards.
proof fn lemma_flush_score_multiset(h1: Seq<Card>, h2: Seq<Card>, starter: Card)
    requires
        h1.to_multiset() == h2.to_multiset(),
    ensures
        spec_flush_score(h1, starter) == spec_flush_score(h2, starter),
        spec_crib_flush_score(h1, starter) == spec_crib_flush_score(h2, starter),
{
    broadcast use vstd::seq_lib::group_to_multiset_ensures;

    vstd::seq_lib::to_multiset_len(h1);
    vstd::seq_lib::to_multiset_len(h2);
    assert(h1.len() == h2.len());
    if h1.len() >= 1 {
        if forall|i: int| 0 <= i < h1.len() ==> #[trigger] h1[i].suit == h1[0].suit {
            assert forall|i: int| 0 <= i < h2.len() implies #[trigger] h2[i].suit == h2[0].suit by {
                assert(h2.contains(h2[i]) && h2.contains(h2[0]));
                assert(h1.to_multiset().count(h2[i]) > 0 && h1.to_multiset().count(h2[0]) > 0);
                assert(h1.contains(h2[i]) && h1.contains(h2[0]));
                let a = choose|a: int| 0 <= a < h1.len() && h1[a] == h2[i];
                let b = choose|b: int| 0 <= b < h1.len() && h1[b] == h2[0];
                assert(h1[a].suit == h1[0].suit && h1[b].suit == h1[0].suit);
            }
            assert(h1.contains(h1[0]));
            assert(h2.to_multiset().count(h1[0]) > 0);
            assert(h2.contains(h1[0]));
            let c = choose|c: int| 0 <= c < h2.len() && h2[c] == h1[0];
            assert(h2[0].suit == h1[0].suit);
        } else {
            let w = choose|w: int| 0 <= w < h1.len() && #[trigger] h1[w].suit != h1[0].suit;
            if forall|i: int| 0 <= i < h2.len() ==> #[trigger] h2[i].suit == h2[0].suit {
                assert(h1.contains(h1[w]) && h1.contains(h1[0]));
                assert(h2.to_multiset().count(h1[w]) > 0 && h2.to_multiset().count(h1[0]) > 0);
                assert(h2.contains(h1[w]) && h2.contains(h1[0]));
                let a = choose|a: int| 0 <= a < h2.len() && h2[a] == h1[w];
                let b = choose|b: int| 0 <= b < h2.len() && h2[b] == h1[0];
                assert(h2[a].suit == h2[0].suit && h2[b].suit == h2[0].suit);
                assert(false);
            }
        }
    }
}

/// The nobs score only sees the multiset of held cards.
proof fn lemma_nobs_score_multiset(h1: Seq<Card>, h2: Seq<Card>, starter: Card)
    requires
        h1.to_multiset() == h2.to_multiset(),
    ensures
        spec_nobs_score(h1, starter) == spec_nobs_score(h2, starter),
{
    broadcast use vstd::seq_lib::group_to_multiset_ensures;

    if exists|i: int|
        0 <= i < h1.len() && h1[i].rank == Rank::Jack && #[trigger] h1[i].suit == starter.suit {
        let i = choose|i: int|
            0 <= i < h1.len() && h1[i].rank == Rank::Jack && #[trigger] h1[i].suit
                == starter.suit;
        assert(h1.contains(h1[i]));
        assert(h2.to_multiset().count(h1[i]) > 0);
        assert(h2.contains(h1[i]));
        let j = choose|j: int| 0 <= j < h2.len() && h2[j] == h1[i];
        assert(h2[j].rank == Rank::Jack && h2[j].suit == starter.suit);
    } else {
        if exists|i: int|
            0 <= i < h2.len() && h2[i].rank == Rank::Jack && #[trigger] h2[i].suit
                == starter.suit {
            let i = choose|i: int|
                0 <= i < h2.len() && h2[i].rank == Rank::Jack && #[trigger] h2[i].suit
                    == starter.suit;
            assert(h2.contains(h2[i]));
            assert(h1.to_multiset().count(h2[i]) > 0);
            assert(h1.contains(h2[i]));
            let j = choose|j: int| 0 <= j < h1.len() && h1[j] == h2[i];
            assert(h1[j].rank == Rank::Jack && h1[j].suit == starter.suit);
            assert(false);
        }
    }
}

/// Reordering a hand never changes its show score: every component of the
/// score depends only on which cards are held, not on their order. The
/// same holds for the crib's score.
pub proof fn lemma_show_score_reorder(h1: Seq<Card>, h2: Seq<Card>, starter: Card)
    requires
        h1.to_multiset() == h2.to_multiset(),
    ensures
        spec_show_score(h1, starter) == spec_show_score(h2, starter),
        spec_crib_show_score(h1, starter) == spec_crib_show_score(h2, starter),
{
    broadcast use vstd::seq_lib::group_to_multiset_ensures;

    let f1 = h1.push(starter);
    let f2 = h2.push(starter);
    assert(f1.to_multiset() == f2.to_multiset());
    lemma_subset_count_multiset(f1, f2, 15);
    lemma_pair_count_multiset(f1, f2);
    lemma_runs_score_multiset(f1, f2);
    lemma_flush_score_multiset(h1, h2, starter);
    lemma_nobs_score_multiset(h1, h2, starter);
}

/// No subset reaches a negative target: card values are positive.
proof fn lemma_subset_sum_count_negative(s: Seq<Card>, target: int)
    requires
        target < 0,
    ensures
        subset_sum_count(s, target) == 0,
    decreases s.len(),
{
    if s.len() > 0 {
        lemma_subset_sum_count_negative(s.drop_first(), target);
        lemma_subset_sum_count_negative(
            s.drop_first(),
            target - spec_count_value(s.first().rank),
        );
    }
}

/// There are at most two-to-the-length subsets of any kind.
proof fn lemma_subset_sum_count_bound(s: Seq<Card>, target: int)
    ensures
        0 <= subset_sum_count(s, target) <= two_to(s.len()),
    decreases s.len(),
{
    if s.len() == 0 {
    } else {
        lemma_subset_sum_count_bound(s.drop_first(), target);
        lemma_subset_sum_count_bound(s.drop_first(), target - spec_count_value(s.first().rank));
    }
}

/// With at most seven cards there are at most forty-nine pairs, loosely.
proof fn lemma_pair_count_small(s: Seq<Card>)
    requires
        s.len() <= 7,
    ensures
        0 <= spec_pair_count(s) <= 49,
{
    lemma_pair_count_bound(s);
    assert(s.len() * s.len() <= 49) by (nonlinear_arith)
        requires s.len() <= 7,
    ;
}

proof fn lemma_pair_count_bound(s: Seq<Card>)
    ensures
        0 <= spec_pair_count(s) <= s.len() * s.len(),
    decreases s.len(),
{
    if s.len() > 0 {
        lemma_pair_count_bound(s.drop_last());
        lemma_rank_count_bounds(s.drop_last(), s.last().rank);
        assert((s.len() - 1) * (s.len() - 1) + (s.len() - 1) <= s.len() * s.len())
            by (nonlinear_arith)
            requires s.len() >= 1,
        ;
    }
}

/// What the length scan guarantees: the stretch is occupied, in range,
/// and ends at an empty order or the top.
proof fn lemma_run_len_props(s: Seq<Card>, a: int)
    requires
        0 <= a <= 13,
    ensures
        0 <= run_len_from(s, a) <= 13 - a,
        forall|o: int| a <= o < a + run_len_from(s, a) ==> ro_count(s, o) >= 1,
        a + run_len_from(s, a) == 13 || ro_count(s, a + run_len_from(s, a)) == 0,
    decreases 13 - a,
{
    if a < 13 && ro_count(s, a) != 0 {
        lemma_run_len_props(s, a + 1);
        lemma_rank_count_bounds(s, crate::card::spec_rank_from_run_order(a));
    }
}

/// A stretch of occupied orders multiplies out to at least one and at most
/// two to the spare cards it holds beyond one per order.
proof fn lemma_prod_le_pow(s: Seq<Card>, a: int, l: int)
    requires
        l >= 0,
        forall|o: int| a <= o < a + l ==> ro_count(s, o) >= 1,
    ensures
        1 <= run_prod_from(s, a, l),
        run_prod_from(s, a, l) <= two_to((interval_count_sum(s, a, a + l) - l) as nat),
{
    lemma_interval_sum_ge_width(s, a, a + l);
    lemma_prod_le_pow_rec(s, a, l);
}

proof fn lemma_prod_le_pow_rec(s: Seq<Card>, a: int, l: int)
    requires
        l >= 0,
        forall|o: int| a <= o < a + l ==> ro_count(s, o) >= 1,
    ensures
        1 <= run_prod_from(s, a, l),
        run_prod_from(s, a, l) <= two_to((interval_count_sum(s, a, a + l) - l) as nat),
    decreases l,
{
    if l == 0 {
    } else {
        let c = ro_count(s, a);
        assert(c >= 1);
        lemma_prod_le_pow_rec(s, a + 1, l - 1);
        lemma_interval_sum_ge_width(s, a + 1, a + l);
        let srest = interval_count_sum(s, a + 1, a + l);
        let prest = run_prod_from(s, a + 1, l - 1);
        lemma_le_two_to((c - 1) as nat);
        lemma_two_to_adds((c - 1) as nat, (srest - (l - 1)) as nat);
        assert(c * prest <= two_to((c - 1) as nat) * two_to((srest - (l - 1)) as nat))
            by (nonlinear_arith)
            requires
                1 <= c,
                1 <= prest,
                c <= two_to((c - 1) as nat),
                prest <= two_to((srest - (l - 1)) as nat),
                two_to((c - 1) as nat) >= 1,
                two_to((srest - (l - 1)) as nat) >= 1,
        ;
        assert(c * prest >= 1) by (nonlinear_arith)
            requires 1 <= c && 1 <= prest,
        ;
        assert((c - 1) + (srest - (l - 1)) == (c + srest) - l);
        assert(interval_count_sum(s, a, a + l) == c + srest);
    }
}

proof fn lemma_runs_score_from_nonneg(s: Seq<Card>, a: int)
    requires
        0 <= a,
    ensures
        spec_runs_score_from(s, a) >= 0,
    decreases 13 - a,
{
    if a < 13 {
        lemma_runs_score_from_nonneg(s, a + 1);
        if (a == 0 || ro_count(s, a - 1) == 0) && run_len_from(s, a) >= 3 {
            lemma_run_len_props(s, a);
            lemma_prod_le_pow(s, a, run_len_from(s, a));
            assert(run_len_from(s, a) * run_prod_from(s, a, run_len_from(s, a)) >= 0)
                by (nonlinear_arith)
                requires
                    run_len_from(s, a) >= 3,
                    run_prod_from(s, a, run_len_from(s, a)) >= 1,
            ;
        }
    }
}

/// Orders whose predecessor is occupied start no maximal stretch, so the
/// tail sum stands still across them.
proof fn lemma_runs_from_skip(s: Seq<Card>, b: int, e: int)
    requires
        1 <= b <= e <= 13,
        forall|x: int| b - 1 <= x < e - 1 ==> #[trigger] ro_count(s, x) >= 1,
    ensures
        spec_runs_score_from(s, b) == spec_runs_score_from(s, e),
    decreases e - b,
{
    if b < e {
        assert(ro_count(s, b - 1) >= 1);
        assert(run_contribution(s, b) == 0);
        lemma_runs_from_skip(s, b + 1, e);
    }
}

/// With five cards at most, the run points from `a` on are bounded by four
/// times the cards whose orders lie at `a` or above.
proof fn lemma_runs_score_bound(s: Seq<Card>, a: int)
    requires
        0 <= a <= 13,
        s.len() <= 5,
    ensures
        spec_runs_score_from(s, a) <= 4 * interval_count_sum(s, a, 13),
    decreases 13 - a,
{
    if a >= 13 {
    } else if run_contribution(s, a) == 0 {
        lemma_runs_score_bound(s, a + 1);
        lemma_rank_count_bounds(s, crate::card::spec_rank_from_run_order(a));
    } else {
        let l = run_len_from(s, a);
        lemma_run_len_props(s, a);
        lemma_prod_le_pow(s, a, l);
        let s1 = interval_count_sum(s, a, a + l);
        lemma_interval_sum_ge_width(s, a, a + l);
        // the whole tally is the sequence length, so s1 is at most five
        lemma_interval_sum_total(s);
        lemma_interval_sum_split(s, 0, a, 13);
        lemma_interval_sum_split(s, a, a + l, 13);
        lemma_interval_sum_nonneg(s, 0, a);
        lemma_interval_sum_nonneg(s, a + l, 13);
        assert(s1 <= 5);
        assert(3 <= l <= s1);
        let d = (s1 - l) as nat;
        assert(d <= 2);
        crate::counting::lemma_two_to_values();
        assert(run_contribution(s, a) == l * run_prod_from(s, a, l));
        assert(l * run_prod_from(s, a, l) <= l * two_to(d)) by (nonlinear_arith)
            requires
                l >= 3,
                1 <= run_prod_from(s, a, l),
                run_prod_from(s, a, l) <= two_to(d),
        ;
        assert(l * two_to(d) <= 4 * s1) by (nonlinear_arith)
            requires
                3 <= l <= s1,
                (d == 0 && two_to(d) == 1 && s1 == l) || (d == 1 && two_to(d) == 2 && s1 == l
                    + 1) || (d == 2 && two_to(d) == 4 && s1 == l + 2),
        ;
        lemma_runs_from_skip(s, a + 1, a + l);
        lemma_runs_score_bound(s, a + l);
        lemma_interval_sum_split(s, a + l, 13, 13);
    }
}

/// How many subsets of `cards[i..]` have values summing to `target`.
fn count_fifteen_subsets(cards: &Vec<Card>, i: usize, target: u8) -> (cnt: u8)
    requires
        i <= cards@.len(),
        cards@.len() - i <= 7,
        target <= 15,
    ensures
        cnt == subset_sum_count(cards@.subrange(i as int, cards@.len() as int), target as int),
        cnt <= two_to((cards@.len() - i) as nat),
    decreases cards@.len() - i,
{
    let n = cards.len();
    if i == n {
        proof {
            assert(cards@.subrange(i as int, n as int).len() == 0);
        }
        if target == 0 {
            1
        } else {
            0
        }
    } else {
        let ghost sub = cards@.subrange(i as int, n as int);
        let ghost sub1 = cards@.subrange(i + 1 as int, n as int);
        proof {
            assert(sub.drop_first() =~= sub1);
            assert(sub.first() == cards@[i as int]);
        }
        let v = cards[i].count_value();
        let without = count_fifteen_subsets(cards, i + 1, target);
        proof {
            lemma_two_to_monotone(((n - i) - 1) as nat, 6);
            crate::counting::lemma_two_to_values();
        }
        if v <= target {
            let with = count_fifteen_subsets(cards, i + 1, target - v);
            proof {
                lemma_two_to_adds(1, ((n - i) - 1) as nat);
            }
            without + with
        } else {
            proof {
                lemma_subset_sum_count_negative(sub1, target - v);
                lemma_two_to_pos(((n - i) - 1) as nat);
                lemma_two_to_adds(1, ((n - i) - 1) as nat);
            }
            without
        }
    }
}

/// Twice the number of rank-sharing pairs among the cards.
fn count_pairs(cards: &Vec<Card>) -> (score: u8)
    requires
        cards@.len() <= 7,
    ensures
        score == spec_pairs_score(cards@),
{
    let n = cards.len();
    let mut cnt: u8 = 0;
    let mut j: usize = 0;
    while j < n
        invariant
            j <= n,
            n == cards@.len() <= 7,
            cnt == spec_pair_count(cards@.subrange(0, j as int)),
            cnt <= 49,
        decreases n - j,
    {
        let ghost prefix = cards@.subrange(0, j as int);
        let rj = cards[j].rank();
        let mut i: usize = 0;
        while i < j
            invariant
                i <= j < n,
                n == cards@.len() <= 7,
                rj == cards@[j as int].rank,
                cnt == spec_pair_count(prefix) + rank_count(cards@.subrange(0, i as int), rj),
                prefix == cards@.subrange(0, j as int),
                cnt <= 56,
            decreases j - i,
        {
            proof {
                assert(cards@.subrange(0, i + 1 as int).drop_last() =~= cards@.subrange(
                    0,
                    i as int,
                ));
                lemma_pair_count_small(prefix);
                lemma_rank_count_bounds(cards@.subrange(0, i as int), rj);
            }
            if cards[i].rank() == rj {
                cnt += 1;
            }
            i += 1;
        }
        proof {
            assert(cards@.subrange(0, j + 1 as int).drop_last() =~= cards@.subrange(0, j as int));
            lemma_pair_count_small(cards@.subrange(0, j + 1 as int));
        }
        j += 1;
    }
    proof {
        assert(cards@.subrange(0, n as int) =~= cards@);
        lemma_pair_count_small(cards@);
    }
    2 * cnt
}

/// Bookkeeping for the product scan: peeling one factor off the front
/// keeps the running product small.
proof fn lemma_peel_factor(p: int, c: int, rest: int)
    requires
        p >= 1,
        c >= 1,
        rest >= 1,
        p * (c * rest) <= 4,
    ensures
        p * (c * rest) == (p * c) * rest,
        1 <= p * c <= 4,
{
    assert(p * (c * rest) == (p * c) * rest) by (nonlinear_arith);
    assert(1 <= p * c <= p * (c * rest)) by (nonlinear_arith)
        requires p >= 1 && c >= 1 && rest >= 1,
    ;
}

/// The end of the maximal occupied stretch of run orders beginning at `a`.
fn scan_stretch_end(counts: &Vec<u8>, a: usize, Ghost(s): Ghost<Seq<Card>>) -> (x: usize)
    requires
        counts@.len() == 13,
        a <= 13,
        forall|o2: int| 0 <= o2 < 13 ==> counts@[o2] == ro_count(s, o2),
    ensures
        a <= x <= 13,
        x - a == run_len_from(s, a as int),
        forall|o: int| a <= o < x ==> ro_count(s, o) >= 1,
{
    let mut x = a;
    while x < 13 && counts[x] > 0
        invariant
            a <= x <= 13,
            counts@.len() == 13,
            forall|o2: int| 0 <= o2 < 13 ==> counts@[o2] == ro_count(s, o2),
            run_len_from(s, a as int) == (x - a) + run_len_from(s, x as int),
            forall|o: int| a <= o < x ==> ro_count(s, o) >= 1,
        decreases 13 - x,
    {
        x += 1;
    }
    proof {
        assert(run_len_from(s, x as int) == 0);
    }
    x
}

/// The product of the counts over the stretch `[a, x)`, when small enough
/// to fit comfortably.
fn stretch_product(counts: &Vec<u8>, a: usize, x: usize, Ghost(s): Ghost<Seq<Card>>) -> (p: u8)
    requires
        counts@.len() == 13,
        a <= x <= 13,
        forall|o2: int| 0 <= o2 < 13 ==> counts@[o2] == ro_count(s, o2),
        forall|o: int| a <= o < x ==> ro_count(s, o) >= 1,
        run_prod_from(s, a as int, (x - a) as int) <= 4,
    ensures
        p == run_prod_from(s, a as int, (x - a) as int),
        1 <= p <= 4,
{
    let mut p: u8 = 1;
    let mut y = a;
    while y < x
        invariant
            a <= y <= x <= 13,
            counts@.len() == 13,
            forall|o2: int| 0 <= o2 < 13 ==> counts@[o2] == ro_count(s, o2),
            forall|o: int| a <= o < x ==> ro_count(s, o) >= 1,
            1 <= p,
            p * run_prod_from(s, y as int, (x - y) as int) == run_prod_from(
                s,
                a as int,
                (x - a) as int,
            ),
            run_prod_from(s, a as int, (x - a) as int) <= 4,
            p <= 4,
        decreases x - y,
    {
        let c = counts[y];
        proof {
            let rest = run_prod_from(s, y + 1 as int, (x - y - 1) as int);
            lemma_prod_le_pow(s, y + 1 as int, (x - y - 1) as int);
            assert(run_prod_from(s, y as int, (x - y) as int) == c * rest);
            assert(c >= 1);
            lemma_peel_factor(p as int, c as int, rest);
        }
        p = p * c;
        y += 1;
    }
    proof {
        assert(run_prod_from(s, x as int, 0) == 1);
        lemma_prod_le_pow(s, a as int, (x - a) as int);
    }
    p
}

/// Run points of the show, by scanning the thirteen run orders for
/// maximal occupied stretches.
fn count_runs(cards: &Vec<Card>) -> (score: u8)
    requires
        cards@.len() <= 5,
    ensures
        score == spec_runs_score(cards@),
        score <= 4 * cards@.len(),
{
    let counts = build_ro_counts(cards, 0, cards.len());
    proof {
        assert(cards@.subrange(0, cards@.len() as int) =~= cards@);
        lemma_interval_sum_total(cards@);
        lemma_runs_score_bound(cards@, 0);
        lemma_runs_score_from_nonneg(cards@, 0);
    }
    let ghost s = cards@;
    let mut score: u8 = 0;
    let mut a: usize = 0;
    while a < 13
        invariant
            a <= 13,
            counts@.len() == 13,
            s == cards@,
            cards@.len() <= 5,
            forall|o2: int| 0 <= o2 < 13 ==> counts@[o2] == ro_count(s, o2),
            score + spec_runs_score_from(s, a as int) == spec_runs_score(s),
            score <= 20,
        decreases 13 - a,
    {
        proof {
            lemma_runs_score_from_nonneg(s, a + 1 as int);
            lemma_runs_score_bound(s, 0);
            lemma_interval_sum_total(s);
        }
        if a == 0 || counts[a - 1] == 0 {
            let x = scan_stretch_end(&counts, a, Ghost(s));
            let l = x - a;
            if l >= 3 {
                proof {
                    lemma_prod_le_pow(s, a as int, l as int);
                    lemma_interval_sum_ge_width(s, a as int, x as int);
                    lemma_interval_sum_total(s);
                    lemma_interval_sum_split(s, 0, a as int, 13);
                    lemma_interval_sum_split(s, a as int, x as int, 13);
                    lemma_interval_sum_nonneg(s, 0, a as int);
                    lemma_interval_sum_nonneg(s, x as int, 13);
                    assert(interval_count_sum(s, a as int, x as int) <= 5);
                    crate::counting::lemma_two_to_values();
                    assert(run_prod_from(s, a as int, l as int) <= 4);
                    assert(l <= 5);
                }
                let p = stretch_product(&counts, a, x, Ghost(s));
                let contribution = (l as u8) * p;
                proof {
                    assert(run_contribution(s, a as int) == l * p);
                    assert(contribution == run_contribution(s, a as int));
                    assert(spec_runs_score_from(s, a as int) == run_contribution(s, a as int)
                        + spec_runs_score_from(s, a + 1 as int));
                    assert(score + spec_runs_score_from(s, a as int) <= 20);
                    lemma_runs_score_from_nonneg(s, a + 1 as int);
                }
                score = score + contribution;
            } else {
                proof {
                    assert(run_contribution(s, a as int) == 0);
                }
            }
        } else {
            proof {
                assert(ro_count(s, a - 1 as int) >= 1);
                assert(run_contribution(s, a as int) == 0);
            }
        }
        a += 1;
    }
    score
}

/// Flush points of a held hand.
fn count_flush(hand: &Vec<Card>, starter: &Card) -> (score: u8)
    requires
        1 <= hand@.len() <= 250,
    ensures
        score == spec_flush_score(hand@, *starter),
{
    let suit = hand[0].suit();
    let n = hand.len();
    let mut i: usize = 1;
    while i < n
        invariant
            1 <= i <= n,
            n == hand@.len() <= 250,
            suit == hand@[0].suit,
            forall|j: int| 0 <= j < i ==> hand@[j].suit == suit,
        decreases n - i,
    {
        if !crate::card::suit_is(hand[i].suit(), suit) {
            proof {
                assert(hand@[i as int].suit != hand@[0].suit);
            }
            return 0;
        }
        i += 1;
    }
    if crate::card::suit_is(starter.suit(), suit) {
        (n as u8) + 1
    } else {
        n as u8
    }
}

/// Nobs: one point for the Jack matching the starter's suit.
fn count_nobs(hand: &Vec<Card>, starter: &Card) -> (score: u8)
    ensures
        score == spec_nobs_score(hand@, *starter),
{
    let n = hand.len();
    let mut i: usize = 0;
    while i < n
        invariant
            i <= n,
            n == hand@.len(),
            forall|j: int|
                0 <= j < i ==> !(hand@[j].rank == Rank::Jack && #[trigger] hand@[j].suit
                    == starter.suit),
        decreases n - i,
    {
        if matches!(hand[i].rank(), Rank::Jack) && crate::card::suit_is(hand[i].suit(), starter.suit()) {
            proof {
                assert(hand@[i as int].rank == Rank::Jack && hand@[i as int].suit == starter.suit);
            }
            return 1;
        }
        i += 1;
    }
    0
}

/// The five cards of the show: the held hand plus the starter.
fn full_hand(hand: &Vec<Card>, starter: &Card) -> (cards: Vec<Card>)
    requires
        hand@.len() == 4,
    ensures
        cards@ == hand@.push(*starter),
{
    let mut cards: Vec<Card> = Vec::new();
    cards.push(hand[0]);
    cards.push(hand[1]);
    cards.push(hand[2]);
    cards.push(hand[3]);
    cards.push(*starter);
    proof {
        assert(cards@ =~= hand@.push(*starter));
    }
    cards
}

/// The show score of a held four-card hand against the starter: fifteens,
/// pairs, runs, flush and nobs, summed.
pub fn score_hand(hand: &Vec<Card>, starter: &Card) -> (score: u8)
    requires
        hand@.len() == 4,
    ensures
        score == spec_show_score(hand@, *starter),
        score <= 140,
{
    let cards = full_hand(hand, starter);
    let f = count_fifteen_subsets(&cards, 0, 15);
    proof {
        assert(cards@.subrange(0, cards@.len() as int) =~= cards@);
        crate::counting::lemma_two_to_values();
        lemma_subset_sum_count_bound(cards@, 15);
        lemma_two_to_monotone(5, 5);
    }
    let fifteens = 2 * f;
    let pairs = count_pairs(&cards);
    proof {
        lemma_pair_count_bound(cards@);
        assert(spec_pair_count(cards@) <= 25);
    }
    let runs = count_runs(&cards);
    let flush = count_flush(hand, starter);
    let nobs = count_nobs(hand, starter);
    fifteens + pairs + runs + flush + nobs
}

/// The show score of the crib against the starter: as a hand, but its
/// flush only counts when the starter matches too.
pub fn score_crib(hand: &Vec<Card>, starter: &Card) -> (score: u8)
    requires
        hand@.len() == 4,
    ensures
        score == spec_crib_show_score(hand@, *starter),
        score <= 140,
{
    let cards = full_hand(hand, starter);
    let f = count_fifteen_subsets(&cards, 0, 15);
    proof {
        assert(cards@.subrange(0, cards@.len() as int) =~= cards@);
        crate::counting::lemma_two_to_values();
        lemma_subset_sum_count_bound(cards@, 15);
        lemma_two_to_monotone(5, 5);
    }
    let fifteens = 2 * f;
    let pairs = count_pairs(&cards);
    proof {
        lemma_pair_count_bound(cards@);
        assert(spec_pair_count(cards@) <= 25);
    }
    let runs = count_runs(&cards);
    let flush = count_flush(hand, starter);
    let crib_flush = if crate::card::suit_is(starter.suit(), hand[0].suit()) {
        flush
    } else {
        0
    };
    proof {
        assert(crib_flush == spec_crib_flush_score(hand@, *starter));
    }
    let nobs = count_nobs(hand, starter);
    fifteens + pairs + runs + crib_flush + nobs
}

} // verus!
