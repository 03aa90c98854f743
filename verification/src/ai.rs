//! The decision engine: it weighs every legal discard split and every
//! legal play, scoring realized combinations outright and potential ones
//! by how many undrawn starters would complete them, as exact fractions
//! over the undrawn deck.

use vstd::prelude::*;
use crate::card::{Card, Rank, lemma_rank_roundtrip, lemma_run_order_range, lemma_run_order_roundtrip,
    rank_from_run_order, spec_count_value, spec_rank_from_run_order, spec_run_order,
    spec_suit_from_index, spec_suit_index, suit_from_index};
use crate::counting::{count_by_rank, count_by_suit, count_by_value, count_total, lemma_rank_count_bounds,
    lemma_suit_count_bounds, lemma_value_count_bounds, rank_count, suit_count, sum_values,
    value_count};
use vstd::relations::{sorted_by, total_ordering};

verus! {

/// The card at position `k` of the rank-major enumeration of the 52 cards:
/// each rank in run order, holding its four suits in canonical order.
pub open spec fn spec_card_rank_major(k: int) -> Card {
    Card { suit: spec_suit_from_index(k % 4), rank: spec_rank_from_run_order(k / 4) }
}

/// All 52 cards, rank-major.
pub open spec fn full_deck_rank_major() -> Seq<Card> {
    Seq::new(52, |k: int| spec_card_rank_major(k))
}

/// The cards an opposing starter could still be drawn from: the full deck
/// less the cards held.
pub open spec fn undrawn_of(hand: Seq<Card>) -> Seq<Card> {
    full_deck_rank_major().filter(|c: Card| !hand.contains(c))
}

/// Is the card among those held?
fn vec_contains(cards: &Vec<Card>, c: Card) -> (r: bool)
    ensures
        r == cards@.contains(c),
{
    let mut i: usize = 0;
    while i < cards.len()
        invariant
            i <= cards@.len(),
            forall|j: int| 0 <= j < i ==> cards@[j] != c,
        decreases cards@.len() - i,
    {
        if crate::card::card_is(cards[i], c) {
            return true;
        }
        i += 1;
    }
    false
}

/// The undrawn portion of the deck, given the cards held.
fn build_undrawn(hand: &Vec<Card>) -> (deck: Vec<Card>)
    ensures
        deck@ == undrawn_of(hand@),
        deck@.len() <= 52,
{
    let ghost pred = |c: Card| !hand@.contains(c);
    let mut deck: Vec<Card> = Vec::new();
    let mut k: usize = 0;
    proof {
        reveal(Seq::filter);
        assert(full_deck_rank_major().subrange(0, 0).filter(pred) =~= Seq::<Card>::empty());
    }
    while k < 52
        invariant
            k <= 52,
            deck@ == full_deck_rank_major().subrange(0, k as int).filter(pred),
            pred == (|c: Card| !hand@.contains(c)),
            deck@.len() <= k,
        decreases 52 - k,
    {
        let ri = (k / 4) as u8;
        let si = (k % 4) as u8;
        let c = Card::new(suit_from_index(si), rank_from_run_order(ri).unwrap());
        proof {
            assert(c == spec_card_rank_major(k as int));
            assert(full_deck_rank_major()[k as int] == c);
        }
        let held = vec_contains(hand, c);
        if !held {
            deck.push(c);
        }
        proof {
            reveal(Seq::filter);
            let pre = full_deck_rank_major().subrange(0, k as int);
            let post = full_deck_rank_major().subrange(0, k + 1 as int);
            assert(post.drop_last() =~= pre);
            assert(post.last() == c);
            pre.lemma_filter_len(pred);
        }
        k += 1;
    }
    proof {
        assert(full_deck_rank_major().subrange(0, 52) =~= full_deck_rank_major());
    }
    deck
}

/// The key by which the AI keeps its hand sorted: run order first, suit
/// second; distinct cards never share a key.
pub open spec fn spec_card_key(c: Card) -> int {
    4 * spec_run_order(c.rank) + spec_suit_index(c.suit)
}

/// The order the AI sorts a hand into.
pub open spec fn card_le(a: Card, b: Card) -> bool {
    spec_card_key(a) <= spec_card_key(b)
}

/// The hand as the AI sees it: sorted ascending by run order, suits
/// breaking ties.
pub open spec fn sorted_hand(cards: Seq<Card>) -> Seq<Card> {
    cards.sort_by(|a: Card, b: Card| card_le(a, b))
}

proof fn lemma_card_key_injective(a: Card, b: Card)
    requires
        spec_card_key(a) == spec_card_key(b),
    ensures
        a == b,
{
    lemma_run_order_range(a.rank);
    lemma_run_order_range(b.rank);
    let oa = spec_run_order(a.rank);
    let ob = spec_run_order(b.rank);
    let sa = spec_suit_index(a.suit);
    let sb = spec_suit_index(b.suit);
    assert(oa == ob && sa == sb) by (nonlinear_arith)
        requires
            4 * oa + sa == 4 * ob + sb,
            0 <= oa <= 12,
            0 <= ob <= 12,
            0 <= sa < 4,
            0 <= sb < 4,
    ;
    lemma_rank_roundtrip(a.rank);
    lemma_rank_roundtrip(b.rank);
    assert(spec_suit_from_index(spec_suit_index(a.suit)) == a.suit);
    assert(spec_suit_from_index(spec_suit_index(b.suit)) == b.suit);
}

proof fn lemma_card_le_total()
    ensures
        total_ordering(|a: Card, b: Card| card_le(a, b)),
{
    let leq = |a: Card, b: Card| card_le(a, b);
    assert forall|a: Card, b: Card| #[trigger] leq(a, b) && leq(b, a) implies a == b by {
        lemma_card_key_injective(a, b);
    }
    assert(vstd::relations::reflexive(leq)) by {
        assert(forall|a: Card| #[trigger] leq(a, a));
    }
}

/// The exec comparison key of a card.
fn card_key(c: &Card) -> (k: u8)
    ensures
        k == spec_card_key(*c),
{
    4 * c.run_order() + crate::card::suit_index(c.suit())
}

/// The hand sorted ascending by run order (insertion sort).
fn sort_hand(cards: &Vec<Card>) -> (s: Vec<Card>)
    requires
        cards@.len() <= 6,
    ensures
        s@ == sorted_hand(cards@),
        s@.len() == cards@.len(),
        s@.to_multiset() == cards@.to_multiset(),
{
    let ghost leq = |a: Card, b: Card| card_le(a, b);
    let mut out: Vec<Card> = Vec::new();
    let mut i: usize = 0;
    proof {
        broadcast use vstd::seq_lib::group_to_multiset_ensures;

        assert(cards@.subrange(0, 0).to_multiset() =~= Seq::<Card>::empty().to_multiset());
        assert(out@.to_multiset() =~= cards@.subrange(0, 0).to_multiset());
    }
    while i < cards.len()
        invariant
            i <= cards@.len() <= 6,
            out@.len() == i,
            sorted_by(out@, leq),
            leq == (|a: Card, b: Card| card_le(a, b)),
            out@.to_multiset() == cards@.subrange(0, i as int).to_multiset(),
        decreases cards@.len() - i,
    {
        let c = cards[i];
        let mut p: usize = 0;
        while p < out.len() && card_key(&out[p]) <= card_key(&c)
            invariant
                p <= out@.len(),
                forall|q: int| 0 <= q < p ==> spec_card_key(out@[q]) <= spec_card_key(c),
            decreases out@.len() - p,
        {
            p += 1;
        }
        let ghost before = out@;
        out.insert(p, c);
        proof {
            broadcast use vstd::seq_lib::group_to_multiset_ensures;

            assert(out@ == before.insert(p as int, c));
            assert forall|q1: int, q2: int| 0 <= q1 < q2 < out@.len() implies leq(
                out@[q1],
                out@[q2],
            ) by {
                if q1 < p && q2 < p {
                    assert(out@[q1] == before[q1] && out@[q2] == before[q2]);
                } else if q1 < p && q2 == p {
                    assert(out@[q1] == before[q1]);
                } else if q1 < p && q2 > p {
                    assert(out@[q1] == before[q1] && out@[q2] == before[q2 - 1]);
                    if q2 - 1 >= p {
                        assert(!(spec_card_key(before[p as int]) <= spec_card_key(c)) || p
                            == before.len());
                    }
                } else if q1 == p {
                    assert(out@[q2] == before[q2 - 1]);
                    assert(q2 - 1 >= p);
                    if p < before.len() {
                        assert(leq(before[p as int], before[q2 - 1]) || p as int == q2 - 1);
                    }
                } else {
                    assert(out@[q1] == before[q1 - 1] && out@[q2] == before[q2 - 1]);
                }
            }
            assert(cards@.subrange(0, i + 1 as int).drop_last() =~= cards@.subrange(0, i as int));
            assert(cards@.subrange(0, i + 1 as int) =~= cards@.subrange(0, i as int).push(c));
            assert(out@.to_multiset() =~= cards@.subrange(0, i + 1 as int).to_multiset());
        }
        i += 1;
    }
    proof {
        assert(cards@.subrange(0, cards@.len() as int) =~= cards@);
        lemma_card_le_total();
        cards@.lemma_sort_by_ensures(leq);
        broadcast use vstd::seq_lib::group_to_multiset_ensures;

        vstd::seq_lib::lemma_sorted_unique(out@, sorted_hand(cards@), leq);
        vstd::seq_lib::to_multiset_len(out@);
        vstd::seq_lib::to_multiset_len(cards@);
    }
    out
}

// ---------------------------------------------------------------------
// Expected value of a candidate split, as an exact fraction.
//
// Every value below is the numerator of a fraction over the fixed
// denominator `dlen * (dlen - 1)`, where `dlen` is the size of the
// undrawn deck. A certain score of `p` points is `p * dlen * (dlen - 1)`;
// a score of `p` points that needs one of `cnt` helpful cards to be cut
// is `cnt * p * (dlen - 1)`. Working over one denominator keeps the
// comparison of candidate splits exact.
// ---------------------------------------------------------------------

/// Potential points: `cnt / dlen * pts`, scaled by the fixed denominator.
pub open spec fn ev_pts(cnt: int, dlen: int, pts: int) -> int {
    cnt * pts * (dlen - 1)
}

/// Certain points: `pts`, scaled by the fixed denominator.
pub open spec fn ev_exact(dlen: int, pts: int) -> int {
    pts * dlen * (dlen - 1)
}

/// What one subset of held cards adds for fifteens: two certain points at
/// a sum of fifteen, or two potential points when a single cut card of
/// the missing value would complete fifteen.
pub open spec fn fifteen_contrib(sum: int, deck: Seq<Card>) -> int {
    if sum == 15 {
        ev_exact(deck.len() as int, 2)
    } else if 5 <= sum <= 14 {
        ev_pts(value_count(deck, 15 - sum), deck.len() as int, 2)
    } else {
        0
    }
}

/// The fifteens value summed over every subset of `cards[i..]`, each
/// subset's sum seeded with `acc`.
pub open spec fn fifteens_ev_from(cards: Seq<Card>, i: int, acc: int, deck: Seq<Card>) -> int
    decreases cards.len() - i,
{
    if i < 0 || i >= cards.len() {
        fifteen_contrib(acc, deck)
    } else {
        fifteens_ev_from(cards, i + 1, acc, deck) + fifteens_ev_from(
            cards,
            i + 1,
            acc + spec_count_value(cards[i].rank),
            deck,
        )
    }
}

pub open spec fn fifteens_ev(cards: Seq<Card>, deck: Seq<Card>) -> int {
    fifteens_ev_from(cards, 0, 0, deck)
}

/// What one rank-sharing pair is worth: two certain points, and four
/// potential points for each undrawn card of the same rank (a cut card
/// of that rank would raise the pair to a triple).
pub open spec fn pair_term(deck: Seq<Card>, r: Rank) -> int {
    ev_exact(deck.len() as int, 2) + ev_pts(rank_count(deck, r), deck.len() as int, 4)
}

/// The pairs value summed over every rank-sharing pair of the cards.
pub open spec fn pairs_ev(s: Seq<Card>, deck: Seq<Card>) -> int
    decreases s.len(),
{
    if s.len() == 0 {
        0
    } else {
        pairs_ev(s.drop_last(), deck) + rank_count(s.drop_last(), s.last().rank) * pair_term(
            deck,
            s.last().rank,
        )
    }
}

/// The run order of the card at position `i`.
pub open spec fn ord_of(s: Seq<Card>, i: int) -> int {
    spec_run_order(s[i].rank)
}

/// The cards' run orders ascend in exact steps of one.
pub open spec fn exact_run_form(s: Seq<Card>) -> bool {
    forall|i: int| 0 <= i < s.len() ==> #[trigger] ord_of(s, i) == ord_of(s, 0) + i
}

/// The cards' run orders ascend in steps of one but skip a single order,
/// just before position `g`.
pub open spec fn gap_at(s: Seq<Card>, g: int) -> bool {
    &&& 1 <= g < s.len()
    &&& forall|i: int| 0 <= i < g ==> #[trigger] ord_of(s, i) == ord_of(s, 0) + i
    &&& forall|i: int| g <= i < s.len() ==> #[trigger] ord_of(s, i) == ord_of(s, 0) + i + 1
}

pub open spec fn gap_form(s: Seq<Card>) -> bool {
    exists|g: int| gap_at(s, g)
}

pub open spec fn gap_index(s: Seq<Card>) -> int {
    choose|g: int| gap_at(s, g)
}

/// How many undrawn cards share a rank with any of the given cards.
pub open spec fn deck_matches(s: Seq<Card>, deck: Seq<Card>) -> int
    decreases s.len(),
{
    if s.len() == 0 {
        0
    } else {
        deck_matches(s.drop_last(), deck) + rank_count(deck, s.last().rank)
    }
}

/// Two adjacent cards: three potential points for each undrawn card that
/// would extend them to a run of three on either open side.
pub open spec fn pair_run_ev(s: Seq<Card>, deck: Seq<Card>) -> int {
    let start = ord_of(s, 0);
    let dlen = deck.len() as int;
    if s[0].rank == Rank::Ace {
        ev_pts(rank_count(deck, spec_rank_from_run_order(start + 2)), dlen, 3)
    } else if s[s.len() - 1].rank == Rank::King {
        ev_pts(rank_count(deck, spec_rank_from_run_order(start - 1)), dlen, 3)
    } else {
        ev_pts(
            rank_count(deck, spec_rank_from_run_order(start - 1)) + rank_count(
                deck,
                spec_rank_from_run_order(start + 2),
            ),
            dlen,
            3,
        )
    }
}

/// A realized run of three or more: its certain points, another full run
/// for each undrawn card matching a rank inside it, and one point for
/// each undrawn card extending it on an open side.
pub open spec fn complete_run_ev(s: Seq<Card>, deck: Seq<Card>) -> int {
    let n = s.len() as int;
    let start = ord_of(s, 0);
    let dlen = deck.len() as int;
    let edges = if s[0].rank == Rank::Ace {
        ev_pts(rank_count(deck, spec_rank_from_run_order(start + n)), dlen, 1)
    } else if s[n - 1].rank == Rank::King {
        ev_pts(rank_count(deck, spec_rank_from_run_order(start - 1)), dlen, 1)
    } else {
        ev_pts(rank_count(deck, spec_rank_from_run_order(start - 1)), dlen, 1) + ev_pts(
            rank_count(deck, spec_rank_from_run_order(start + n)),
            dlen,
            1,
        )
    };
    ev_exact(dlen, n) + ev_pts(deck_matches(s, deck), dlen, n) + edges
}

/// Cards one order short of a run: the completed run's points for each
/// undrawn card of the missing rank.
pub open spec fn gap_run_ev(s: Seq<Card>, deck: Seq<Card>) -> int {
    ev_pts(
        rank_count(deck, spec_rank_from_run_order(ord_of(s, 0) + gap_index(s))),
        deck.len() as int,
        s.len() + 1int,
    )
}

/// The run value of one sorted subset of held cards.
pub open spec fn run_ev(s: Seq<Card>, deck: Seq<Card>) -> int {
    if s.len() < 2 {
        0
    } else if exact_run_form(s) {
        if s.len() == 2 {
            pair_run_ev(s, deck)
        } else {
            complete_run_ev(s, deck)
        }
    } else if gap_form(s) {
        gap_run_ev(s, deck)
    } else {
        0
    }
}

/// The run values of all `size`-card subsets of `cards[i..]`, appended to
/// the already chosen cards.
pub open spec fn runs_ev_subsets(
    cards: Seq<Card>,
    i: int,
    chosen: Seq<Card>,
    size: int,
    deck: Seq<Card>,
) -> int
    decreases cards.len() - i,
{
    if i < 0 || i >= cards.len() {
        if chosen.len() == size {
            run_ev(chosen, deck)
        } else {
            0
        }
    } else {
        runs_ev_subsets(cards, i + 1, chosen, size, deck) + runs_ev_subsets(
            cards,
            i + 1,
            chosen.push(cards[i]),
            size,
            deck,
        )
    }
}

pub open spec fn runs_ev_size(cards: Seq<Card>, size: int, deck: Seq<Card>) -> int {
    runs_ev_subsets(cards, 0, Seq::empty(), size, deck)
}

/// The run value of the cards: the largest subset size whose subsets
/// score anything wins, never both a run and its sub-runs.
pub open spec fn runs_ev(cards: Seq<Card>, deck: Seq<Card>) -> int {
    if cards.len() >= 4 && runs_ev_size(cards, 4, deck) != 0 {
        runs_ev_size(cards, 4, deck)
    } else if cards.len() >= 3 && runs_ev_size(cards, 3, deck) != 0 {
        runs_ev_size(cards, 3, deck)
    } else if cards.len() >= 2 && runs_ev_size(cards, 2, deck) != 0 {
        runs_ev_size(cards, 2, deck)
    } else {
        0
    }
}

/// The flush value: four kept cards of one suit are certain points plus a
/// potential fifth; two discarded cards of one suit carry a small chance
/// that the crib flushes.
pub open spec fn flush_ev(h: Seq<Card>, deck: Seq<Card>) -> int {
    let dlen = deck.len() as int;
    if h.len() >= 1 && (forall|i: int| 0 <= i < h.len() ==> #[trigger] h[i].suit == h[0].suit) {
        let r = suit_count(deck, h[0].suit);
        if h.len() == 2 {
            4 * r * (r - 1)
        } else {
            ev_exact(dlen, 4) + ev_pts(r, dlen, 1)
        }
    } else {
        0
    }
}

/// The nobs value: for each Jack held, one potential point for each
/// undrawn card of its suit.
pub open spec fn nobs_ev(h: Seq<Card>, deck: Seq<Card>) -> int
    decreases h.len(),
{
    if h.len() == 0 {
        0
    } else {
        nobs_ev(h.drop_last(), deck) + if h.last().rank == Rank::Jack {
            ev_pts(suit_count(deck, h.last().suit), deck.len() as int, 1)
        } else {
            0int
        }
    }
}

/// The whole expected value of a set of cards against the undrawn deck.
pub open spec fn cards_ev(cards: Seq<Card>, deck: Seq<Card>) -> int {
    fifteens_ev(cards, deck) + pairs_ev(cards, deck) + runs_ev(cards, deck) + flush_ev(
        cards,
        deck,
    ) + nobs_ev(cards, deck)
}

proof fn lemma_ev_pts_bounds(cnt: int, dlen: int, pts: int, cmax: int, pmax: int)
    requires
        0 <= cnt <= cmax,
        0 <= pts <= pmax,
        0 <= dlen <= 52,
        dlen == 0 ==> cnt == 0,
    ensures
        0 <= ev_pts(cnt, dlen, pts) <= cmax * pmax * 51,
{
    if dlen == 0 {
        assert(ev_pts(cnt, dlen, pts) == 0) by (nonlinear_arith)
            requires cnt == 0 && ev_pts(cnt, dlen, pts) == cnt * pts * (dlen - 1),
        ;
        assert(0 <= cmax * pmax * 51) by (nonlinear_arith)
            requires 0 <= cmax && 0 <= pmax,
        ;
    } else {
        assert(0 <= cnt * pts * (dlen - 1) <= cmax * pmax * 51) by (nonlinear_arith)
            requires
                0 <= cnt <= cmax,
                0 <= pts <= pmax,
                1 <= dlen <= 52,
        ;
    }
}

proof fn lemma_ev_exact_bounds(dlen: int, pts: int, pmax: int)
    requires
        0 <= pts <= pmax,
        0 <= dlen <= 52,
    ensures
        0 <= ev_exact(dlen, pts) <= pmax * 2652,
{
    assert(0 <= pts * dlen * (dlen - 1) <= pmax * 2652) by (nonlinear_arith)
        requires
            0 <= pts <= pmax,
            0 <= dlen <= 52,
    ;
}

proof fn lemma_fifteen_contrib_bounds(sum: int, deck: Seq<Card>)
    requires
        deck.len() <= 52,
    ensures
        0 <= fifteen_contrib(sum, deck) <= 5304,
{
    lemma_value_count_bounds(deck, 15 - sum);
    if sum == 15 {
        lemma_ev_exact_bounds(deck.len() as int, 2, 2);
    } else if 5 <= sum <= 14 {
        lemma_ev_pts_bounds(value_count(deck, 15 - sum), deck.len() as int, 2, 52, 2);
    }
}

proof fn lemma_fifteens_ev_bounds(cards: Seq<Card>, i: int, acc: int, deck: Seq<Card>)
    requires
        deck.len() <= 52,
        cards.len() - i <= 4,
    ensures
        0 <= fifteens_ev_from(cards, i, acc, deck) <= 84864,
    decreases cards.len() - i,
{
    if i < 0 || i >= cards.len() {
        lemma_fifteen_contrib_bounds(acc, deck);
    } else {
        lemma_fifteens_ev_bounds(cards, i + 1, acc, deck);
        lemma_fifteens_ev_bounds(cards, i + 1, acc + spec_count_value(cards[i].rank), deck);
        lemma_fifteens_ev_tight(cards, i, acc, deck);
        let k = (cards.len() - i) as nat;
        crate::counting::lemma_two_to_values();
        crate::counting::lemma_two_to_monotone(k, 4);
        crate::counting::lemma_two_to_pos(k);
        assert(crate::counting::two_to(k) * 5304 <= 16 * 5304) by (nonlinear_arith)
            requires 1 <= crate::counting::two_to(k) <= 16,
        ;
    }
}

/// The tighter shape behind the bound: each level at most doubles.
proof fn lemma_fifteens_ev_tight(cards: Seq<Card>, i: int, acc: int, deck: Seq<Card>)
    requires
        deck.len() <= 52,
        cards.len() - i <= 4,
    ensures
        0 <= fifteens_ev_from(cards, i, acc, deck) <= crate::counting::two_to(
            (if cards.len() - i >= 0 {
                (cards.len() - i) as nat
            } else {
                0nat
            }),
        ) * 5304,
    decreases cards.len() - i,
{
    crate::counting::lemma_two_to_values();
    if i < 0 || i >= cards.len() {
        lemma_fifteen_contrib_bounds(acc, deck);
        crate::counting::lemma_two_to_pos(
            (if cards.len() - i >= 0 {
                (cards.len() - i) as nat
            } else {
                0nat
            }),
        );
        assert(fifteen_contrib(acc, deck) <= 1 * 5304);
        assert(crate::counting::two_to(
            (if cards.len() - i >= 0 {
                (cards.len() - i) as nat
            } else {
                0nat
            }),
        ) * 5304 >= 1 * 5304) by (nonlinear_arith)
            requires crate::counting::two_to(
                (if cards.len() - i >= 0 {
                    (cards.len() - i) as nat
                } else {
                    0nat
                }),
            ) >= 1,
        ;
    } else {
        lemma_fifteens_ev_tight(cards, i + 1, acc, deck);
        lemma_fifteens_ev_tight(cards, i + 1, acc + spec_count_value(cards[i].rank), deck);
        let k = (cards.len() - i - 1) as nat;
        assert(crate::counting::two_to(k + 1) == 2 * crate::counting::two_to(k));
        assert(crate::counting::two_to(k) * 5304 + crate::counting::two_to(k) * 5304 == (2
            * crate::counting::two_to(k)) * 5304) by (nonlinear_arith);
    }
}

proof fn lemma_pair_term_bounds(deck: Seq<Card>, r: Rank)
    requires
        deck.len() <= 52,
    ensures
        0 <= pair_term(deck, r) <= 15912,
{
    lemma_rank_count_bounds(deck, r);
    lemma_ev_exact_bounds(deck.len() as int, 2, 2);
    lemma_ev_pts_bounds(rank_count(deck, r), deck.len() as int, 4, 52, 4);
}

proof fn lemma_pairs_ev_bounds(s: Seq<Card>, deck: Seq<Card>)
    requires
        s.len() <= 4,
        deck.len() <= 52,
    ensures
        0 <= pairs_ev(s, deck) <= s.len() * 47736,
    decreases s.len(),
{
    if s.len() == 0 {
    } else {
        lemma_pairs_ev_bounds(s.drop_last(), deck);
        lemma_pair_term_bounds(deck, s.last().rank);
        lemma_rank_count_bounds(s.drop_last(), s.last().rank);
        let m = rank_count(s.drop_last(), s.last().rank);
        let t = pair_term(deck, s.last().rank);
        assert(0 <= m * t <= 47736) by (nonlinear_arith)
            requires
                0 <= m <= 3,
                0 <= t <= 15912,
        ;
    }
}

proof fn lemma_deck_matches_bounds(s: Seq<Card>, deck: Seq<Card>)
    requires
        s.len() <= 4,
        deck.len() <= 52,
    ensures
        0 <= deck_matches(s, deck) <= 52 * s.len(),
        deck.len() == 0 ==> deck_matches(s, deck) == 0,
    decreases s.len(),
{
    if s.len() > 0 {
        lemma_deck_matches_bounds(s.drop_last(), deck);
        lemma_rank_count_bounds(deck, s.last().rank);
    }
}

proof fn lemma_run_ev_bounds(s: Seq<Card>, deck: Seq<Card>)
    requires
        s.len() <= 4,
        deck.len() <= 52,
    ensures
        0 <= run_ev(s, deck) <= 58344,
{
    let dlen = deck.len() as int;
    if s.len() >= 2 && exact_run_form(s) {
        if s.len() == 2 {
            let start = ord_of(s, 0);
            lemma_rank_count_bounds(deck, spec_rank_from_run_order(start + 2));
            lemma_rank_count_bounds(deck, spec_rank_from_run_order(start - 1));
            if s[0].rank == Rank::Ace {
                lemma_ev_pts_bounds(
                    rank_count(deck, spec_rank_from_run_order(start + 2)),
                    dlen,
                    3,
                    52,
                    3,
                );
            } else if s[s.len() - 1].rank == Rank::King {
                lemma_ev_pts_bounds(
                    rank_count(deck, spec_rank_from_run_order(start - 1)),
                    dlen,
                    3,
                    52,
                    3,
                );
            } else {
                lemma_ev_pts_bounds(
                    rank_count(deck, spec_rank_from_run_order(start - 1)) + rank_count(
                        deck,
                        spec_rank_from_run_order(start + 2),
                    ),
                    dlen,
                    3,
                    104,
                    3,
                );
            }
        } else {
            let n = s.len() as int;
            let start = ord_of(s, 0);
            lemma_ev_exact_bounds(dlen, n, 4);
            lemma_deck_matches_bounds(s, deck);
            lemma_ev_pts_bounds(deck_matches(s, deck), dlen, n, 208, 4);
            lemma_rank_count_bounds(deck, spec_rank_from_run_order(start + n));
            lemma_rank_count_bounds(deck, spec_rank_from_run_order(start - 1));
            lemma_ev_pts_bounds(
                rank_count(deck, spec_rank_from_run_order(start + n)),
                dlen,
                1,
                52,
                1,
            );
            lemma_ev_pts_bounds(
                rank_count(deck, spec_rank_from_run_order(start - 1)),
                dlen,
                1,
                52,
                1,
            );
        }
    } else if s.len() >= 2 && gap_form(s) {
        let m = spec_rank_from_run_order(ord_of(s, 0) + gap_index(s));
        lemma_rank_count_bounds(deck, m);
        lemma_ev_pts_bounds(rank_count(deck, m), dlen, s.len() + 1int, 52, 5);
    }
}

proof fn lemma_runs_ev_subsets_bounds(
    cards: Seq<Card>,
    i: int,
    chosen: Seq<Card>,
    size: int,
    deck: Seq<Card>,
)
    requires
        cards.len() - i <= 4,
        size <= 4,
        deck.len() <= 52,
    ensures
        0 <= runs_ev_subsets(cards, i, chosen, size, deck) <= 933504,
    decreases cards.len() - i,
{
    if i < 0 || i >= cards.len() {
        if chosen.len() == size {
            lemma_run_ev_bounds(chosen, deck);
        }
    } else {
        lemma_runs_ev_subsets_bounds(cards, i + 1, chosen, size, deck);
        lemma_runs_ev_subsets_bounds(cards, i + 1, chosen.push(cards[i]), size, deck);
        lemma_runs_ev_subsets_tight(cards, i, chosen, size, deck);
        let k = (cards.len() - i) as nat;
        crate::counting::lemma_two_to_values();
        crate::counting::lemma_two_to_monotone(k, 4);
        crate::counting::lemma_two_to_pos(k);
        assert(crate::counting::two_to(k) * 58344 <= 16 * 58344) by (nonlinear_arith)
            requires 1 <= crate::counting::two_to(k) <= 16,
        ;
    }
}

proof fn lemma_runs_ev_subsets_tight(
    cards: Seq<Card>,
    i: int,
    chosen: Seq<Card>,
    size: int,
    deck: Seq<Card>,
)
    requires
        cards.len() - i <= 4,
        size <= 4,
        deck.len() <= 52,
    ensures
        0 <= runs_ev_subsets(cards, i, chosen, size, deck) <= crate::counting::two_to(
            (if cards.len() - i >= 0 {
                (cards.len() - i) as nat
            } else {
                0nat
            }),
        ) * 58344,
    decreases cards.len() - i,
{
    crate::counting::lemma_two_to_values();
    if i < 0 || i >= cards.len() {
        if chosen.len() == size {
            lemma_run_ev_bounds(chosen, deck);
        }
        crate::counting::lemma_two_to_pos(
            (if cards.len() - i >= 0 {
                (cards.len() - i) as nat
            } else {
                0nat
            }),
        );
        assert(crate::counting::two_to(
            (if cards.len() - i >= 0 {
                (cards.len() - i) as nat
            } else {
                0nat
            }),
        ) * 58344 >= 1 * 58344) by (nonlinear_arith)
            requires crate::counting::two_to(
                (if cards.len() - i >= 0 {
                    (cards.len() - i) as nat
                } else {
                    0nat
                }),
            ) >= 1,
        ;
    } else {
        lemma_runs_ev_subsets_tight(cards, i + 1, chosen, size, deck);
        lemma_runs_ev_subsets_tight(cards, i + 1, chosen.push(cards[i]), size, deck);
        let k = (cards.len() - i - 1) as nat;
        assert(crate::counting::two_to(k + 1) == 2 * crate::counting::two_to(k));
        assert(crate::counting::two_to(k) * 58344 + crate::counting::two_to(k) * 58344 == (2
            * crate::counting::two_to(k)) * 58344) by (nonlinear_arith);
    }
}

proof fn lemma_runs_ev_bounds(cards: Seq<Card>, deck: Seq<Card>)
    requires
        cards.len() <= 4,
        deck.len() <= 52,
    ensures
        0 <= runs_ev(cards, deck) <= 933504,
{
    lemma_runs_ev_subsets_bounds(cards, 0, Seq::empty(), 4, deck);
    lemma_runs_ev_subsets_bounds(cards, 0, Seq::empty(), 3, deck);
    lemma_runs_ev_subsets_bounds(cards, 0, Seq::empty(), 2, deck);
}

proof fn lemma_flush_ev_bounds(h: Seq<Card>, deck: Seq<Card>)
    requires
        h.len() <= 4,
        deck.len() <= 52,
    ensures
        0 <= flush_ev(h, deck) <= 13260,
{
    if h.len() >= 1 && (forall|i: int| 0 <= i < h.len() ==> #[trigger] h[i].suit == h[0].suit) {
        let r = suit_count(deck, h[0].suit);
        lemma_suit_count_bounds(deck, h[0].suit);
        if h.len() == 2 {
            assert(0 <= 4 * r * (r - 1) <= 10608) by (nonlinear_arith)
                requires 0 <= r <= 52,
            ;
        } else {
            lemma_ev_exact_bounds(deck.len() as int, 4, 4);
            lemma_ev_pts_bounds(r, deck.len() as int, 1, 52, 1);
        }
    }
}

proof fn lemma_nobs_ev_bounds(h: Seq<Card>, deck: Seq<Card>)
    requires
        h.len() <= 4,
        deck.len() <= 52,
    ensures
        0 <= nobs_ev(h, deck) <= h.len() * 2652,
    decreases h.len(),
{
    if h.len() > 0 {
        lemma_nobs_ev_bounds(h.drop_last(), deck);
        lemma_suit_count_bounds(deck, h.last().suit);
        lemma_ev_pts_bounds(suit_count(deck, h.last().suit), deck.len() as int, 1, 52, 1);
    }
}

proof fn lemma_runs_ev_overfull(cards: Seq<Card>, i: int, chosen: Seq<Card>, size: int, deck: Seq<Card>)
    requires
        chosen.len() > size,
    ensures
        runs_ev_subsets(cards, i, chosen, size, deck) == 0,
    decreases cards.len() - i,
{
    if 0 <= i < cards.len() {
        lemma_runs_ev_overfull(cards, i + 1, chosen, size, deck);
        lemma_runs_ev_overfull(cards, i + 1, chosen.push(cards[i]), size, deck);
    }
}

proof fn lemma_cards_ev_bounds(cards: Seq<Card>, deck: Seq<Card>)
    requires
        cards.len() <= 4,
        deck.len() <= 52,
    ensures
        0 <= cards_ev(cards, deck) <= 1300000,
{
    lemma_fifteens_ev_bounds(cards, 0, 0, deck);
    lemma_pairs_ev_bounds(cards, deck);
    lemma_runs_ev_bounds(cards, deck);
    lemma_flush_ev_bounds(cards, deck);
    lemma_nobs_ev_bounds(cards, deck);
}

/// Potential points, computed over the fixed denominator.
fn ev_pts_exec(cnt: usize, pts: u8, dlen: usize) -> (r: i64)
    requires
        cnt <= 250,
        pts <= 10,
        dlen <= 52,
        dlen == 0 ==> cnt == 0,
    ensures
        r == ev_pts(cnt as int, dlen as int, pts as int),
        0 <= r <= 127500,
{
    proof {
        lemma_ev_pts_bounds(cnt as int, dlen as int, pts as int, 250, 10);
    }
    if dlen == 0 {
        proof {
            assert(ev_pts(cnt as int, dlen as int, pts as int) == 0) by (nonlinear_arith)
                requires cnt == 0 && ev_pts(cnt as int, dlen as int, pts as int) == (cnt as int) * (
                pts as int) * (dlen as int - 1),
            ;
        }
        0
    } else {
        proof {
            assert(0 <= (cnt as int) * (pts as int) <= 2500) by (nonlinear_arith)
                requires 0 <= cnt <= 250 && 0 <= pts <= 10,
            ;
            assert(0 <= ((cnt as int) * (pts as int)) * (dlen as int - 1) <= 127500)
                by (nonlinear_arith)
                requires
                    0 <= (cnt as int) * (pts as int) <= 2500,
                    1 <= dlen <= 52,
            ;
        }
        let a: i64 = (cnt as i64) * (pts as i64);
        a * (dlen as i64 - 1)
    }
}

/// Certain points, scaled by the fixed denominator.
fn ev_exact_exec(pts: u8, dlen: usize) -> (r: i64)
    requires
        pts <= 10,
        dlen <= 52,
    ensures
        r == ev_exact(dlen as int, pts as int),
        0 <= r <= 26520,
{
    proof {
        lemma_ev_exact_bounds(dlen as int, pts as int, 10);
        assert(0 <= (pts as int) * (dlen as int) <= 520) by (nonlinear_arith)
            requires 0 <= pts <= 10 && 0 <= dlen <= 52,
        ;
        assert(((pts as int) * (dlen as int)) * (dlen as int - 1) == ev_exact(
            dlen as int,
            pts as int,
        )) by (nonlinear_arith)
            requires ev_exact(dlen as int, pts as int) == (pts as int) * (dlen as int) * (
            dlen as int - 1),
        ;
        assert(-520 <= ((pts as int) * (dlen as int)) * (dlen as int - 1) <= 27040)
            by (nonlinear_arith)
            requires
                0 <= (pts as int) * (dlen as int) <= 520,
                0 <= dlen <= 52,
        ;
    }
    let a: i64 = (pts as i64) * (dlen as i64);
    a * (dlen as i64 - 1)
}

/// The fifteens value of every subset of `cards[i..]`, sums seeded with
/// `acc`.
fn fifteens_ev_exec(cards: &Vec<Card>, i: usize, acc: u8, deck: &Vec<Card>) -> (ev: i64)
    requires
        i <= cards@.len(),
        cards@.len() <= 4,
        acc <= 10 * i,
        deck@.len() <= 52,
    ensures
        ev == fifteens_ev_from(cards@, i as int, acc as int, deck@),
        0 <= ev <= 84864,
    decreases cards@.len() - i,
{
    proof {
        lemma_fifteens_ev_bounds(cards@, i as int, acc as int, deck@);
    }
    if i == cards.len() {
        if acc == 15 {
            ev_exact_exec(2, deck.len())
        } else if 5 <= acc && acc <= 14 {
            let cnt = count_by_value(deck, 15 - acc);
            proof {
                lemma_value_count_bounds(deck@, 15 - acc as int);
            }
            ev_pts_exec(cnt, 2, deck.len())
        } else {
            0
        }
    } else {
        let without = fifteens_ev_exec(cards, i + 1, acc, deck);
        let v = cards[i].count_value();
        let with_c = fifteens_ev_exec(cards, i + 1, acc + v, deck);
        without + with_c
    }
}

/// How many undrawn cards share a rank with any of the given cards.
fn deck_matches_exec(s: &Vec<Card>, deck: &Vec<Card>) -> (m: usize)
    requires
        s@.len() <= 4,
        deck@.len() <= 52,
    ensures
        m == deck_matches(s@, deck@),
        m <= 208,
{
    let mut m: usize = 0;
    let mut i: usize = 0;
    while i < s.len()
        invariant
            i <= s@.len() <= 4,
            deck@.len() <= 52,
            m == deck_matches(s@.subrange(0, i as int), deck@),
            m <= 52 * i,
        decreases s@.len() - i,
    {
        proof {
            assert(s@.subrange(0, i + 1 as int).drop_last() =~= s@.subrange(0, i as int));
            lemma_rank_count_bounds(deck@, s@[i as int].rank);
        }
        m += count_by_rank(deck, s[i].rank());
        i += 1;
    }
    proof {
        assert(s@.subrange(0, s@.len() as int) =~= s@);
    }
    m
}

/// The pairs value summed over every rank-sharing pair of the cards.
fn pairs_ev_exec(cards: &Vec<Card>, deck: &Vec<Card>) -> (ev: i64)
    requires
        cards@.len() <= 4,
        deck@.len() <= 52,
    ensures
        ev == pairs_ev(cards@, deck@),
        0 <= ev <= 190944,
{
    let n = cards.len();
    let mut ev: i64 = 0;
    let mut j: usize = 0;
    proof {
        lemma_pairs_ev_bounds(cards@, deck@);
    }
    while j < n
        invariant
            j <= n,
            n == cards@.len() <= 4,
            deck@.len() <= 52,
            ev == pairs_ev(cards@.subrange(0, j as int), deck@),
            0 <= ev <= 190944,
        decreases n - j,
    {
        let rj = cards[j].rank();
        let mut m: usize = 0;
        let mut i2: usize = 0;
        while i2 < j
            invariant
                i2 <= j < cards@.len(),
                rj == cards@[j as int].rank,
                m == rank_count(cards@.subrange(0, i2 as int), rj),
                m <= i2,
            decreases j - i2,
        {
            proof {
                assert(cards@.subrange(0, i2 + 1 as int).drop_last() =~= cards@.subrange(
                    0,
                    i2 as int,
                ));
                lemma_rank_count_bounds(cards@.subrange(0, i2 as int), rj);
            }
            if cards[i2].rank() == rj {
                m += 1;
            }
            i2 += 1;
        }
        let cnt = count_by_rank(deck, rj);
        proof {
            lemma_rank_count_bounds(deck@, rj);
        }
        let term = ev_exact_exec(2, deck.len()) + ev_pts_exec(cnt, 4, deck.len());
        proof {
            lemma_pair_term_bounds(deck@, rj);
            assert(term == pair_term(deck@, rj));
            assert(0 <= (m as int) * term <= 47736) by (nonlinear_arith)
                requires
                    0 <= m <= 3,
                    0 <= term <= 15912,
            ;
            assert(cards@.subrange(0, j + 1 as int).drop_last() =~= cards@.subrange(0, j as int));
            lemma_pairs_ev_bounds(cards@.subrange(0, j + 1 as int), deck@);
        }
        ev = ev + (m as i64) * term;
        j += 1;
    }
    proof {
        assert(cards@.subrange(0, n as int) =~= cards@);
    }
    ev
}

/// The run value of one sorted subset, by classifying how its run orders
/// ascend: in exact steps, with a single skipped order, or neither.
fn run_ev_exec(chosen: &Vec<Card>, deck: &Vec<Card>) -> (ev: i64)
    requires
        chosen@.len() <= 4,
        deck@.len() <= 52,
    ensures
        ev == run_ev(chosen@, deck@),
        0 <= ev <= 58344,
{
    proof {
        lemma_run_ev_bounds(chosen@, deck@);
    }
    let n = chosen.len();
    if n < 2 {
        return 0;
    }
    let start = chosen[0].run_order();
    proof {
        lemma_run_order_range(chosen@[0].rank);
        assert(start == ord_of(chosen@, 0));
    }
    let mut gap: usize = 0;
    let mut i: usize = 1;
    while i < n
        invariant
            1 <= i <= n,
            n == chosen@.len() <= 4,
            deck@.len() <= 52,
            start == ord_of(chosen@, 0),
            start <= 12,
            gap < i,
            gap == 0 ==> forall|j: int| 0 <= j < i ==> #[trigger] ord_of(chosen@, j) == start + j,
            gap >= 1 ==> forall|j: int| 0 <= j < gap ==> #[trigger] ord_of(chosen@, j) == start
                + j,
            gap >= 1 ==> forall|j: int|
                gap <= j < i ==> #[trigger] ord_of(chosen@, j) == start + j + 1,
        decreases n - i,
    {
        let o = chosen[i].run_order() as usize;
        proof {
            lemma_run_order_range(chosen@[i as int].rank);
            assert(o == ord_of(chosen@, i as int));
        }
        let e = start as usize + i;
        if o == e {
            if gap >= 1 {
                proof {
                    assert(ord_of(chosen@, gap as int) == start + gap + 1);
                    assert(!exact_run_form(chosen@));
                    assert forall|g1: int| !gap_at(chosen@, g1) by {
                        if gap_at(chosen@, g1) {
                            if g1 <= i as int {
                                assert(ord_of(chosen@, i as int) == start + i + 1);
                            } else {
                                assert(ord_of(chosen@, gap as int) == start + gap);
                            }
                        }
                    }
                    assert(!gap_form(chosen@));
                }
                return 0;
            }
        } else if o == e + 1 {
            if gap == 0 {
                gap = i;
            }
        } else {
            proof {
                assert(ord_of(chosen@, i as int) != start + i);
                assert(!exact_run_form(chosen@));
                assert forall|g1: int| !gap_at(chosen@, g1) by {
                    if gap_at(chosen@, g1) {
                        if g1 <= i as int {
                            assert(ord_of(chosen@, i as int) == start + i + 1);
                        } else {
                            assert(ord_of(chosen@, i as int) == start + i);
                        }
                    }
                }
                assert(!gap_form(chosen@));
            }
            return 0;
        }
        i += 1;
    }
    let dlen = deck.len();
    if gap == 0 {
        proof {
            assert(exact_run_form(chosen@));
        }
        if n == 2 {
            proof {
                assert(ord_of(chosen@, 1) == start + 1);
                lemma_run_order_range(chosen@[1].rank);
                lemma_rank_roundtrip(chosen@[0].rank);
                lemma_rank_roundtrip(chosen@[1].rank);
            }
            if matches!(chosen[0].rank(), Rank::Ace) {
                let cnt = count_by_rank(deck, rank_from_run_order(start + 2).unwrap());
                proof {
                    lemma_rank_count_bounds(deck@, spec_rank_from_run_order(start + 2));
                }
                ev_pts_exec(cnt, 3, dlen)
            } else if matches!(chosen[1].rank(), Rank::King) {
                proof {
                    assert(start + 1 == 12);
                }
                let cnt = count_by_rank(deck, rank_from_run_order(start - 1).unwrap());
                proof {
                    lemma_rank_count_bounds(deck@, spec_rank_from_run_order(start as int - 1));
                }
                ev_pts_exec(cnt, 3, dlen)
            } else {
                proof {
                    assert(start != 0);
                    assert(start + 1 != 12);
                }
                let c1 = count_by_rank(deck, rank_from_run_order(start - 1).unwrap());
                let c2 = count_by_rank(deck, rank_from_run_order(start + 2).unwrap());
                proof {
                    lemma_rank_count_bounds(deck@, spec_rank_from_run_order(start as int - 1));
                    lemma_rank_count_bounds(deck@, spec_rank_from_run_order(start as int + 2));
                }
                ev_pts_exec(c1 + c2, 3, dlen)
            }
        } else {
            proof {
                assert(ord_of(chosen@, n - 1 as int) == start + n - 1);
                lemma_run_order_range(chosen@[n - 1 as int].rank);
                lemma_rank_roundtrip(chosen@[0].rank);
                lemma_rank_roundtrip(chosen@[n - 1 as int].rank);
            }
            let m = deck_matches_exec(chosen, deck);
            proof {
                lemma_deck_matches_bounds(chosen@, deck@);
            }
            let base = ev_exact_exec(n as u8, dlen) + ev_pts_exec(m, n as u8, dlen);
            let edges: i64;
            if matches!(chosen[0].rank(), Rank::Ace) {
                let cnt = count_by_rank(deck, rank_from_run_order(start + n as u8).unwrap());
                proof {
                    lemma_rank_count_bounds(deck@, spec_rank_from_run_order(start as int + n));
                }
                edges = ev_pts_exec(cnt, 1, dlen);
            } else if matches!(chosen[n - 1].rank(), Rank::King) {
                proof {
                    assert(start + n - 1 == 12);
                }
                let cnt = count_by_rank(deck, rank_from_run_order(start - 1).unwrap());
                proof {
                    lemma_rank_count_bounds(deck@, spec_rank_from_run_order(start as int - 1));
                }
                edges = ev_pts_exec(cnt, 1, dlen);
            } else {
                proof {
                    assert(start != 0);
                    assert(start + n - 1 != 12);
                }
                let c1 = count_by_rank(deck, rank_from_run_order(start - 1).unwrap());
                let c2 = count_by_rank(deck, rank_from_run_order(start + n as u8).unwrap());
                proof {
                    lemma_rank_count_bounds(deck@, spec_rank_from_run_order(start as int - 1));
                    lemma_rank_count_bounds(deck@, spec_rank_from_run_order(start as int + n));
                }
                edges = ev_pts_exec(c1, 1, dlen) + ev_pts_exec(c2, 1, dlen);
            }
            base + edges
        }
    } else {
        proof {
            assert(gap_at(chosen@, gap as int));
            assert(gap_form(chosen@));
            let g2 = gap_index(chosen@);
            assert(gap_at(chosen@, g2));
            if g2 < gap as int {
                assert(ord_of(chosen@, g2) == start + g2);
                assert(ord_of(chosen@, g2) == start + g2 + 1);
            } else if g2 > gap as int {
                assert(ord_of(chosen@, gap as int) == start + gap + 1);
                assert(ord_of(chosen@, gap as int) == start + gap);
            }
            assert(g2 == gap as int);
            assert(ord_of(chosen@, n - 1 as int) == start + n);
            lemma_run_order_range(chosen@[n - 1 as int].rank);
            assert(start + gap < 13);
        }
        let cnt = count_by_rank(deck, rank_from_run_order(start + gap as u8).unwrap());
        proof {
            lemma_rank_count_bounds(deck@, spec_rank_from_run_order(start as int + gap));
        }
        ev_pts_exec(cnt, (n + 1) as u8, dlen)
    }
}

/// The run values of all `size`-card subsets of `cards[i..]` appended to
/// the chosen cards.
fn runs_ev_subsets_exec(
    cards: &Vec<Card>,
    i: usize,
    chosen: &Vec<Card>,
    size: usize,
    deck: &Vec<Card>,
) -> (ev: i64)
    requires
        i <= cards@.len(),
        cards@.len() <= 4,
        chosen@.len() <= size,
        size <= 4,
        deck@.len() <= 52,
    ensures
        ev == runs_ev_subsets(cards@, i as int, chosen@, size as int, deck@),
        0 <= ev <= 933504,
    decreases cards@.len() - i,
{
    proof {
        lemma_runs_ev_subsets_bounds(cards@, i as int, chosen@, size as int, deck@);
    }
    if i == cards.len() {
        if chosen.len() == size {
            run_ev_exec(chosen, deck)
        } else {
            0
        }
    } else {
        let without = runs_ev_subsets_exec(cards, i + 1, chosen, size, deck);
        if chosen.len() < size {
            let mut c2 = crate::counting::clone_cards(chosen);
            c2.push(cards[i]);
            let with_c = runs_ev_subsets_exec(cards, i + 1, &c2, size, deck);
            without + with_c
        } else {
            proof {
                lemma_runs_ev_overfull(
                    cards@,
                    i + 1 as int,
                    chosen@.push(cards@[i as int]),
                    size as int,
                    deck@,
                );
            }
            without
        }
    }
}

/// The run value of the cards: largest scoring subset size wins.
fn runs_ev_exec(cards: &Vec<Card>, deck: &Vec<Card>) -> (ev: i64)
    requires
        cards@.len() <= 4,
        deck@.len() <= 52,
    ensures
        ev == runs_ev(cards@, deck@),
        0 <= ev <= 933504,
{
    let n = cards.len();
    let empty: Vec<Card> = Vec::new();
    proof {
        assert(empty@ =~= Seq::<Card>::empty());
    }
    if n >= 4 {
        let s4 = runs_ev_subsets_exec(cards, 0, &empty, 4, deck);
        if s4 != 0 {
            return s4;
        }
    }
    if n >= 3 {
        let s3 = runs_ev_subsets_exec(cards, 0, &empty, 3, deck);
        if s3 != 0 {
            return s3;
        }
    }
    if n >= 2 {
        let s2 = runs_ev_subsets_exec(cards, 0, &empty, 2, deck);
        if s2 != 0 {
            return s2;
        }
    }
    0
}

/// The flush value of kept or discarded cards.
#[verifier::rlimit(60)]
#[verifier::spinoff_prover]
fn flush_ev_exec(h: &Vec<Card>, deck: &Vec<Card>) -> (ev: i64)
    requires
        1 <= h@.len() <= 4,
        deck@.len() <= 52,
    ensures
        ev == flush_ev(h@, deck@),
        0 <= ev <= 13260,
{
    proof {
        lemma_flush_ev_bounds(h@, deck@);
    }
    let suit = h[0].suit();
    let n = h.len();
    let mut i: usize = 1;
    while i < n
        invariant
            1 <= i <= n,
            n == h@.len(),
            suit == h@[0].suit,
            forall|j: int| 0 <= j < i ==> h@[j].suit == suit,
        decreases n - i,
    {
        if !crate::card::suit_is(h[i].suit(), suit) {
            proof {
                assert(h@[i as int].suit != h@[0].suit);
            }
            return 0;
        }
        i += 1;
    }
    let r = count_by_suit(deck, suit);
    proof {
        lemma_suit_count_bounds(deck@, suit);
    }
    proof {
        assert(h@.len() >= 1 && (forall|j: int| 0 <= j < h@.len() ==> #[trigger] h@[j].suit
            == h@[0].suit));
        assert(r == suit_count(deck@, h@[0].suit));
    }
    if n == 2 {
        if r == 0 {
            proof {
                assert(flush_ev(h@, deck@) == 4 * 0 * (0 - 1));
            }
            0
        } else {
            proof {
                assert(0 <= 4 * (r as int) * (r as int - 1) <= 10608) by (nonlinear_arith)
                    requires 1 <= r <= 52,
                ;
            }
            let a: i64 = 4 * (r as i64);
            let result: i64 = a * (r as i64 - 1);
            proof {
                assert(result == 4 * (r as int) * (r as int - 1));
                assert(result == flush_ev(h@, deck@));
            }
            result
        }
    } else {
        let result: i64 = ev_exact_exec(4, deck.len()) + ev_pts_exec(r, 1, deck.len());
        proof {
            assert(result == ev_exact(deck@.len() as int, 4) + ev_pts(
                r as int,
                deck@.len() as int,
                1,
            ));
            assert(result == flush_ev(h@, deck@));
        }
        result
    }
}

/// The nobs value of the cards.
fn nobs_ev_exec(h: &Vec<Card>, deck: &Vec<Card>) -> (ev: i64)
    requires
        h@.len() <= 4,
        deck@.len() <= 52,
    ensures
        ev == nobs_ev(h@, deck@),
        0 <= ev <= 10608,
{
    let n = h.len();
    let mut ev: i64 = 0;
    let mut i: usize = 0;
    while i < n
        invariant
            i <= n,
            n == h@.len() <= 4,
            deck@.len() <= 52,
            ev == nobs_ev(h@.subrange(0, i as int), deck@),
            0 <= ev <= 10608,
        decreases n - i,
    {
        proof {
            assert(h@.subrange(0, i + 1 as int).drop_last() =~= h@.subrange(0, i as int));
            lemma_nobs_ev_bounds(h@.subrange(0, i + 1 as int), deck@);
        }
        if matches!(h[i].rank(), Rank::Jack) {
            let cnt = count_by_suit(deck, h[i].suit());
            proof {
                lemma_suit_count_bounds(deck@, h@[i as int].suit);
            }
            ev = ev + ev_pts_exec(cnt, 1, deck.len());
            proof {
                lemma_nobs_ev_bounds(h@.subrange(0, i + 1 as int), deck@);
            }
        }
        i += 1;
    }
    proof {
        assert(h@.subrange(0, n as int) =~= h@);
    }
    ev
}

/// The whole expected value of a set of cards against the undrawn deck.
fn cards_ev_exec(cards: &Vec<Card>, deck: &Vec<Card>) -> (ev: i64)
    requires
        1 <= cards@.len() <= 4,
        deck@.len() <= 52,
    ensures
        ev == cards_ev(cards@, deck@),
        0 <= ev <= 1300000,
{
    proof {
        lemma_cards_ev_bounds(cards@, deck@);
    }
    let f = fifteens_ev_exec(cards, 0, 0, deck);
    let p = pairs_ev_exec(cards, deck);
    let r = runs_ev_exec(cards, deck);
    let fl = flush_ev_exec(cards, deck);
    let nb = nobs_ev_exec(cards, deck);
    f + p + r + fl + nb
}

// ---------------------------------------------------------------------
// Choosing the discard split and the card to play.
// ---------------------------------------------------------------------

/// The four cards kept when positions `a < b` of the sorted hand go to
/// the crib.
pub open spec fn kept_of(s: Seq<Card>, a: int, b: int) -> Seq<Card> {
    s.remove(b).remove(a)
}

/// The two cards discarded.
pub open spec fn disc_of(s: Seq<Card>, a: int, b: int) -> Seq<Card> {
    seq![s[a], s[b]]
}

/// The value of a split: what the kept hand promises, plus what the
/// discard promises when the crib is ours, minus it when it is the
/// opponent's.
pub open spec fn split_ev(s: Seq<Card>, deck: Seq<Card>, dealer: bool, a: int, b: int) -> int {
    if dealer {
        cards_ev(kept_of(s, a, b), deck) + cards_ev(disc_of(s, a, b), deck)
    } else {
        cards_ev(kept_of(s, a, b), deck) - cards_ev(disc_of(s, a, b), deck)
    }
}

/// The tie-break weight of a split: the kept hand's total counting value,
/// lower preferred.
pub open spec fn split_ct(s: Seq<Card>, a: int, b: int) -> int {
    sum_values(kept_of(s, a, b))
}

/// The order splits are considered in: both discard positions descending.
pub open spec fn split_earlier(a2: int, b2: int, a: int, b: int) -> bool {
    a2 > a || (a2 == a && b2 > b)
}

/// Would the split `(a2, b2)` be preferred over `(a, b)`: higher value,
/// then lower kept counting total, then earlier consideration.
pub open spec fn better_split(
    s: Seq<Card>,
    deck: Seq<Card>,
    dealer: bool,
    a2: int,
    b2: int,
    a: int,
    b: int,
) -> bool {
    ||| split_ev(s, deck, dealer, a2, b2) > split_ev(s, deck, dealer, a, b)
    ||| (split_ev(s, deck, dealer, a2, b2) == split_ev(s, deck, dealer, a, b) && split_ct(
        s,
        a2,
        b2,
    ) < split_ct(s, a, b))
    ||| (split_ev(s, deck, dealer, a2, b2) == split_ev(s, deck, dealer, a, b) && split_ct(
        s,
        a2,
        b2,
    ) == split_ct(s, a, b) && split_earlier(a2, b2, a, b))
}

/// No legal split is preferred over `(a, b)`.
pub open spec fn no_better_split(
    s: Seq<Card>,
    deck: Seq<Card>,
    dealer: bool,
    a: int,
    b: int,
) -> bool {
    forall|a2: int, b2: int|
        0 <= a2 < b2 < s.len() ==> !#[trigger] better_split(s, deck, dealer, a2, b2, a, b)
}

/// The sorted hand with positions `a < b` taken out.
fn remove_two(s: &Vec<Card>, a: usize, b: usize) -> (kept: Vec<Card>)
    requires
        a < b < s@.len() <= 6,
    ensures
        kept@ == kept_of(s@, a as int, b as int),
        kept@.len() == s@.len() - 2,
{
    let mut kept: Vec<Card> = Vec::new();
    let mut i: usize = 0;
    while i < s.len()
        invariant
            i <= s@.len(),
            a < b < s@.len() <= 6,
            kept@.len() == i - (if i > a {
                1int
            } else {
                0int
            }) - (if i > b {
                1int
            } else {
                0int
            }),
            forall|k: int|
                0 <= k < kept@.len() ==> kept@[k] == (if k < a {
                    s@[k]
                } else if k < b - 1 {
                    s@[k + 1]
                } else {
                    s@[k + 2]
                }),
        decreases s@.len() - i,
    {
        if i != a && i != b {
            kept.push(s[i]);
        }
        i += 1;
    }
    proof {
        assert(kept@ =~= s@.remove(b as int).remove(a as int));
    }
    kept
}

/// A strictly preferred replacement stays unbeaten by anything the old
/// best already beat.
proof fn lemma_split_replace(
    s: Seq<Card>,
    deck: Seq<Card>,
    dealer: bool,
    a2: int,
    b2: int,
    olda: int,
    oldb: int,
    a: int,
    b: int,
)
    requires
        !better_split(s, deck, dealer, a2, b2, olda, oldb),
        split_ev(s, deck, dealer, a, b) > split_ev(s, deck, dealer, olda, oldb) || (split_ev(
            s,
            deck,
            dealer,
            a,
            b,
        ) == split_ev(s, deck, dealer, olda, oldb) && split_ct(s, a, b) <= split_ct(s, olda, oldb)),
        !split_earlier(a2, b2, a, b),
    ensures
        !better_split(s, deck, dealer, a2, b2, a, b),
{
}

/// A candidate that did not replace the best is not preferred over it.
proof fn lemma_split_keep(
    s: Seq<Card>,
    deck: Seq<Card>,
    dealer: bool,
    a: int,
    b: int,
    besta: int,
    bestb: int,
)
    requires
        split_ev(s, deck, dealer, a, b) < split_ev(s, deck, dealer, besta, bestb) || (split_ev(
            s,
            deck,
            dealer,
            a,
            b,
        ) == split_ev(s, deck, dealer, besta, bestb) && split_ct(s, a, b) > split_ct(
            s,
            besta,
            bestb,
        )),
    ensures
        !better_split(s, deck, dealer, a, b, besta, bestb),
{
}

/// The value and tie-break weight of one split.
fn split_value(s: &Vec<Card>, deck: &Vec<Card>, dealer: bool, a: usize, b: usize) -> (r: (
    i64,
    u8,
))
    requires
        a < b < s@.len(),
        s@.len() == 6,
        deck@.len() <= 52,
    ensures
        r.0 == split_ev(s@, deck@, dealer, a as int, b as int),
        r.1 == split_ct(s@, a as int, b as int),
{
    let kept = remove_two(s, a, b);
    let mut disc: Vec<Card> = Vec::new();
    disc.push(s[a]);
    disc.push(s[b]);
    proof {
        assert(disc@ =~= disc_of(s@, a as int, b as int));
    }
    let he = cards_ev_exec(&kept, deck);
    let de = cards_ev_exec(&disc, deck);
    let ev: i64 = if dealer {
        he + de
    } else {
        he - de
    };
    let ct = count_total(&kept);
    (ev, ct)
}

/// The two cards the AI sends to the crib from a six-card deal.
///
/// Every one of the fifteen ways to keep four of the six cards is scored
/// against every undrawn starter; the discard belonging to the best split
/// comes back. The choice is deterministic: value first, then the kept
/// hand with the lower counting total, then the earliest split considered.
pub fn discard_cards(cards: Vec<Card>, dealer: bool) -> (discarded: [Card; 2])
    requires
        cards@.len() == 6,
        cards@.no_duplicates(),
    ensures
        ({
            let s = sorted_hand(cards@);
            let deck = undrawn_of(cards@);
            exists|a: int, b: int|
                {
                    &&& 0 <= a < b < 6
                    &&& discarded@ == disc_of(s, a, b)
                    &&& #[trigger] no_better_split(s, deck, dealer, a, b)
                }
        }),
        cards@.contains(discarded@[0]),
        cards@.contains(discarded@[1]),
        discarded@[0] != discarded@[1],
{
    let s = sort_hand(&cards);
    let deck = build_undrawn(&cards);
    let first = split_value(&s, &deck, dealer, 0, 1);
    let mut best_a: usize = 0;
    let mut best_b: usize = 1;
    let mut best_ev: i64 = first.0;
    let mut best_ct: u8 = first.1;
    let mut a: usize = 0;
    while a < 5
        invariant
            a <= 5,
            s@ == sorted_hand(cards@),
            s@.len() == 6,
            deck@ == undrawn_of(cards@),
            deck@.len() <= 52,
            best_a < best_b < 6,
            best_ev == split_ev(s@, deck@, dealer, best_a as int, best_b as int),
            best_ct == split_ct(s@, best_a as int, best_b as int),
            forall|a2: int, b2: int|
                0 <= a2 < b2 < 6 && a2 < a ==> !#[trigger] better_split(
                    s@,
                    deck@,
                    dealer,
                    a2,
                    b2,
                    best_a as int,
                    best_b as int,
                ),
        decreases 5 - a,
    {
        let mut b: usize = a + 1;
        while b < 6
            invariant
                a < 5,
                a + 1 <= b <= 6,
                s@ == sorted_hand(cards@),
                s@.len() == 6,
                deck@ == undrawn_of(cards@),
                deck@.len() <= 52,
                best_a < best_b < 6,
                best_ev == split_ev(s@, deck@, dealer, best_a as int, best_b as int),
                best_ct == split_ct(s@, best_a as int, best_b as int),
                forall|a2: int, b2: int|
                    0 <= a2 < b2 < 6 && (a2 < a || (a2 == a && b2 < b)) ==> !#[trigger] better_split(
                        s@,
                        deck@,
                        dealer,
                        a2,
                        b2,
                        best_a as int,
                        best_b as int,
                    ),
            decreases 6 - b,
        {
            let cur = split_value(&s, &deck, dealer, a, b);
            let ev = cur.0;
            let ct = cur.1;
            if (a == 0 && b == 1) || ev > best_ev || (ev == best_ev && ct <= best_ct) {
                if a == 0 && b == 1 {
                    proof {
                        assert forall|a2: int, b2: int|
                            0 <= a2 < b2 < 6 && (a2 < a || (a2 == a && b2 < b
                                + 1)) implies !better_split(
                            s@,
                            deck@,
                            dealer,
                            a2,
                            b2,
                            a as int,
                            b as int,
                        ) by {
                            assert(a2 == 0 && b2 == 1);
                            assert(!split_earlier(a2, b2, a as int, b as int));
                        }
                    }
                } else {
                    proof {
                        assert forall|a2: int, b2: int|
                            0 <= a2 < b2 < 6 && (a2 < a || (a2 == a && b2 < b
                                + 1)) implies !better_split(
                            s@,
                            deck@,
                            dealer,
                            a2,
                            b2,
                            a as int,
                            b as int,
                        ) by {
                            if a2 == a as int && b2 == b as int {
                                assert(!split_earlier(a2, b2, a as int, b as int));
                            } else {
                                assert(!better_split(
                                    s@,
                                    deck@,
                                    dealer,
                                    a2,
                                    b2,
                                    best_a as int,
                                    best_b as int,
                                ));
                                lemma_split_replace(
                                    s@,
                                    deck@,
                                    dealer,
                                    a2,
                                    b2,
                                    best_a as int,
                                    best_b as int,
                                    a as int,
                                    b as int,
                                );
                            }
                        }
                    }
                }
                best_a = a;
                best_b = b;
                best_ev = ev;
                best_ct = ct;
            } else {
                proof {
                    lemma_split_keep(
                        s@,
                        deck@,
                        dealer,
                        a as int,
                        b as int,
                        best_a as int,
                        best_b as int,
                    );
                }
            }
            b += 1;
        }
        a += 1;
    }
    proof {
        assert(no_better_split(s@, deck@, dealer, best_a as int, best_b as int));
        broadcast use vstd::seq_lib::group_to_multiset_ensures;

        assert(s@.contains(s@[best_a as int]));
        assert(cards@.to_multiset().count(s@[best_a as int]) > 0);
        assert(s@.contains(s@[best_b as int]));
        assert(cards@.to_multiset().count(s@[best_b as int]) > 0);
        cards@.lemma_multiset_has_no_duplicates();
        s@.lemma_multiset_has_no_duplicates_conv();
        assert(s@.no_duplicates());
    }
    let discarded = [s[best_a], s[best_b]];
    proof {
        assert(discarded@ =~= disc_of(s@, best_a as int, best_b as int));
    }
    discarded
}

/// Is this card legal on the current count?
pub open spec fn spec_playable(c: Card, count: int) -> bool {
    spec_count_value(c.rank) + count <= 31
}

/// The desirability of playing a card: any immediate points win outright;
/// otherwise avoid offering a run (a card within two run orders of the
/// last played, when there is one), avoid bringing the count to exactly
/// ten, and prefer leaving it under five or at twenty-one and beyond —
/// the count rules hold for the opening card of a sub-round as well.
pub open spec fn play_priority(c: Card, played: Seq<Card>, count: int) -> int {
    let sc = crate::the_play::spec_play_score(played.push(c));
    if sc > 0 {
        sc
    } else {
        let nc = count + spec_count_value(c.rank);
        if played.len() > 0 && run_distance(played.last(), c) <= 2 {
            -1
        } else if nc == 10 {
            -1
        } else if nc < 5 || nc >= 21 {
            1
        } else {
            0
        }
    }
}

/// How far apart two cards stand in run order.
pub open spec fn run_distance(a: Card, b: Card) -> int {
    let ao = spec_run_order(a.rank);
    let bo = spec_run_order(b.rank);
    if bo >= ao {
        bo - ao
    } else {
        ao - bo
    }
}

/// Would the card at `j` be preferred over the card at `i`: higher
/// priority, then higher counting value, then earlier in the hand.
pub open spec fn better_play(hand: Seq<Card>, played: Seq<Card>, count: int, j: int, i: int) -> bool {
    ||| play_priority(hand[j], played, count) > play_priority(hand[i], played, count)
    ||| (play_priority(hand[j], played, count) == play_priority(hand[i], played, count)
        && spec_count_value(hand[j].rank) > spec_count_value(hand[i].rank))
    ||| (play_priority(hand[j], played, count) == play_priority(hand[i], played, count)
        && spec_count_value(hand[j].rank) == spec_count_value(hand[i].rank) && j < i)
}

/// A strictly preferred replacement stays unbeaten by anything the old
/// best already beat.
proof fn lemma_play_replace(hand: Seq<Card>, played: Seq<Card>, count: int, j: int, oldi: int, i: int)
    requires
        !better_play(hand, played, count, j, oldi),
        play_priority(hand[i], played, count) > play_priority(hand[oldi], played, count) || (
        play_priority(hand[i], played, count) == play_priority(hand[oldi], played, count)
            && spec_count_value(hand[i].rank) > spec_count_value(hand[oldi].rank)),
    ensures
        !better_play(hand, played, count, j, i),
{
}

/// A candidate that did not replace the best is not preferred over it.
proof fn lemma_play_keep(hand: Seq<Card>, played: Seq<Card>, count: int, i: int, besti: int)
    requires
        besti < i,
        play_priority(hand[i], played, count) < play_priority(hand[besti], played, count) || (
        play_priority(hand[i], played, count) == play_priority(hand[besti], played, count)
            && spec_count_value(hand[i].rank) <= spec_count_value(hand[besti].rank)),
    ensures
        !better_play(hand, played, count, i, besti),
{
}

/// The desirability of playing one legal card.
fn play_priority_exec(c: Card, played: &Vec<Card>, count: u8) -> (pri: i8)
    ensures
        pri == play_priority(c, played@, count as int),
{
    let mut cand = crate::counting::clone_cards(played);
    cand.push(c);
    let sc = crate::the_play::score_the_play(&cand);
    proof {
        assert(cand@ == played@.push(c));
    }
    if sc > 0 {
        sc as i8
    } else {
        let near_last = if played.len() > 0 {
            let lo = played[played.len() - 1].run_order();
            let co = c.run_order();
            let diff = if co >= lo {
                co - lo
            } else {
                lo - co
            };
            diff <= 2
        } else {
            false
        };
        let nc = (c.count_value() as u16) + (count as u16);
        if near_last {
            -1
        } else if nc == 10 {
            -1
        } else if nc < 5 || nc >= 21 {
            1
        } else {
            0
        }
    }
}

/// The card the AI lays down: of the legal cards, the one with the best
/// priority, ties broken toward the higher counting value and then the
/// earlier position in the hand.
pub fn select_play(hand: Vec<Card>, played: Vec<Card>, count: u8) -> (c: Card)
    requires
        exists|i: int| 0 <= i < hand@.len() && #[trigger] spec_playable(hand@[i], count as int),
    ensures
        exists|i: int|
            {
                &&& 0 <= i < hand@.len()
                &&& c == hand@[i]
                &&& #[trigger] spec_playable(hand@[i], count as int)
                &&& forall|j: int|
                    0 <= j < hand@.len() && #[trigger] spec_playable(hand@[j], count as int)
                        ==> !better_play(hand@, played@, count as int, j, i)
            },
{
    let n = hand.len();
    let mut best_i: usize = n;
    let mut best_pri: i8 = 0;
    let mut best_val: u8 = 0;
    let mut i: usize = 0;
    while i < n
        invariant
            i <= n,
            n == hand@.len(),
            best_i <= n,
            best_i == n ==> forall|j: int|
                0 <= j < i ==> !#[trigger] spec_playable(hand@[j], count as int),
            best_i < n ==> {
                &&& best_i < i
                &&& spec_playable(hand@[best_i as int], count as int)
                &&& best_pri == play_priority(hand@[best_i as int], played@, count as int)
                &&& best_val == spec_count_value(hand@[best_i as int].rank)
                &&& forall|j: int|
                    0 <= j < i && #[trigger] spec_playable(hand@[j], count as int)
                        ==> !better_play(hand@, played@, count as int, j, best_i as int)
            },
        decreases n - i,
    {
        let v = hand[i].count_value();
        if (v as u16) + (count as u16) <= 31 {
            let pri = play_priority_exec(hand[i], &played, count);
            if best_i == n || pri > best_pri || (pri == best_pri && v > best_val) {
                proof {
                    if best_i < n {
                        assert forall|j: int|
                            0 <= j < i + 1 && #[trigger] spec_playable(
                                hand@[j],
                                count as int,
                            ) implies !better_play(hand@, played@, count as int, j, i as int) by {
                            if j < i as int {
                                assert(!better_play(
                                    hand@,
                                    played@,
                                    count as int,
                                    j,
                                    best_i as int,
                                ));
                                lemma_play_replace(
                                    hand@,
                                    played@,
                                    count as int,
                                    j,
                                    best_i as int,
                                    i as int,
                                );
                            }
                        }
                    }
                }
                best_i = i;
                best_pri = pri;
                best_val = v;
            } else {
                proof {
                    lemma_play_keep(hand@, played@, count as int, i as int, best_i as int);
                }
            }
        }
        i += 1;
    }
    proof {
        let w = choose|w: int| 0 <= w < hand@.len() && #[trigger] spec_playable(
            hand@[w],
            count as int,
        );
        assert(spec_playable(hand@[w], count as int));
        assert(best_i < n);
    }
    hand[best_i]
}

} // verus!
