//! Poker hand evaluation: the rank of the best five-card hand out of seven
//! cards. Lower ranks are stronger hands.
//!
//! Cards are numbered 0..52: `card % 13` is the rank (0 = ace, 1 = deuce,
//! ..., 12 = king) and `card / 13` is the suit (spades, hearts, diamonds,
//! clubs). Hands compare in the standard poker order, aces high and low
//! only in the ace-to-five straight.

use vstd::prelude::*;

verus! {

/// Rank index of a card (0 = ace, 12 = king).
pub open spec fn card_rank(c: u8) -> int {
    (c % 13) as int
}

/// Suit index of a card.
pub open spec fn card_suit(c: u8) -> int {
    (c / 13) as int
}

/// Number of cards of `h` whose rank index is `r`.
pub open spec fn count_rank(h: Seq<u8>, r: int) -> int
    decreases h.len(),
{
    if h.len() == 0 {
        0
    } else {
        count_rank(h.drop_last(), r) + if card_rank(h.last()) == r {
            1int
        } else {
            0int
        }
    }
}

/// Place of a card's rank in the order of strength: deuce 0, trey 1, ...,
/// king 11, ace 12.
pub open spec fn rank_order(c: u8) -> int {
    ((c % 13) as int + 12) % 13
}

/// Number of cards of `h` whose rank has place `r` (see [`rank_order`]).
pub open spec fn count_order(h: Seq<u8>, r: int) -> int
    decreases h.len(),
{
    if h.len() == 0 {
        0
    } else {
        count_order(h.drop_last(), r) + if rank_order(h.last()) == r {
            1int
        } else {
            0int
        }
    }
}

/// How many cards `h` holds of each rank, by place from deuce (0) to ace (12).
pub open spec fn order_counts(h: Seq<u8>) -> Seq<int> {
    Seq::new(13, |r: int| count_order(h, r))
}

/// All cards of `h` share one suit.
pub open spec fn all_same_suit(h: Seq<u8>) -> bool {
    forall|i: int| 0 <= i < h.len() ==> card_suit(#[trigger] h[i]) == card_suit(h[0])
}

proof fn lemma_count_order_bounds(h: Seq<u8>, r: int)
    ensures
        0 <= count_order(h, r) <= h.len(),
    decreases h.len(),
{
    if h.len() > 0 {
        lemma_count_order_bounds(h.drop_last(), r);
    }
}

/// Counts the cards of each rank, by place in the order of strength.
fn count_ranks(cards: &[u8; 5]) -> (counts: [u8; 13])
    ensures
        forall|r: int| 0 <= r < 13 ==> counts@[r] == count_order(cards@, r),
        forall|r: int| 0 <= r < 13 ==> counts@[r] <= 5,
{
    let mut counts = [0u8; 13];
    let mut i: usize = 0;
    while i < 5
        invariant
            0 <= i <= 5,
            forall|r: int| 0 <= r < 13 ==> counts@[r] == count_order(cards@.subrange(0, i as int), r),
        decreases 5 - i,
    {
        let ghost prev = cards@.subrange(0, i as int);
        let ghost next = cards@.subrange(0, i + 1);
        assert(next.drop_last() =~= prev);
        proof {
            lemma_count_order_bounds(prev, rank_order(cards[i as int]));
        }
        let r = ((cards[i] % 13 + 12) % 13) as usize;
        counts[r] = counts[r] + 1;
        i = i + 1;
    }
    assert(cards@.subrange(0, 5) =~= cards@);
    proof {
        assert forall|r: int| 0 <= r < 13 implies counts@[r] <= 5 by {
            lemma_count_order_bounds(cards@, r);
        }
    }
    counts
}

/// The 13 rank counts of an exec count table as integers.
pub open spec fn counts_view(a: Seq<u8>) -> Seq<int> {
    Seq::new(13, |r: int| a[r] as int)
}

/// Five consecutive places ending at `i` are all present.
pub open spec fn run_ends_at(c: Seq<int>, i: int) -> bool {
    &&& 4 <= i < 13
    &&& forall|j: int| i - 4 <= j <= i ==> #[trigger] c[j] > 0
}

/// The lowest place, at least `i`, that ends a run of five present places.
pub open spec fn first_run_from(c: Seq<int>, i: int) -> Option<int>
    decreases 13 - i,
{
    if i >= 13 {
        None
    } else if run_ends_at(c, i) {
        Some(i)
    } else {
        first_run_from(c, i + 1)
    }
}

/// Ace, deuce, trey, four and five are all present.
pub open spec fn has_wheel(c: Seq<int>) -> bool {
    c[12] > 0 && c[0] > 0 && c[1] > 0 && c[2] > 0 && c[3] > 0
}

/// Place of the top card of a straight among the counts: the end of a run of
/// five places, or the five (place 3) for ace-to-five, where the ace plays
/// low; `None` without a straight.
pub open spec fn straight_top(c: Seq<int>) -> Option<int> {
    match first_run_from(c, 4) {
        Some(i) => Some(i),
        None => if has_wheel(c) {
            Some(3)
        } else {
            None
        },
    }
}

proof fn lemma_first_run_found(c: Seq<int>, k: int, i: int)
    requires
        k <= i,
        run_ends_at(c, i),
        forall|j: int| k <= j < i ==> !run_ends_at(c, j),
    ensures
        first_run_from(c, k) == Some(i),
    decreases i - k,
{
    if k < i {
        lemma_first_run_found(c, k + 1, i);
    }
}

proof fn lemma_first_run_none(c: Seq<int>, k: int)
    requires
        forall|j: int| k <= j < 13 ==> !run_ends_at(c, j),
    ensures
        first_run_from(c, k) == None::<int>,
    decreases 13 - k,
{
    if k < 13 {
        lemma_first_run_none(c, k + 1);
    }
}

proof fn lemma_first_run_some(c: Seq<int>, k: int, i: int)
    requires
        k <= i,
        run_ends_at(c, i),
    ensures
        first_run_from(c, k) is Some,
    decreases i - k,
{
    if k < i && !run_ends_at(c, k) {
        lemma_first_run_some(c, k + 1, i);
    }
}

proof fn lemma_first_run_in_range(c: Seq<int>, k: int)
    requires
        0 <= k,
    ensures
        first_run_from(c, k) matches Some(i) ==> k <= i < 13,
    decreases 13 - k,
{
    if k < 13 && !run_ends_at(c, k) {
        lemma_first_run_in_range(c, k + 1);
    }
}

/// Looks for a straight among the rank counts; returns the place of its top
/// card.
fn check_straight(rank_counts: &[u8; 13]) -> (res: Option<u8>)
    ensures
        res matches Some(t) ==> straight_top(counts_view(rank_counts@)) == Some(t as int),
        res is None ==> straight_top(counts_view(rank_counts@)) is None,
{
    let ghost c = counts_view(rank_counts@);
    let mut consecutive: usize = 0;
    let mut i: usize = 0;
    while i < 13
        invariant
            c == counts_view(rank_counts@),
            0 <= i <= 13,
            consecutive <= i,
            consecutive < 5,
            forall|j: int| i - consecutive <= j < i ==> #[trigger] c[j] > 0,
            i - consecutive > 0 ==> c[i - consecutive - 1] == 0,
            forall|j: int| 4 <= j < i ==> !run_ends_at(c, j),
        decreases 13 - i,
    {
        if rank_counts[i] > 0 {
            consecutive = consecutive + 1;
            if consecutive >= 5 {
                assert(run_ends_at(c, i as int));
                proof {
                    lemma_first_run_found(c, 4, i as int);
                }
                return Some(i as u8);
            }
            assert(!run_ends_at(c, i as int)) by {
                if i >= 4 {
                    assert(c[i - consecutive] == 0);
                }
            }
        } else {
            consecutive = 0;
        }
        i = i + 1;
    }
    proof {
        lemma_first_run_none(c, 4);
    }
    if rank_counts[12] > 0 && rank_counts[0] > 0 && rank_counts[1] > 0 && rank_counts[2] > 0
        && rank_counts[3] > 0 {
        return Some(3);
    }
    None
}

/// Places from 12 down to `k` that occur exactly `n` times, highest first.
pub open spec fn ranks_with_count(c: Seq<int>, n: int, k: int) -> Seq<int>
    decreases 13 - k,
{
    if k > 12 {
        seq![]
    } else {
        ranks_with_count(c, n, k + 1) + if c[k] == n {
            seq![k]
        } else {
            seq![]
        }
    }
}

/// Places that occur exactly `n` times, highest first.
pub open spec fn kind(c: Seq<int>, n: int) -> Seq<int> {
    ranks_with_count(c, n, 0)
}

/// Exec ranks as integers.
pub open spec fn ints(v: Seq<u8>) -> Seq<int> {
    v.map_values(|x: u8| x as int)
}

proof fn lemma_ranks_with_count_facts(c: Seq<int>, n: int, k: int)
    requires
        0 <= k,
    ensures
        forall|i: int| 0 <= i < ranks_with_count(c, n, k).len() ==> k <= #[trigger] ranks_with_count(c, n, k)[i] < 13,
        forall|i: int| 0 <= i < ranks_with_count(c, n, k).len() ==> c[#[trigger] ranks_with_count(c, n, k)[i]] == n,
        forall|i: int, j: int| 0 <= i < j < ranks_with_count(c, n, k).len() ==> #[trigger] ranks_with_count(c, n, k)[i] > #[trigger] ranks_with_count(c, n, k)[j],
    decreases 13 - k,
{
    if k <= 12 {
        lemma_ranks_with_count_facts(c, n, k + 1);
        let a = ranks_with_count(c, n, k + 1);
        let b: Seq<int> = if c[k] == n {
            seq![k]
        } else {
            seq![]
        };
        assert(ranks_with_count(c, n, k) == a + b);
        assert forall|i: int| 0 <= i < (a + b).len() implies k <= #[trigger] (a + b)[i] < 13 && c[(a + b)[i]] == n by {
            if i >= a.len() {
                assert((a + b)[i] == b[i - a.len()]);
            }
        }
        assert forall|i: int, j: int| 0 <= i < j < (a + b).len() implies #[trigger] (a + b)[i] > #[trigger] (a + b)[j] by {
            if j >= a.len() {
                assert((a + b)[j] == b[j - a.len()]);
                assert((a + b)[i] == a[i]);
            }
        }
    }
}

/// The places of `kind(c, n)` are strictly descending, between 0 and 12, and
/// each occurs `n` times.
proof fn lemma_kind_facts(c: Seq<int>, n: int)
    ensures
        strictly_descending(kind(c, n)),
        forall|i: int| 0 <= i < kind(c, n).len() ==> c[#[trigger] kind(c, n)[i]] == n,
{
    lemma_ranks_with_count_facts(c, n, 0);
}

/// Lists the places that occur exactly `n` times, highest first.
fn kind_ranks(rank_counts: &[u8; 13], n: u8) -> (v: Vec<u8>)
    ensures
        ints(v@) == kind(counts_view(rank_counts@), n as int),
        forall|i: int| 0 <= i < v@.len() ==> #[trigger] v@[i] < 13,
        v@.len() <= 13,
{
    let ghost c = counts_view(rank_counts@);
    let mut v: Vec<u8> = Vec::new();
    let mut k: usize = 13;
    while k > 0
        invariant
            c == counts_view(rank_counts@),
            0 <= k <= 13,
            ints(v@) == ranks_with_count(c, n as int, k as int),
            forall|i: int| 0 <= i < v@.len() ==> #[trigger] v@[i] < 13,
            v@.len() <= 13 - k,
        decreases k,
    {
        k = k - 1;
        let ghost mid = v@;
        if rank_counts[k] == n {
            v.push(k as u8);
            assert(ints(v@) =~= ints(mid).push(k as int));
        } else {
            assert(ints(v@) =~= ints(mid));
        }
        assert(ranks_with_count(c, n as int, k as int) =~= ranks_with_count(c, n as int, k + 1) + if c[k as int]
            == n as int {
            seq![k as int]
        } else {
            seq![]
        });
    }
    v
}

/// Category of a five-card hand, strongest first: 0 straight flush,
/// 1 four of a kind, 2 full house, 3 flush, 4 straight, 5 three of a kind,
/// 6 two pair, 7 one pair, 8 high card; 9 for cards that make none of
/// these (five of one rank, which a deck cannot deal).
pub open spec fn hand_category(h: Seq<u8>) -> int {
    let c = order_counts(h);
    let flush = all_same_suit(h);
    let straight = straight_top(c) is Some;
    if flush && straight {
        0
    } else if kind(c, 4).len() == 1 && kind(c, 1).len() == 1 {
        1
    } else if kind(c, 3).len() == 1 && kind(c, 2).len() == 1 {
        2
    } else if flush && kind(c, 1).len() == 5 {
        3
    } else if straight {
        4
    } else if kind(c, 3).len() == 1 && kind(c, 1).len() == 2 {
        5
    } else if kind(c, 2).len() == 2 && kind(c, 1).len() == 1 {
        6
    } else if kind(c, 2).len() == 1 && kind(c, 1).len() == 3 {
        7
    } else if kind(c, 1).len() == 5 {
        8
    } else {
        9
    }
}

/// The places that decide between two hands of one category, in the order
/// they are compared: the straight's top card; the quads, then the kicker;
/// the trips, then the pair; the pairs from the higher, then the kickers
/// from the highest; the five cards from the highest for flushes and high
/// cards.
pub open spec fn hand_kickers(h: Seq<u8>) -> Seq<int> {
    let c = order_counts(h);
    let cat = hand_category(h);
    if cat == 0 || cat == 4 {
        seq![straight_top(c).unwrap()]
    } else if cat == 1 {
        kind(c, 4) + kind(c, 1)
    } else if cat == 2 {
        kind(c, 3) + kind(c, 2)
    } else if cat == 5 {
        kind(c, 3) + kind(c, 1)
    } else if cat == 6 || cat == 7 {
        kind(c, 2) + kind(c, 1)
    } else if cat == 3 || cat == 8 {
        kind(c, 1)
    } else {
        seq![]
    }
}

/// Offset of a flush whose five places have index `x` (see [`comb`]) in the
/// flush range; the indexes 0, 5 and 1286 belong to straight flushes.
pub open spec fn flush_code(x: int) -> int {
    if x < 5 {
        1284 - x
    } else {
        1285 - x
    }
}

/// Offset of a hand in its category's range, from the places that decide
/// it: higher places give smaller offsets.
pub open spec fn kicker_code(cat: int, k: Seq<int>) -> int {
    if cat == 0 || cat == 4 {
        12 - k[0]
    } else if cat == 1 || cat == 2 {
        (12 - k[0]) * 13 + (12 - k[1])
    } else if cat == 5 || cat == 6 {
        (12 - k[0]) * 169 + (12 - k[1]) * 13 + (12 - k[2])
    } else if cat == 7 {
        (12 - k[0]) * 286 + 285 - comb(k.drop_first())
    } else if cat == 3 {
        flush_code(comb(k))
    } else if cat == 8 {
        1286 - comb(k)
    } else {
        0
    }
}

/// Lowest rank of a category's range.
pub open spec fn category_low(cat: int) -> int {
    if cat == 0 {
        1
    } else if cat == 1 {
        1600
    } else if cat == 2 {
        2500
    } else if cat == 3 {
        3825
    } else if cat == 4 {
        5109
    } else if cat == 5 {
        5864
    } else if cat == 6 {
        8920
    } else if cat == 7 {
        21294
    } else if cat == 8 {
        32488
    } else {
        46672
    }
}

/// Highest rank of a category's range.
pub open spec fn category_high(cat: int) -> int {
    if cat == 0 {
        1599
    } else if cat == 1 {
        2499
    } else if cat == 2 {
        3824
    } else if cat == 3 {
        5108
    } else if cat == 4 {
        5863
    } else if cat == 5 {
        8919
    } else if cat == 6 {
        21293
    } else if cat == 7 {
        32487
    } else if cat == 8 {
        33774
    } else {
        46672
    }
}

/// Rank of a five-card hand in the standard poker order, lower is stronger:
/// the category's lowest rank (straight flush 1, four of a kind 1600, full
/// house 2500, flush 3825, straight 5109, three of a kind 5864, two pair
/// 8920, one pair 21294, high card 32488) plus the offset of its deciding
/// places, aces high (low only in ace-to-five). The royal flush ranks 1.
pub open spec fn five_card_rank(h: Seq<u8>) -> int {
    category_low(hand_category(h)) + kicker_code(hand_category(h), hand_kickers(h))
}

/// 2 to the power `n`.
pub open spec fn two_pow(n: int) -> int
    decreases n,
{
    if n <= 0 {
        1
    } else {
        2 * two_pow(n - 1)
    }
}

proof fn lemma_two_pow_le(m: int)
    requires
        0 <= m <= 13,
    ensures
        1 <= two_pow(m) <= 8192,
    decreases 13 - m,
{
    if m < 13 {
        lemma_two_pow_le(m + 1);
    } else {
        reveal_with_fuel(two_pow, 14);
    }
}

proof fn lemma_binom_bound(n: int, k: int)
    requires
        0 <= n,
    ensures
        0 <= binom(n, k) <= two_pow(n),
        two_pow(n) >= 1,
    decreases n,
{
    if n > 0 {
        lemma_binom_bound(n - 1, k - 1);
        lemma_binom_bound(n - 1, k);
    }
}

/// "n choose k" for `n` up to 13.
fn binom_exec(n: u32, k: u32) -> (b: u32)
    requires
        n <= 13,
    ensures
        b == binom(n as int, k as int),
    decreases n,
{
    if k == 0 {
        1
    } else if n == 0 {
        0
    } else {
        let x = binom_exec(n - 1, k - 1);
        let y = binom_exec(n - 1, k);
        proof {
            lemma_binom_bound((n - 1) as int, (k - 1) as int);
            lemma_binom_bound((n - 1) as int, k as int);
            lemma_two_pow_le(n as int);
        }
        x + y
    }
}

/// The index of a descending set of places of one size lies below
/// "13 choose size".
proof fn lemma_comb_max(s: Seq<int>)
    requires
        strictly_descending(s),
        1 <= s.len(),
    ensures
        0 <= comb(s) < binom(13, s.len() as int),
        comb(s) < 8192,
{
    lemma_comb_below(s);
    lemma_binom_mono(s[0] + 1, 13, s.len() as int);
    lemma_comb_nonneg(s);
    lemma_binom_bound(13, s.len() as int);
    lemma_two_pow_le(13);
}

/// Index of a set of distinct places (see [`comb`]).
fn comb_exec(v: &Vec<u8>) -> (x: u32)
    requires
        strictly_descending(ints(v@)),
        1 <= v@.len() <= 13,
    ensures
        x == comb(ints(v@)),
{
    let ghost s = ints(v@);
    let n = v.len();
    proof {
        lemma_comb_max(s);
    }
    let mut x: u32 = 0;
    let mut i: usize = 0;
    assert(s.subrange(0, n as int) =~= s);
    while i < n
        invariant
            s == ints(v@),
            n == v@.len(),
            1 <= n <= 13,
            0 <= i <= n,
            strictly_descending(s),
            x + comb(s.subrange(i as int, n as int)) == comb(s),
            comb(s) < 8192,
        decreases n - i,
    {
        let ghost t = s.subrange(i as int, n as int);
        assert(t.drop_first() =~= s.subrange(i + 1, n as int));
        assert(t[0] == v@[i as int]);
        proof {
            lemma_comb_nonneg(t.drop_first());
            lemma_binom_nonneg(t[0], t.len() as int);
        }
        let b = binom_exec(v[i] as u32, (n - i) as u32);
        x = x + b;
        i = i + 1;
    }
    assert(s.subrange(n as int, n as int).len() == 0);
    x
}

/// Rank of a five-card hand (lower is stronger).
fn evaluate_5cards(cards: [u8; 5]) -> (rank: u32)
    ensures
        rank == five_card_rank(cards@),
{
    let counts = count_ranks(&cards);
    let ghost c = order_counts(cards@);
    assert(counts_view(counts@) =~= c);
    proof {
        lemma_hand_kickers_valid(cards@);
        lemma_kind_facts(c, 1);
        lemma_table();
    }
    let mut is_flush = true;
    let mut i: usize = 0;
    while i < 5
        invariant
            0 <= i <= 5,
            is_flush == forall|j: int| 0 <= j < i ==> card_suit(#[trigger] cards@[j]) == card_suit(cards@[0]),
        decreases 5 - i,
    {
        if cards[i] / 13 != cards[0] / 13 {
            is_flush = false;
        }
        i = i + 1;
    }
    assert(is_flush == all_same_suit(cards@));
    let top = check_straight(&counts);
    let quads = kind_ranks(&counts, 4);
    let trips = kind_ranks(&counts, 3);
    let pairs = kind_ranks(&counts, 2);
    let singles = kind_ranks(&counts, 1);
    let ghost k = hand_kickers(cards@);
    if is_flush && top.is_some() {
        let t = top.unwrap();
        1 + (12 - t) as u32
    } else if quads.len() == 1 && singles.len() == 1 {
        1600 + (12 - quads[0]) as u32 * 13 + (12 - singles[0]) as u32
    } else if trips.len() == 1 && pairs.len() == 1 {
        2500 + (12 - trips[0]) as u32 * 13 + (12 - pairs[0]) as u32
    } else if is_flush && singles.len() == 5 {
        let x = comb_exec(&singles);
        proof {
            lemma_flush_index(k);
        }
        if x < 5 {
            3825 + (1284 - x)
        } else {
            3825 + (1285 - x)
        }
    } else if top.is_some() {
        let t = top.unwrap();
        5109 + (12 - t) as u32
    } else if trips.len() == 1 && singles.len() == 2 {
        5864 + (12 - trips[0]) as u32 * 169 + (12 - singles[0]) as u32 * 13 + (12
            - singles[1]) as u32
    } else if pairs.len() == 2 && singles.len() == 1 {
        8920 + (12 - pairs[0]) as u32 * 169 + (12 - pairs[1]) as u32 * 13 + (12
            - singles[0]) as u32
    } else if pairs.len() == 1 && singles.len() == 3 {
        let x = comb_exec(&singles);
        proof {
            lemma_comb_max(ints(singles@));
            assert(k.drop_first() =~= kind(c, 1));
        }
        21294 + (12 - pairs[0]) as u32 * 286 + (285 - x)
    } else if singles.len() == 5 {
        let x = comb_exec(&singles);
        proof {
            lemma_comb_max(ints(singles@));
        }
        32488 + (1286 - x)
    } else {
        46672
    }
}

/// The five cards left after taking out positions `p` and `q` (`p < q`).
pub open spec fn without_two(cards: Seq<u8>, p: int, q: int) -> Seq<u8> {
    cards.remove(q).remove(p)
}

/// Rank of the five-card hand that leaves out positions `p` and `q`.
pub open spec fn rank_without(cards: Seq<u8>, p: int, q: int) -> int {
    five_card_rank(without_two(cards, p, q))
}

/// `r` is the rank of the best five-card hand among `cards`: no hand that
/// leaves out two of them ranks lower, and one ranks exactly `r`.
pub open spec fn is_best_rank(cards: Seq<u8>, r: int) -> bool {
    &&& forall|p: int, q: int| 0 <= p < q < cards.len() ==> r <= #[trigger] rank_without(cards, p, q)
    &&& exists|p: int, q: int| 0 <= p < q < cards.len() && r == #[trigger] rank_without(cards, p, q)
}

/// Position in `cards` of the `t`-th card left after taking out `p` and `q`.
spec fn kept_index(t: int, p: int, q: int) -> int {
    if t < p {
        t
    } else if t + 1 < q {
        t + 1
    } else {
        t + 2
    }
}

/// The five cards of `cards` other than those at `p` and `q`, in order.
fn hand_without(cards: &[u8; 7], p: usize, q: usize) -> (h: [u8; 5])
    requires
        p < q < 7,
    ensures
        h@ == without_two(cards@, p as int, q as int),
{
    let mut h = [0u8; 5];
    let mut t: usize = 0;
    while t < 5
        invariant
            p < q < 7,
            0 <= t <= 5,
            forall|u: int| 0 <= u < t ==> #[trigger] h@[u] == cards@[kept_index(u, p as int, q as int)],
        decreases 5 - t,
    {
        let i = if t < p {
            t
        } else if t + 1 < q {
            t + 1
        } else {
            t + 2
        };
        h[t] = cards[i];
        t = t + 1;
    }
    assert(h@ =~= without_two(cards@, p as int, q as int));
    h
}

/// Rank of the best five-card hand among seven cards (lower is stronger):
/// straight flush 1..=1599, four of a kind 1600..=2499, full house
/// 2500..=3824, flush 3825..=5108, straight 5109..=5863, three of a kind
/// 5864..=8919, two pair 8920..=21293, one pair 21294..=32487, high card
/// from 32488.
pub fn v7(cards: [u8; 7]) -> (best_rank: u32)
    ensures
        is_best_rank(cards@, best_rank as int),
{
    let mut best_rank = evaluate_5cards(hand_without(&cards, 5, 6));
    assert(best_rank == rank_without(cards@, 5, 6));
    let mut p: usize = 0;
    while p < 6
        invariant
            0 <= p <= 6,
            forall|a: int, b: int| 0 <= a < p && a < b < 7 ==> best_rank <= #[trigger] rank_without(cards@, a, b),
            exists|a: int, b: int| 0 <= a < b < 7 && best_rank == #[trigger] rank_without(cards@, a, b),
        decreases 6 - p,
    {
        let mut q: usize = p + 1;
        while q < 7
            invariant
                0 <= p < 6,
                p < q <= 7,
                forall|a: int, b: int| 0 <= a < p && a < b < 7 ==> best_rank <= #[trigger] rank_without(cards@, a, b),
                forall|b: int| p < b < q ==> best_rank <= #[trigger] rank_without(cards@, p as int, b),
                exists|a: int, b: int| 0 <= a < b < 7 && best_rank == #[trigger] rank_without(cards@, a, b),
            decreases 7 - q,
        {
            let rank = evaluate_5cards(hand_without(&cards, p, q));
            assert(rank == rank_without(cards@, p as int, q as int));
            if rank < best_rank {
                best_rank = rank;
            }
            q = q + 1;
        }
        p = p + 1;
    }
    best_rank
}

/// Same as [`v7`]: the rank of the best five-card hand among seven cards.
pub fn evaluate_7cards(cards: [u8; 7]) -> (rank: u32)
    ensures
        is_best_rank(cards@, rank as int),
{
    v7(cards)
}

/// Name of the hand category that a rank from [`v7`] falls in.
pub fn rank_to_string(rank: u32) -> (name: &'static str)
    ensures
        1 <= rank <= 1599 ==> name@ == "스트레이트 플러시"@,
        1600 <= rank <= 2499 ==> name@ == "포카드"@,
        2500 <= rank <= 3824 ==> name@ == "풀하우스"@,
        3825 <= rank <= 5108 ==> name@ == "플러시"@,
        5109 <= rank <= 5863 ==> name@ == "스트레이트"@,
        5864 <= rank <= 8919 ==> name@ == "트리플"@,
        8920 <= rank <= 21293 ==> name@ == "투페어"@,
        21294 <= rank <= 32487 ==> name@ == "원페어"@,
        rank == 0 || rank > 32487 ==> name@ == "하이카드"@,
{
    if 1 <= rank && rank <= 1599 {
        "스트레이트 플러시"
    } else if 1600 <= rank && rank <= 2499 {
        "포카드"
    } else if 2500 <= rank && rank <= 3824 {
        "풀하우스"
    } else if 3825 <= rank && rank <= 5108 {
        "플러시"
    } else if 5109 <= rank && rank <= 5863 {
        "스트레이트"
    } else if 5864 <= rank && rank <= 8919 {
        "트리플"
    } else if 8920 <= rank && rank <= 21293 {
        "투페어"
    } else if 21294 <= rank && rank <= 32487 {
        "원페어"
    } else {
        "하이카드"
    }
}

/// Text of a card's rank index: "A", "2" to "10", "J", "Q", "K".
pub open spec fn rank_text(rank: int) -> Seq<char> {
    if rank == 0 {
        "A"@
    } else if rank == 1 {
        "2"@
    } else if rank == 2 {
        "3"@
    } else if rank == 3 {
        "4"@
    } else if rank == 4 {
        "5"@
    } else if rank == 5 {
        "6"@
    } else if rank == 6 {
        "7"@
    } else if rank == 7 {
        "8"@
    } else if rank == 8 {
        "9"@
    } else if rank == 9 {
        "10"@
    } else if rank == 10 {
        "J"@
    } else if rank == 11 {
        "Q"@
    } else {
        "K"@
    }
}

/// Text of a suit index: "s", "h", "d", "c", and "?" past the fourth suit.
pub open spec fn suit_text(suit: int) -> Seq<char> {
    if suit == 0 {
        "s"@
    } else if suit == 1 {
        "h"@
    } else if suit == 2 {
        "d"@
    } else if suit == 3 {
        "c"@
    } else {
        "?"@
    }
}

fn rank_str(rank: u8) -> (s: &'static str)
    requires
        rank < 13,
    ensures
        s@ == rank_text(rank as int),
{
    match rank {
        0 => "A",
        1 => "2",
        2 => "3",
        3 => "4",
        4 => "5",
        5 => "6",
        6 => "7",
        7 => "8",
        8 => "9",
        9 => "10",
        10 => "J",
        11 => "Q",
        _ => "K",
    }
}

fn suit_str(suit: u8) -> (s: &'static str)
    ensures
        s@ == suit_text(suit as int),
{
    match suit {
        0 => "s",
        1 => "h",
        2 => "d",
        3 => "c",
        _ => "?",
    }
}

/// Card name such as "As", "10h" or "Kc" (rank then suit; "?" for a suit
/// past clubs).
pub fn card_to_string(card: u8) -> (s: String)
    ensures
        s@ == rank_text(card_rank(card)) + suit_text(card_suit(card)),
{
    let mut s = String::from_str(rank_str(card % 13));
    s.append(suit_str(card / 13));
    s
}


/// The best five-card rank among `cards` (see [`is_best_rank`]).
pub open spec fn best_rank_of(cards: Seq<u8>) -> int {
    choose|r: int| is_best_rank(cards, r)
}

/// The best rank is unique: any rank meeting [`is_best_rank`] is
/// [`best_rank_of`] the cards.
pub proof fn lemma_best_rank_unique(cards: Seq<u8>, r: int)
    requires
        is_best_rank(cards, r),
    ensures
        best_rank_of(cards) == r,
{
    let b = best_rank_of(cards);
    assert(is_best_rank(cards, b));
    let (p, q) = choose|p: int, q: int| 0 <= p < q < cards.len() && r == #[trigger] rank_without(cards, p, q);
    let (p2, q2) = choose|p: int, q: int| 0 <= p < q < cards.len() && b == #[trigger] rank_without(cards, p, q);
    assert(b <= rank_without(cards, p, q));
    assert(r <= rank_without(cards, p2, q2));
}

/// `r` is the rank of the best five cards among five to seven `cards`: no
/// five of them rank lower, and some five rank exactly `r`.
pub open spec fn is_best_hand_rank(cards: Seq<u8>, r: int) -> bool {
    if cards.len() == 7 {
        is_best_rank(cards, r)
    } else if cards.len() == 6 {
        &&& forall|p: int| 0 <= p < 6 ==> r <= #[trigger] five_card_rank(cards.remove(p))
        &&& exists|p: int| 0 <= p < 6 && r == #[trigger] five_card_rank(cards.remove(p))
    } else {
        r == five_card_rank(cards)
    }
}

/// The best five-card rank among `cards` (see [`is_best_hand_rank`]).
pub open spec fn best_hand_rank_of(cards: Seq<u8>) -> int {
    choose|r: int| is_best_hand_rank(cards, r)
}

/// The best rank of five to seven cards is unique.
pub proof fn lemma_best_hand_rank_unique(cards: Seq<u8>, r: int)
    requires
        is_best_hand_rank(cards, r),
    ensures
        best_hand_rank_of(cards) == r,
{
    let b = best_hand_rank_of(cards);
    assert(is_best_hand_rank(cards, b));
    if cards.len() == 7 {
        lemma_best_rank_unique(cards, r);
        lemma_best_rank_unique(cards, b);
    } else if cards.len() == 6 {
        let p = choose|p: int| 0 <= p < 6 && r == #[trigger] five_card_rank(cards.remove(p));
        let p2 = choose|p: int| 0 <= p < 6 && b == #[trigger] five_card_rank(cards.remove(p));
        assert(b <= five_card_rank(cards.remove(p)));
        assert(r <= five_card_rank(cards.remove(p2)));
    }
}

/// The five cards of a six-card slice other than the one at `p`.
fn hand_without_one(cards: &[u8], p: usize) -> (h: [u8; 5])
    requires
        cards@.len() == 6,
        p < 6,
    ensures
        h@ == cards@.remove(p as int),
{
    let mut h = [0u8; 5];
    let mut t: usize = 0;
    while t < 5
        invariant
            cards@.len() == 6,
            p < 6,
            0 <= t <= 5,
            forall|u: int| 0 <= u < t ==> #[trigger] h@[u] == cards@[if u < p { u } else { u + 1 }],
        decreases 5 - t,
    {
        let i = if t < p {
            t
        } else {
            t + 1
        };
        h[t] = cards[i];
        t = t + 1;
    }
    assert(h@ =~= cards@.remove(p as int));
    h
}

/// Rank of the best five cards among five to seven cards (lower is
/// stronger).
pub fn best_hand_rank(cards: &[u8]) -> (rank: u32)
    requires
        5 <= cards@.len() <= 7,
    ensures
        is_best_hand_rank(cards@, rank as int),
{
    if cards.len() == 7 {
        let all: [u8; 7] = [cards[0], cards[1], cards[2], cards[3], cards[4], cards[5], cards[6]];
        assert(all@ =~= cards@);
        v7(all)
    } else if cards.len() == 6 {
        let mut best = evaluate_5cards(hand_without_one(cards, 0));
        let mut p: usize = 1;
        while p < 6
            invariant
                cards@.len() == 6,
                1 <= p <= 6,
                forall|a: int| 0 <= a < p ==> best <= #[trigger] five_card_rank(cards@.remove(a)),
                exists|a: int| 0 <= a < p && best == #[trigger] five_card_rank(cards@.remove(a)),
            decreases 6 - p,
        {
            let rank = evaluate_5cards(hand_without_one(cards, p));
            if rank < best {
                best = rank;
            }
            p = p + 1;
        }
        best
    } else {
        let five: [u8; 5] = [cards[0], cards[1], cards[2], cards[3], cards[4]];
        assert(five@ =~= cards@);
        evaluate_5cards(five)
    }
}

/// `a` beats `b` in the standard poker order: a stronger category, or the
/// same category and higher deciding places compared in order.
pub open spec fn beats(a: Seq<u8>, b: Seq<u8>) -> bool {
    ||| hand_category(a) < hand_category(b)
    ||| hand_category(a) == hand_category(b) && lex_greater(hand_kickers(a), hand_kickers(b))
}

/// `a` and `b` tie: same category and same deciding places.
pub open spec fn ties(a: Seq<u8>, b: Seq<u8>) -> bool {
    hand_category(a) == hand_category(b) && hand_kickers(a) == hand_kickers(b)
}

/// The shape that the deciding places of each category have.
pub open spec fn valid_kickers(cat: int, k: Seq<int>) -> bool {
    if cat == 0 || cat == 4 {
        k.len() == 1 && 3 <= k[0] <= 12
    } else if cat == 1 || cat == 2 {
        k.len() == 2 && 0 <= k[0] <= 12 && 0 <= k[1] <= 12
    } else if cat == 5 || cat == 6 {
        k.len() == 3 && 0 <= k[0] <= 12 && 0 <= k[1] <= 12 && 0 <= k[2] <= 12
    } else if cat == 7 {
        k.len() == 4 && 0 <= k[0] <= 12 && strictly_descending(k.drop_first())
    } else if cat == 3 {
        &&& k.len() == 5
        &&& strictly_descending(k)
        &&& k != seq![4int, 3, 2, 1, 0]
        &&& k != seq![5int, 4, 3, 2, 1]
        &&& k != seq![12int, 11, 10, 9, 8]
    } else if cat == 8 {
        k.len() == 5 && strictly_descending(k)
    } else {
        cat == 9 && k.len() == 0
    }
}

proof fn lemma_comb5(s: Seq<int>)
    requires
        s.len() == 5,
    ensures
        comb(s) == binom(s[0], 5) + binom(s[1], 4) + binom(s[2], 3) + binom(s[3], 2) + binom(s[4], 1),
{
    reveal_with_fuel(comb, 6);
    assert(s.drop_first().drop_first().drop_first().drop_first().drop_first().len() == 0);
}

proof fn lemma_table()
    ensures
        binom(13, 5) == 1287,
        binom(13, 3) == 286,
        comb(seq![4int, 3, 2, 1, 0]) == 0,
        comb(seq![5int, 4, 3, 2, 1]) == 5,
        comb(seq![12int, 11, 10, 9, 8]) == 1286,
{
    lemma_binom_table();
    lemma_comb5(seq![4int, 3, 2, 1, 0]);
    lemma_comb5(seq![5int, 4, 3, 2, 1]);
    lemma_comb5(seq![12int, 11, 10, 9, 8]);
}

/// Five places that make a straight are never a flush's deciding places.
proof fn lemma_no_straight_places(c: Seq<int>)
    requires
        c.len() == 13,
        straight_top(c) is None,
        kind(c, 1).len() == 5,
    ensures
        kind(c, 1) != seq![4int, 3, 2, 1, 0],
        kind(c, 1) != seq![5int, 4, 3, 2, 1],
        kind(c, 1) != seq![12int, 11, 10, 9, 8],
{
    let k = kind(c, 1);
    lemma_kind_facts(c, 1);
    assert(c[k[0]] == 1 && c[k[1]] == 1 && c[k[2]] == 1 && c[k[3]] == 1 && c[k[4]] == 1);
    if k == seq![4int, 3, 2, 1, 0] {
        assert(run_ends_at(c, 4));
        lemma_first_run_some(c, 4, 4);
    }
    if k == seq![5int, 4, 3, 2, 1] {
        assert(run_ends_at(c, 5));
        lemma_first_run_some(c, 4, 5);
    }
    if k == seq![12int, 11, 10, 9, 8] {
        assert(run_ends_at(c, 12));
        lemma_first_run_some(c, 4, 12);
    }
}

/// The deciding places of every hand have the shape of its category.
pub proof fn lemma_hand_kickers_valid(h: Seq<u8>)
    ensures
        0 <= hand_category(h) <= 9,
        valid_kickers(hand_category(h), hand_kickers(h)),
{
    let c = order_counts(h);
    let k = hand_kickers(h);
    let cat = hand_category(h);
    lemma_kind_facts(c, 1);
    lemma_kind_facts(c, 2);
    lemma_kind_facts(c, 3);
    lemma_kind_facts(c, 4);
    lemma_first_run_in_range(c, 4);
    if cat == 3 {
        lemma_no_straight_places(c);
    }
    if cat == 7 {
        assert(k.drop_first() =~= kind(c, 1));
    }
}

/// A flush's index lies between 1 and 1285 and is not 5.
proof fn lemma_flush_index(k: Seq<int>)
    requires
        valid_kickers(3, k),
    ensures
        1 <= comb(k) <= 1285,
        comb(k) != 5,
{
    lemma_table();
    lemma_comb_max(k);
    let z = seq![4int, 3, 2, 1, 0];
    let f = seq![5int, 4, 3, 2, 1];
    let r = seq![12int, 11, 10, 9, 8];
    assert(strictly_descending(z));
    assert(strictly_descending(f));
    assert(strictly_descending(r));
    lemma_lex_total(k, z);
    if lex_greater(k, z) {
        lemma_comb_order(k, z);
    }
    if lex_greater(z, k) {
        lemma_comb_order(z, k);
    }
    lemma_lex_total(k, f);
    if lex_greater(k, f) {
        lemma_comb_order(k, f);
    }
    if lex_greater(f, k) {
        lemma_comb_order(f, k);
    }
    lemma_lex_total(k, r);
    if lex_greater(k, r) {
        lemma_comb_order(k, r);
    }
    if lex_greater(r, k) {
        lemma_comb_order(r, k);
    }
}

/// The offset of valid deciding places stays inside the category's range.
proof fn lemma_code_range(cat: int, k: Seq<int>)
    requires
        valid_kickers(cat, k),
    ensures
        0 <= kicker_code(cat, k) <= category_high(cat) - category_low(cat),
{
    lemma_table();
    if cat == 7 {
        lemma_comb_max(k.drop_first());
    } else if cat == 3 {
        lemma_flush_index(k);
    } else if cat == 8 {
        lemma_comb_max(k);
    }
}

/// Higher deciding places give a strictly smaller offset.
proof fn lemma_code_strict(cat: int, a: Seq<int>, b: Seq<int>)
    requires
        valid_kickers(cat, a),
        valid_kickers(cat, b),
        lex_greater(a, b),
    ensures
        kicker_code(cat, a) < kicker_code(cat, b),
{
    reveal_with_fuel(lex_greater, 4);
    lemma_table();
    if cat == 7 {
        lemma_comb_max(a.drop_first());
        lemma_comb_max(b.drop_first());
        if a[0] == b[0] {
            lemma_comb_order(a.drop_first(), b.drop_first());
        }
    } else if cat == 3 {
        lemma_flush_index(a);
        lemma_flush_index(b);
        lemma_comb_order(a, b);
    } else if cat == 8 {
        lemma_comb_order(a, b);
    } else if cat == 1 || cat == 2 {
        assert(a.drop_first()[0] == a[1] && b.drop_first()[0] == b[1]);
    } else if cat == 5 || cat == 6 {
        assert(a.drop_first()[0] == a[1] && b.drop_first()[0] == b[1]);
        assert(a.drop_first().drop_first()[0] == a[2] && b.drop_first().drop_first()[0] == b[2]);
    }
}

proof fn lemma_bands(x: int, y: int)
    requires
        0 <= x < y <= 9,
    ensures
        category_high(x) < category_low(y),
{
}

/// Lower ranks are exactly the better hands in the standard poker order
/// (category first, then the deciding places, aces high and low only in
/// ace-to-five), and equal ranks exactly the ties.
pub proof fn lemma_rank_orders_hands(a: Seq<u8>, b: Seq<u8>)
    ensures
        five_card_rank(a) < five_card_rank(b) <==> beats(a, b),
        five_card_rank(a) == five_card_rank(b) <==> ties(a, b),
{
    let ca = hand_category(a);
    let cb = hand_category(b);
    let ka = hand_kickers(a);
    let kb = hand_kickers(b);
    lemma_hand_kickers_valid(a);
    lemma_hand_kickers_valid(b);
    lemma_code_range(ca, ka);
    lemma_code_range(cb, kb);
    if ca < cb {
        lemma_bands(ca, cb);
    } else if cb < ca {
        lemma_bands(cb, ca);
    } else {
        lemma_lex_total(ka, kb);
        if lex_greater(ka, kb) {
            lemma_code_strict(ca, ka, kb);
        }
        if lex_greater(kb, ka) {
            lemma_code_strict(ca, kb, ka);
        }
    }
}

/// Every five-card hand's rank lies in its category's range: straight
/// flushes 1..=1599, four of a kind 1600..=2499, full houses 2500..=3824,
/// flushes 3825..=5108, straights 5109..=5863, three of a kind 5864..=8919,
/// two pair 8920..=21293, one pair 21294..=32487, high cards 32488..=33774.
pub proof fn lemma_rank_in_category_range(h: Seq<u8>)
    ensures
        category_low(hand_category(h)) <= five_card_rank(h) <= category_high(hand_category(h)),
{
    lemma_hand_kickers_valid(h);
    lemma_code_range(hand_category(h), hand_kickers(h));
}


/// Sum of the counts at places `k` to 12.
pub open spec fn count_sum(c: Seq<int>, k: int) -> int
    decreases 13 - k,
{
    if k > 12 || k < 0 {
        0
    } else {
        c[k] + count_sum(c, k + 1)
    }
}

proof fn lemma_count_sum_kinds(c: Seq<int>, k: int)
    requires
        0 <= k <= 13,
        forall|r: int| 0 <= r < 13 ==> 0 <= #[trigger] c[r] <= 5,
    ensures
        count_sum(c, k) == ranks_with_count(c, 1, k).len() + 2 * ranks_with_count(c, 2, k).len() + 3
            * ranks_with_count(c, 3, k).len() + 4 * ranks_with_count(c, 4, k).len() + 5
            * ranks_with_count(c, 5, k).len(),
    decreases 13 - k,
{
    if k <= 12 {
        lemma_count_sum_kinds(c, k + 1);
        assert(0 <= c[k] <= 5);
    }
}

proof fn lemma_count_sum_step(c: Seq<int>, d: Seq<int>, x: int, k: int)
    requires
        0 <= x <= 12,
        0 <= k <= 13,
        forall|r: int| 0 <= r < 13 ==> #[trigger] c[r] == d[r] + if r == x {
            1int
        } else {
            0int
        },
    ensures
        count_sum(c, k) == count_sum(d, k) + if k <= x {
            1int
        } else {
            0int
        },
    decreases 13 - k,
{
    if k <= 12 {
        lemma_count_sum_step(c, d, x, k + 1);
        assert(c[k] == d[k] + if k == x {
            1int
        } else {
            0int
        });
    }
}

proof fn lemma_count_sum_zero(c: Seq<int>, k: int)
    requires
        0 <= k <= 13,
        forall|r: int| 0 <= r < 13 ==> #[trigger] c[r] == 0,
    ensures
        count_sum(c, k) == 0,
    decreases 13 - k,
{
    if k <= 12 {
        lemma_count_sum_zero(c, k + 1);
        assert(c[k] == 0);
    }
}

/// The counts of all places add up to the number of cards.
proof fn lemma_count_sum_len(h: Seq<u8>)
    ensures
        count_sum(order_counts(h), 0) == h.len(),
    decreases h.len(),
{
    let c = order_counts(h);
    if h.len() == 0 {
        assert forall|r: int| 0 <= r < 13 implies #[trigger] c[r] == 0 by {
            assert(count_order(h, r) == 0);
        }
        lemma_count_sum_zero(c, 0);
    } else {
        let d = order_counts(h.drop_last());
        lemma_count_sum_len(h.drop_last());
        let x = rank_order(h.last());
        assert forall|r: int| 0 <= r < 13 implies #[trigger] c[r] == d[r] + if r == x {
            1int
        } else {
            0int
        } by {
            assert(c[r] == count_order(h, r));
            assert(d[r] == count_order(h.drop_last(), r));
        }
        lemma_count_sum_step(c, d, x, 0);
    }
}

/// Five different cards of the deck never share one rank.
proof fn lemma_no_five_of_a_rank(h: Seq<u8>, r: int)
    requires
        h.len() == 5,
        forall|i: int| 0 <= i < 5 ==> #[trigger] h[i] < 52,
        forall|i: int, j: int| 0 <= i < j < 5 ==> #[trigger] h[i] != #[trigger] h[j],
    ensures
        count_order(h, r) <= 4,
{
    lemma_count_order_bounds(h, r);
    if count_order(h, r) == 5 {
        let h4 = h.drop_last();
        let h3 = h4.drop_last();
        let h2 = h3.drop_last();
        let h1 = h2.drop_last();
        let h0 = h1.drop_last();
        lemma_count_order_bounds(h4, r);
        lemma_count_order_bounds(h3, r);
        lemma_count_order_bounds(h2, r);
        lemma_count_order_bounds(h1, r);
        assert(h0.len() == 0);
        assert(count_order(h0, r) == 0);
        assert(rank_order(h[4]) == r && rank_order(h[3]) == r && rank_order(h[2]) == r && rank_order(h[1]) == r
            && rank_order(h[0]) == r) by {
            assert(h.last() == h[4] && h4.last() == h[3] && h3.last() == h[2] && h2.last() == h[1]
                && h1.last() == h[0]);
        }
        let a = h[0];
        let b = h[1];
        let e = h[2];
        let f = h[3];
        let g = h[4];
        assert(a != b && a != e && a != f && a != g && b != e && b != f && b != g && e != f && e != g && f != g);
        assert(false) by (nonlinear_arith)
            requires
                a < 52 && b < 52 && e < 52 && f < 52 && g < 52,
                a != b && a != e && a != f && a != g && b != e && b != f && b != g && e != f && e != g
                    && f != g,
                a % 13 == b % 13 && a % 13 == e % 13 && a % 13 == f % 13 && a % 13 == g % 13,
        ;
    }
}

/// Every hand of five different cards of the deck falls in one of the nine
/// standard categories.
pub proof fn lemma_dealt_hand_category(h: Seq<u8>)
    requires
        h.len() == 5,
        forall|i: int| 0 <= i < 5 ==> #[trigger] h[i] < 52,
        forall|i: int, j: int| 0 <= i < j < 5 ==> #[trigger] h[i] != #[trigger] h[j],
    ensures
        hand_category(h) <= 8,
{
    let c = order_counts(h);
    assert forall|r: int| 0 <= r < 13 implies 0 <= #[trigger] c[r] <= 4 by {
        lemma_no_five_of_a_rank(h, r);
        lemma_count_order_bounds(h, r);
    }
    lemma_count_sum_len(h);
    lemma_count_sum_kinds(c, 0);
    lemma_kind_facts(c, 5);
    if kind(c, 5).len() > 0 {
        assert(c[kind(c, 5)[0]] == 5);
    }
}

/// Five different cards of the deck.
pub open spec fn dealt_five(h: Seq<u8>) -> bool {
    &&& h.len() == 5
    &&& forall|i: int| 0 <= i < 5 ==> #[trigger] h[i] < 52
    &&& forall|i: int, j: int| 0 <= i < j < 5 ==> #[trigger] h[i] != #[trigger] h[j]
}

/// Of two hands of five different cards of the deck, the one with the lower
/// rank (the value that `evaluate_5cards`, and [`best_hand_rank`] on five
/// cards, return) is exactly the one that beats the other in the standard
/// poker order (straight flush, four of a kind, full house, flush,
/// straight, three of a kind, two pair, one pair, high card; then the
/// deciding cards, aces high and low only in ace-to-five), and equal ranks
/// are exactly the ties.
pub proof fn lemma_dealt_hands_compare(a: Seq<u8>, b: Seq<u8>)
    requires
        dealt_five(a),
        dealt_five(b),
    ensures
        hand_category(a) <= 8,
        hand_category(b) <= 8,
        five_card_rank(a) < five_card_rank(b) <==> beats(a, b),
        five_card_rank(a) == five_card_rank(b) <==> ties(a, b),
{
    lemma_dealt_hand_category(a);
    lemma_dealt_hand_category(b);
    lemma_rank_orders_hands(a, b);
}

/// Binomial coefficient "n choose k" (0 when `k` is negative or above `n`).
pub open spec fn binom(n: int, k: int) -> int
    decreases n,
{
    if k == 0 {
        1
    } else if n <= 0 || k < 0 {
        0
    } else {
        binom(n - 1, k - 1) + binom(n - 1, k)
    }
}

/// Index of a set of distinct ranks, listed highest first, in the
/// combinatorial number system: `binom(s[0], len) + binom(s[1], len - 1) +
/// ...`. Listing the sets from lowest to highest index lists them in
/// ascending order of their ranks compared highest first.
pub open spec fn comb(s: Seq<int>) -> int
    decreases s.len(),
{
    if s.len() == 0 {
        0
    } else {
        binom(s[0], s.len() as int) + comb(s.drop_first())
    }
}

/// `s` beats `t` comparing position by position from the first: the first
/// difference is higher in `s`.
pub open spec fn lex_greater(s: Seq<int>, t: Seq<int>) -> bool
    decreases s.len(),
{
    s.len() > 0 && t.len() > 0 && (s[0] > t[0] || (s[0] == t[0] && lex_greater(s.drop_first(), t.drop_first())))
}

/// Strictly decreasing ranks between 0 and 12.
pub open spec fn strictly_descending(s: Seq<int>) -> bool {
    &&& forall|i: int| 0 <= i < s.len() ==> 0 <= #[trigger] s[i] <= 12
    &&& forall|i: int, j: int| 0 <= i < j < s.len() ==> #[trigger] s[i] > #[trigger] s[j]
}

proof fn lemma_binom_nonneg(n: int, k: int)
    ensures
        binom(n, k) >= 0,
    decreases n,
{
    if k != 0 && n > 0 && k >= 0 {
        lemma_binom_nonneg(n - 1, k - 1);
        lemma_binom_nonneg(n - 1, k);
    }
}

proof fn lemma_binom_mono(a: int, b: int, k: int)
    requires
        0 <= a <= b,
    ensures
        binom(a, k) <= binom(b, k),
    decreases b - a,
{
    if a < b {
        lemma_binom_mono(a, b - 1, k);
        lemma_binom_nonneg(b - 1, k - 1);
    }
}

proof fn lemma_comb_nonneg(s: Seq<int>)
    ensures
        comb(s) >= 0,
    decreases s.len(),
{
    if s.len() > 0 {
        lemma_binom_nonneg(s[0], s.len() as int);
        lemma_comb_nonneg(s.drop_first());
    }
}

proof fn lemma_binom_one(n: int)
    requires
        n >= 0,
    ensures
        binom(n, 1) == n,
    decreases n,
{
    if n > 0 {
        lemma_binom_one(n - 1);
        assert(binom(n - 1, 0) == 1);
        assert(binom(n, 1) == binom(n - 1, 0) + binom(n - 1, 1));
    }
}

proof fn lemma_descending_tail(s: Seq<int>)
    requires
        strictly_descending(s),
        s.len() > 0,
    ensures
        strictly_descending(s.drop_first()),
{
    let t = s.drop_first();
    assert forall|i: int, j: int| 0 <= i < j < t.len() implies #[trigger] t[i] > #[trigger] t[j] by {
        assert(t[i] == s[i + 1] && t[j] == s[j + 1]);
    }
    assert forall|i: int| 0 <= i < t.len() implies 0 <= #[trigger] t[i] <= 12 by {
        assert(t[i] == s[i + 1]);
    }
}

/// The index of a descending set is below "(top + 1) choose size".
proof fn lemma_comb_below(s: Seq<int>)
    requires
        strictly_descending(s),
        s.len() > 0,
    ensures
        comb(s) < binom(s[0] + 1, s.len() as int),
    decreases s.len(),
{
    let k = s.len() as int;
    if k == 1 {
        lemma_binom_one(s[0]);
        lemma_binom_one(s[0] + 1);
        assert(s.drop_first().len() == 0);
        assert(comb(s.drop_first()) == 0);
        assert(comb(s) == binom(s[0], 1) + comb(s.drop_first()));
    } else {
        let t = s.drop_first();
        lemma_descending_tail(s);
        lemma_comb_below(t);
        assert(t[0] == s[1]);
        assert(s[0] > s[1]);
        lemma_binom_mono(t[0] + 1, s[0], k - 1);
    }
}

/// Of two descending sets of one size, the one that beats the other has
/// the higher index.
pub proof fn lemma_comb_order(s: Seq<int>, t: Seq<int>)
    requires
        strictly_descending(s),
        strictly_descending(t),
        s.len() == t.len(),
        lex_greater(s, t),
    ensures
        comb(s) > comb(t),
    decreases s.len(),
{
    let k = s.len() as int;
    if s[0] > t[0] {
        lemma_comb_below(t);
        lemma_binom_mono(t[0] + 1, s[0], k);
        lemma_comb_nonneg(s.drop_first());
    } else {
        lemma_descending_tail(s);
        lemma_descending_tail(t);
        lemma_comb_order(s.drop_first(), t.drop_first());
    }
}

/// Two sequences of one length are equal, or one beats the other.
pub proof fn lemma_lex_total(s: Seq<int>, t: Seq<int>)
    requires
        s.len() == t.len(),
    ensures
        s == t || lex_greater(s, t) || lex_greater(t, s),
    decreases s.len(),
{
    if s.len() > 0 && s[0] == t[0] {
        lemma_lex_total(s.drop_first(), t.drop_first());
        if s.drop_first() == t.drop_first() {
            assert(s =~= seq![s[0]] + s.drop_first());
            assert(t =~= seq![t[0]] + t.drop_first());
        }
    } else if s.len() == 0 {
        assert(s =~= t);
    }
}

proof fn lemma_binom_table()
    ensures
        binom(13, 5) == 1287,
        binom(13, 3) == 286,
        binom(4, 5) == 0,
        binom(3, 4) == 0,
        binom(2, 3) == 0,
        binom(1, 2) == 0,
        binom(0, 1) == 0,
        binom(5, 5) == 1,
        binom(4, 4) == 1,
        binom(3, 3) == 1,
        binom(2, 2) == 1,
        binom(1, 1) == 1,
        binom(12, 5) == 792,
        binom(11, 4) == 330,
        binom(10, 3) == 120,
        binom(9, 2) == 36,
        binom(8, 1) == 8,
{
    assert(binom(0, 0) == 1);
    assert(binom(0, 1) == 0);
    assert(binom(0, 2) == 0);
    assert(binom(0, 3) == 0);
    assert(binom(0, 4) == 0);
    assert(binom(0, 5) == 0);
    assert(binom(1, 0) == 1);
    assert(binom(1, 1) == 1);
    assert(binom(1, 2) == 0);
    assert(binom(1, 3) == 0);
    assert(binom(1, 4) == 0);
    assert(binom(1, 5) == 0);
    assert(binom(2, 0) == 1);
    assert(binom(2, 1) == 2);
    assert(binom(2, 2) == 1);
    assert(binom(2, 3) == 0);
    assert(binom(2, 4) == 0);
    assert(binom(2, 5) == 0);
    assert(binom(3, 0) == 1);
    assert(binom(3, 1) == 3);
    assert(binom(3, 2) == 3);
    assert(binom(3, 3) == 1);
    assert(binom(3, 4) == 0);
    assert(binom(3, 5) == 0);
    assert(binom(4, 0) == 1);
    assert(binom(4, 1) == 4);
    assert(binom(4, 2) == 6);
    assert(binom(4, 3) == 4);
    assert(binom(4, 4) == 1);
    assert(binom(4, 5) == 0);
    assert(binom(5, 0) == 1);
    assert(binom(5, 1) == 5);
    assert(binom(5, 2) == 10);
    assert(binom(5, 3) == 10);
    assert(binom(5, 4) == 5);
    assert(binom(5, 5) == 1);
    assert(binom(6, 0) == 1);
    assert(binom(6, 1) == 6);
    assert(binom(6, 2) == 15);
    assert(binom(6, 3) == 20);
    assert(binom(6, 4) == 15);
    assert(binom(6, 5) == 6);
    assert(binom(7, 0) == 1);
    assert(binom(7, 1) == 7);
    assert(binom(7, 2) == 21);
    assert(binom(7, 3) == 35);
    assert(binom(7, 4) == 35);
    assert(binom(7, 5) == 21);
    assert(binom(8, 0) == 1);
    assert(binom(8, 1) == 8);
    assert(binom(8, 2) == 28);
    assert(binom(8, 3) == 56);
    assert(binom(8, 4) == 70);
    assert(binom(8, 5) == 56);
    assert(binom(9, 0) == 1);
    assert(binom(9, 1) == 9);
    assert(binom(9, 2) == 36);
    assert(binom(9, 3) == 84);
    assert(binom(9, 4) == 126);
    assert(binom(9, 5) == 126);
    assert(binom(10, 0) == 1);
    assert(binom(10, 1) == 10);
    assert(binom(10, 2) == 45);
    assert(binom(10, 3) == 120);
    assert(binom(10, 4) == 210);
    assert(binom(10, 5) == 252);
    assert(binom(11, 0) == 1);
    assert(binom(11, 1) == 11);
    assert(binom(11, 2) == 55);
    assert(binom(11, 3) == 165);
    assert(binom(11, 4) == 330);
    assert(binom(11, 5) == 462);
    assert(binom(12, 0) == 1);
    assert(binom(12, 1) == 12);
    assert(binom(12, 2) == 66);
    assert(binom(12, 3) == 220);
    assert(binom(12, 4) == 495);
    assert(binom(12, 5) == 792);
    assert(binom(13, 0) == 1);
    assert(binom(13, 1) == 13);
    assert(binom(13, 2) == 78);
    assert(binom(13, 3) == 286);
    assert(binom(13, 4) == 715);
    assert(binom(13, 5) == 1287);
}

} // verus!
