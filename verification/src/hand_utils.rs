//! The hand evaluator: reduces any set of cards to a single totally
//! ordered strength value with correct category precedence and
//! within-category tie-breaking.
//!
//! Every detector is specified over the rank (and rank-per-suit)
//! multiplicities of the card sequence, so a hand's value depends only
//! on which cards it holds, not on their order.

use vstd::prelude::*;

use crate::card::{Card, Rank, Suit, card_count, rank_idx, rank_of_idx, suit_idx, suit_of_idx};

verus! {

/// How many cards of `s` have rank projection `r` and suit projection `su`.
pub open spec fn count_rank_suit(s: Seq<Card>, r: int, su: int) -> nat {
    card_count(s, Card { rank: rank_of_idx(r), suit: suit_of_idx(su) })
}

/// How many cards of `s` have rank projection `r`, over all suits.
pub open spec fn count_rank(s: Seq<Card>, r: int) -> nat {
    count_rank_suit(s, r, 0) + count_rank_suit(s, r, 1) + count_rank_suit(s, r, 2)
        + count_rank_suit(s, r, 3)
}

proof fn lemma_card_count_push(s: Seq<Card>, c: Card, d: Card)
    ensures
        card_count(s.push(c), d) == card_count(s, d) + (if c == d {
            1int
        } else {
            0int
        }),
{
    assert(s.push(c).drop_last() =~= s);
    assert(s.push(c).last() == c);
}

proof fn lemma_count_rank_push(s: Seq<Card>, c: Card, r: int)
    requires
        0 <= r < 13,
    ensures
        count_rank(s.push(c), r) == count_rank(s, r) + (if rank_idx(c.rank) == r {
            1int
        } else {
            0int
        }),
        count_rank_suit(s.push(c), r, suit_idx(c.suit)) == count_rank_suit(
            s,
            r,
            suit_idx(c.suit),
        ) + (if rank_idx(c.rank) == r {
            1int
        } else {
            0int
        }),
        forall|su: int|
            0 <= su < 4 && (su != suit_idx(c.suit) || rank_idx(c.rank) != r)
                ==> count_rank_suit(s.push(c), r, su) == count_rank_suit(s, r, su),
{
    assert(rank_of_idx(rank_idx(c.rank)) == c.rank);
    assert(suit_of_idx(suit_idx(c.suit)) == c.suit);
    assert forall|su: int| 0 <= su < 4 implies count_rank_suit(s.push(c), r, su)
        == count_rank_suit(s, r, su) + (if rank_idx(c.rank) == r && suit_idx(c.suit) == su {
        1int
    } else {
        0int
    }) by {
        let d = Card { rank: rank_of_idx(r), suit: suit_of_idx(su) };
        lemma_card_count_push(s, c, d);
        if c == d {
            assert(rank_idx(c.rank) == r && suit_idx(c.suit) == su);
        } else {
            if rank_idx(c.rank) == r && suit_idx(c.suit) == su {
                assert(c.rank == rank_of_idx(r) && c.suit == suit_of_idx(su));
            }
        }
    }
}

proof fn lemma_count_rank_le_len(s: Seq<Card>, r: int)
    requires
        0 <= r < 13,
    ensures
        count_rank(s, r) <= s.len(),
    decreases s.len(),
{
    if s.len() > 0 {
        let t = s.drop_last();
        lemma_count_rank_le_len(t, r);
        assert(s =~= t.push(s.last()));
        lemma_count_rank_push(t, s.last(), r);
    }
}

/// The per-rank multiplicities of a card set: entry `r` counts the
/// cards whose rank projection is `r`.
pub fn get_rank_counts(cards: &Vec<Card>) -> (counts: Vec<usize>)
    ensures
        counts@.len() == 13,
        forall|r: int| 0 <= r < 13 ==> counts@[r] == count_rank(cards@, r),
{
    let mut counts: Vec<usize> = Vec::new();
    for _k in 0..13
        invariant
            counts@.len() == _k,
            forall|r: int| 0 <= r < _k ==> counts@[r] == 0,
    {
        counts.push(0);
    }
    proof {
        assert forall|r: int| 0 <= r < 13 implies count_rank(cards@.take(0), r) == 0 by {
            assert(cards@.take(0).len() == 0);
        }
    }
    for i in 0..cards.len()
        invariant
            counts@.len() == 13,
            i <= cards@.len(),
            forall|r: int| 0 <= r < 13 ==> counts@[r] == count_rank(cards@.take(i as int), r),
    {
        let ri = cards[i].rank.index() as usize;
        proof {
            assert(cards@.take(i + 1) =~= cards@.take(i as int).push(cards@[i as int]));
            assert forall|r: int| 0 <= r < 13 implies count_rank(cards@.take(i + 1), r)
                == count_rank(cards@.take(i as int), r) + (if rank_idx(cards@[i as int].rank) == r {
                1int
            } else {
                0int
            }) by {
                lemma_count_rank_push(cards@.take(i as int), cards@[i as int], r);
            }
            lemma_count_rank_le_len(cards@.take(i as int), ri as int);
        }
        let old_count = counts[ri];
        counts.set(ri, old_count + 1);
    }
    proof {
        assert(cards@.take(cards@.len() as int) =~= cards@);
    }
    counts
}

/// The highest rank projection in `12..=r` whose multiplicity in `s` is
/// at least `n`, or -1 if there is none.
pub open spec fn highest_ge_from(s: Seq<Card>, n: nat, r: int) -> int
    decreases r + 1,
{
    if r < 0 {
        -1
    } else if count_rank(s, r) >= n {
        r
    } else {
        highest_ge_from(s, n, r - 1)
    }
}

/// The highest rank whose multiplicity in `s` is at least `n`, or -1.
pub open spec fn highest_rank_ge(s: Seq<Card>, n: nat) -> int {
    highest_ge_from(s, n, 12)
}

fn highest_ge_search(counts: &Vec<usize>, n: usize, r: usize, Ghost(s): Ghost<Seq<Card>>) -> (res:
    Option<Rank>)
    requires
        counts@.len() == 13,
        r <= 13,
        forall|k: int| 0 <= k < 13 ==> counts@[k] == count_rank(s, k),
    ensures
        res is None <==> highest_ge_from(s, n as nat, r as int - 1) == -1,
        res matches Some(rk) ==> rank_idx(rk) == highest_ge_from(s, n as nat, r as int - 1),
    decreases r,
{
    if r == 0 {
        None
    } else if counts[r - 1] >= n {
        let rk = Rank::from_index((r - 1) as u8).unwrap();
        Some(rk)
    } else {
        highest_ge_search(counts, n, r - 1, Ghost(s))
    }
}

/// The highest rank that appears at least `n` times in `cards`, or an
/// absent result when no rank does. (A rank appearing more than `n`
/// times also qualifies: a quad, for instance, contains a pair.)
pub fn get_highest_n_of_kind(cards: &Vec<Card>, n: usize) -> (res: Option<Rank>)
    ensures
        res is None <==> highest_rank_ge(cards@, n as nat) == -1,
        res matches Some(rk) ==> rank_idx(rk) == highest_rank_ge(cards@, n as nat),
{
    let counts = get_rank_counts(cards);
    highest_ge_search(&counts, n, 13, Ghost(cards@))
}

/// 13 to the `k`-th power: the weight base of all tie-break encodings.
pub open spec fn pow13(k: nat) -> nat
    decreases k,
{
    if k == 0 {
        1
    } else {
        13 * pow13((k - 1) as nat)
    }
}

/// The number of distinct subscores a category can hold, 13 to the
/// fifth: every category's tie-break value lies strictly below this
/// weight, so a stronger category always outranks a weaker one.
pub const CATEGORY_WEIGHT: u64 = 371293;

/// The value contributed by `m` copies of rank `r` filling the leading
/// positions of a `k`-position base-13 encoding.
pub open spec fn rep(r: int, m: nat, k: nat) -> int
    decreases m,
{
    if m == 0 || k == 0 {
        0
    } else {
        r * pow13((k - 1) as nat) + rep(r, (m - 1) as nat, (k - 1) as nat)
    }
}

/// The base-13 positional encoding of the `k` highest ranks drawn, with
/// multiplicity, from the per-rank multiplicities `c` (13 entries),
/// considering only ranks `r` and below. Positions that cannot be
/// filled count as zero.
pub open spec fn enc_from(c: Seq<nat>, r: int, k: nat) -> int
    decreases r + 1,
{
    if r < 0 || k == 0 {
        0
    } else {
        let m: nat = if c[r] < k {
            c[r]
        } else {
            k
        };
        rep(r, m, k) + enc_from(c, r - 1, (k - m) as nat)
    }
}

/// The per-rank multiplicities of `s` as a mathematical sequence.
pub open spec fn counts_of(s: Seq<Card>) -> Seq<nat> {
    Seq::new(13, |r: int| count_rank(s, r))
}

/// The per-rank multiplicities of the cards of `s` in suit `su`.
pub open spec fn suit_counts_of(s: Seq<Card>, su: int) -> Seq<nat> {
    Seq::new(13, |r: int| count_rank_suit(s, r, su))
}

/// Multiplicities with the ranks `e1` and `e2` struck out (a value
/// outside 0..=12 strikes nothing): the candidate kickers once the
/// committed ranks are excluded.
pub open spec fn counts_zeroed(c: Seq<nat>, e1: int, e2: int) -> Seq<nat> {
    Seq::new(13, |r: int| if r == e1 || r == e2 {
        0
    } else {
        c[r]
    })
}

proof fn lemma_pow13_pos(k: nat)
    ensures
        pow13(k) >= 1,
    decreases k,
{
    if k > 0 {
        lemma_pow13_pos((k - 1) as nat);
    }
}

proof fn lemma_pow13_values()
    ensures
        pow13(0) == 1,
        pow13(1) == 13,
        pow13(2) == 169,
        pow13(3) == 2197,
        pow13(4) == 28561,
        pow13(5) == 371293,
{
    assert(pow13(0) == 1);
    assert(pow13(1) == 13);
    assert(pow13(2) == 169);
    assert(pow13(3) == 2197);
    assert(pow13(4) == 28561);
    assert(pow13(5) == 371293);
}

proof fn lemma_rep_nonneg(r: int, m: nat, k: nat)
    requires
        0 <= r,
    ensures
        rep(r, m, k) >= 0,
    decreases m,
{
    if m > 0 && k > 0 {
        lemma_rep_nonneg(r, (m - 1) as nat, (k - 1) as nat);
        lemma_pow13_pos((k - 1) as nat);
    }
}

proof fn lemma_rep_bound(r: int, m: nat, k: nat)
    requires
        0 <= r <= 12,
        m <= k,
    ensures
        rep(r, m, k) <= pow13(k) - pow13((k - m) as nat),
    decreases m,
{
    if m == 0 {
    } else {
        lemma_rep_bound(r, (m - 1) as nat, (k - 1) as nat);
        lemma_pow13_pos((k - 1) as nat);
        assert(r * pow13((k - 1) as nat) <= 12 * pow13((k - 1) as nat)) by {
            vstd::arithmetic::mul::lemma_mul_inequality(r, 12, pow13((k - 1) as nat) as int);
        }
    }
}

proof fn lemma_enc_nonneg(c: Seq<nat>, r: int, k: nat)
    requires
        r <= 12,
    ensures
        enc_from(c, r, k) >= 0,
    decreases r + 1,
{
    if r >= 0 && k > 0 {
        let m: nat = if c[r] < k {
            c[r]
        } else {
            k
        };
        lemma_rep_nonneg(r, m, k);
        lemma_enc_nonneg(c, r - 1, (k - m) as nat);
    }
}

proof fn lemma_enc_bound(c: Seq<nat>, r: int, k: nat)
    requires
        r <= 12,
    ensures
        enc_from(c, r, k) <= pow13(k) - 1,
    decreases r + 1,
{
    lemma_pow13_pos(k);
    if r >= 0 && k > 0 {
        let m: nat = if c[r] < k {
            c[r]
        } else {
            k
        };
        lemma_rep_bound(r, m, k);
        lemma_enc_bound(c, r - 1, (k - m) as nat);
    }
}

/// The base-13 encoding of the top `k` ranks of `counts` after striking
/// out ranks `skip1` and `skip2` (pass 13 to strike nothing).
fn encode_top_excluding(counts: &Vec<usize>, k: usize, skip1: usize, skip2: usize) -> (v: u64)
    requires
        counts@.len() == 13,
        k <= 5,
    ensures
        v == enc_from(
            counts_zeroed(Seq::new(13, |r: int| counts@[r] as nat), skip1 as int, skip2 as int),
            12,
            k as nat,
        ),
{
    let ghost cz = counts_zeroed(
        Seq::new(13, |r: int| counts@[r] as nat),
        skip1 as int,
        skip2 as int,
    );
    let ghost target = enc_from(cz, 12, k as nat);
    proof {
        lemma_pow13_values();
        lemma_enc_nonneg(cz, 12, k as nat);
        lemma_enc_bound(cz, 12, k as nat);
    }
    let mut acc: u64 = 0;
    let mut rem: usize = k;
    let mut r: usize = 13;
    while r > 0
        invariant
            counts@.len() == 13,
            k <= 5,
            r <= 13,
            rem <= k,
            cz == counts_zeroed(
                Seq::new(13, |rr: int| counts@[rr] as nat),
                skip1 as int,
                skip2 as int,
            ),
            target == enc_from(cz, 12, k as nat),
            acc < pow13((k - rem) as nat),
            target == acc * pow13(rem as nat) + enc_from(cz, r as int - 1, rem as nat),
        decreases r,
    {
        r = r - 1;
        let take: usize = if r != skip1 && r != skip2 {
            let avail = counts[r];
            if avail < rem {
                avail
            } else {
                rem
            }
        } else {
            0
        };
        proof {
            let m: nat = if cz[r as int] < rem as nat {
                cz[r as int]
            } else {
                rem as nat
            };
            assert(m == take as nat);
            lemma_pow13_values();
            lemma_pow13_mono((k - rem) as nat, 5);
        }
        let ghost rem0 = rem;
        let ghost acc0 = acc;
        for j in 0..take
            invariant
                counts@.len() == 13,
                k <= 5,
                r < 13,
                take <= rem0 <= k,
                rem == rem0,
                j <= take,
                cz == counts_zeroed(
                    Seq::new(13, |rr: int| counts@[rr] as nat),
                    skip1 as int,
                    skip2 as int,
                ),
                target == enc_from(cz, 12, k as nat),
                acc < pow13((k - rem0 + j) as nat),
                target == acc * pow13((rem0 - j) as nat) + rep(
                    r as int,
                    (take - j) as nat,
                    (rem0 - j) as nat,
                ) + enc_from(cz, r as int - 1, (rem0 - take) as nat),
        {
            proof {
                lemma_pow13_values();
                lemma_pow13_mono((k - rem0 + j) as nat, 5);
                lemma_pow13_mono((k - rem0 + j + 1) as nat, 5);
                assert(acc * 13 + r < pow13((k - rem0 + j + 1) as nat)) by {
                    assert(pow13((k - rem0 + j + 1) as nat) == 13 * pow13((k - rem0 + j) as nat));
                    vstd::arithmetic::mul::lemma_mul_inequality(
                        acc as int + 1,
                        pow13((k - rem0 + j) as nat) as int,
                        13,
                    );
                }
                assert(acc * 13 * pow13((rem0 - j - 1) as nat) == acc * pow13((rem0 - j) as nat))
                    by {
                    assert(pow13((rem0 - j) as nat) == 13 * pow13((rem0 - j - 1) as nat));
                    vstd::arithmetic::mul::lemma_mul_is_associative(
                        acc as int,
                        13,
                        pow13((rem0 - j - 1) as nat) as int,
                    );
                }
                vstd::arithmetic::mul::lemma_mul_is_distributive_add_other_way(
                    pow13((rem0 - j - 1) as nat) as int,
                    acc as int * 13,
                    r as int,
                );
            }
            acc = acc * 13 + (r as u64);
        }
        proof {
            if take > 0 {
                assert(rep(r as int, 0, (rem0 - take) as nat) == 0);
            }
        }
        rem = rem - take;
    }
    proof {
        assert(enc_from(cz, -1, rem as nat) == 0);
        assert(target == acc * pow13(rem as nat));
    }
    while rem > 0
        invariant
            rem <= k <= 5,
            target == acc * pow13(rem as nat),
            target <= pow13(5) - 1,
            target >= 0,
        decreases rem,
    {
        proof {
            lemma_pow13_values();
            lemma_pow13_pos((rem - 1) as nat);
            assert(acc * 13 * pow13((rem - 1) as nat) == acc * pow13(rem as nat)) by {
                assert(pow13(rem as nat) == 13 * pow13((rem - 1) as nat));
                vstd::arithmetic::mul::lemma_mul_is_associative(
                    acc as int,
                    13,
                    pow13((rem - 1) as nat) as int,
                );
            }
            assert(acc * 13 <= acc * 13 * pow13((rem - 1) as nat)) by {
                vstd::arithmetic::mul::lemma_mul_inequality(
                    1,
                    pow13((rem - 1) as nat) as int,
                    acc as int * 13,
                );
                vstd::arithmetic::mul::lemma_mul_is_commutative(
                    acc as int * 13,
                    pow13((rem - 1) as nat) as int,
                );
            }
        }
        acc = acc * 13;
        rem = rem - 1;
    }
    proof {
        assert(pow13(0) == 1);
        assert(acc * 1 == acc) by {
            vstd::arithmetic::mul::lemma_mul_basics(acc as int);
        }
    }
    acc
}

proof fn lemma_pow13_mono(a: nat, b: nat)
    requires
        a <= b,
    ensures
        pow13(a) <= pow13(b),
    decreases b,
{
    if a < b {
        lemma_pow13_mono(a, (b - 1) as nat);
        lemma_pow13_pos((b - 1) as nat);
    }
}

/// Whether the multiplicities `c` hold a straight whose top rank is `t`:
/// five consecutive ranks ending at `t`, or the ace-low wheel when
/// `t` is the projection of Five (the ace then counts below Two).
pub open spec fn has_straight_top_c(c: Seq<nat>, t: int) -> bool {
    if t == 3 {
        c[3] >= 1 && c[2] >= 1 && c[1] >= 1 && c[0] >= 1 && c[12] >= 1
    } else {
        4 <= t <= 12 && c[t] >= 1 && c[t - 1] >= 1 && c[t - 2] >= 1 && c[t - 3] >= 1 && c[t
            - 4] >= 1
    }
}

/// The highest straight top in `3..=t` under multiplicities `c`, or -1.
pub open spec fn straight_top_from_c(c: Seq<nat>, t: int) -> int
    decreases t + 1,
{
    if t < 3 {
        -1
    } else if has_straight_top_c(c, t) {
        t
    } else {
        straight_top_from_c(c, t - 1)
    }
}

/// The top rank of the best straight in `s`, suits disregarded, or -1.
pub open spec fn straight_spec(s: Seq<Card>) -> int {
    straight_top_from_c(counts_of(s), 12)
}

/// The top rank of the best straight within suit `su` of `s`, or -1.
pub open spec fn sf_top_suit(s: Seq<Card>, su: int) -> int {
    straight_top_from_c(suit_counts_of(s, su), 12)
}

/// The best straight-flush top over the suits `su..=3` of `s`, or -1.
pub open spec fn sf_best_from(s: Seq<Card>, su: int) -> int
    decreases 4 - su,
{
    if su >= 4 {
        -1
    } else {
        let cur = sf_top_suit(s, su);
        let rest = sf_best_from(s, su + 1);
        if cur >= rest {
            cur
        } else {
            rest
        }
    }
}

/// The top rank of the best straight flush in `s`, or -1.
pub open spec fn straight_flush_spec(s: Seq<Card>) -> int {
    sf_best_from(s, 0)
}

/// How many cards of `s` have suit projection `su` and a rank in `0..=r`.
pub open spec fn count_suit_from(s: Seq<Card>, su: int, r: int) -> nat
    decreases r + 1,
{
    if r < 0 {
        0
    } else {
        count_rank_suit(s, r, su) + count_suit_from(s, su, r - 1)
    }
}

/// How many cards of `s` have suit projection `su`.
pub open spec fn count_suit(s: Seq<Card>, su: int) -> nat {
    count_suit_from(s, su, 12)
}

/// The flush tie-break value of suit `su` in `s`: the encoding of the
/// suit's top five ranks when the suit has at least five cards, else -1.
pub open spec fn flush_val_suit(s: Seq<Card>, su: int) -> int {
    if count_suit(s, su) >= 5 {
        enc_from(suit_counts_of(s, su), 12, 5)
    } else {
        -1
    }
}

/// The best flush value over the suits `su..=3` of `s`, or -1.
pub open spec fn flush_best_from(s: Seq<Card>, su: int) -> int
    decreases 4 - su,
{
    if su >= 4 {
        -1
    } else {
        let cur = flush_val_suit(s, su);
        let rest = flush_best_from(s, su + 1);
        if cur >= rest {
            cur
        } else {
            rest
        }
    }
}

/// The tie-break value of the best flush in `s`, or -1.
pub open spec fn flush_spec(s: Seq<Card>) -> int {
    flush_best_from(s, 0)
}

/// The per-rank multiplicities of the cards of `cards` in `suit`.
fn rank_counts_of_suit(cards: &Vec<Card>, suit: Suit) -> (counts: Vec<usize>)
    ensures
        counts@.len() == 13,
        forall|r: int| 0 <= r < 13 ==> counts@[r] == count_rank_suit(cards@, r, suit_idx(suit)),
{
    let mut counts: Vec<usize> = Vec::new();
    for _k in 0..13
        invariant
            counts@.len() == _k,
            forall|r: int| 0 <= r < _k ==> counts@[r] == 0,
    {
        counts.push(0);
    }
    proof {
        assert forall|r: int| 0 <= r < 13 implies count_rank_suit(cards@.take(0), r, suit_idx(suit))
            == 0 by {
            assert(cards@.take(0).len() == 0);
        }
    }
    for i in 0..cards.len()
        invariant
            counts@.len() == 13,
            i <= cards@.len(),
            forall|r: int|
                0 <= r < 13 ==> counts@[r] == count_rank_suit(
                    cards@.take(i as int),
                    r,
                    suit_idx(suit),
                ),
    {
        let c = cards[i];
        proof {
            assert(cards@.take(i + 1) =~= cards@.take(i as int).push(cards@[i as int]));
            assert forall|r: int| 0 <= r < 13 implies count_rank_suit(
                cards@.take(i + 1),
                r,
                suit_idx(suit),
            ) == count_rank_suit(cards@.take(i as int), r, suit_idx(suit)) + (if rank_idx(
                cards@[i as int].rank,
            ) == r && suit_idx(cards@[i as int].suit) == suit_idx(suit) {
                1int
            } else {
                0int
            }) by {
                lemma_count_rank_push(cards@.take(i as int), cards@[i as int], r);
            }
            assert(suit_of_idx(suit_idx(c.suit)) == c.suit);
            assert(suit_of_idx(suit_idx(suit)) == suit);
            lemma_count_rank_suit_le_len(cards@.take(i as int), suit_idx(suit));
        }
        if c.suit == suit {
            let ri = c.rank.index() as usize;
            let old_count = counts[ri];
            counts.set(ri, old_count + 1);
        }
    }
    proof {
        assert(cards@.take(cards@.len() as int) =~= cards@);
    }
    counts
}

proof fn lemma_count_rank_suit_le_len(s: Seq<Card>, su: int)
    ensures
        forall|r: int| 0 <= r < 13 ==> count_rank_suit(s, r, su) <= s.len(),
    decreases s.len(),
{
    if s.len() > 0 {
        let t = s.drop_last();
        lemma_count_rank_suit_le_len(t, su);
        assert(s =~= t.push(s.last()));
        assert forall|r: int| 0 <= r < 13 implies count_rank_suit(s, r, su) <= s.len() by {
            assert(count_rank_suit(t, r, su) <= t.len());
            lemma_card_count_push(t, s.last(), Card { rank: rank_of_idx(r), suit: suit_of_idx(su) });
        }
    }
}

/// Search for the highest straight top at `t-1` or below, given the
/// multiplicities `counts` of the abstract counts `c`.
fn straight_search(counts: &Vec<usize>, t: usize, Ghost(c): Ghost<Seq<nat>>) -> (res: Option<u8>)
    requires
        counts@.len() == 13,
        c.len() == 13,
        t <= 13,
        forall|k: int| 0 <= k < 13 ==> counts@[k] == c[k],
    ensures
        res is None <==> straight_top_from_c(c, t as int - 1) == -1,
        res matches Some(top) ==> top == straight_top_from_c(c, t as int - 1) && top <= 12,
    decreases t,
{
    if t <= 3 {
        None
    } else {
        let top = t - 1;
        let found: bool = if top == 3 {
            counts[3] >= 1 && counts[2] >= 1 && counts[1] >= 1 && counts[0] >= 1 && counts[12] >= 1
        } else {
            counts[top] >= 1 && counts[top - 1] >= 1 && counts[top - 2] >= 1 && counts[top - 3] >= 1
                && counts[top - 4] >= 1
        };
        if found {
            Some(top as u8)
        } else {
            straight_search(counts, top, Ghost(c))
        }
    }
}

/// Detect a straight: five consecutive ranks (ace high or low), suits
/// disregarded. The value is the straight's top rank projection.
pub fn straight_value(cards: &Vec<Card>) -> (res: Option<u64>)
    ensures
        res is None <==> straight_spec(cards@) == -1,
        res matches Some(v) ==> v == straight_spec(cards@) && v <= 12,
{
    let counts = get_rank_counts(cards);
    let ghost c = counts_of(cards@);
    proof {
        assert(forall|k: int| 0 <= k < 13 ==> counts@[k] == c[k]);
    }
    match straight_search(&counts, 13, Ghost(c)) {
        Some(top) => Some(top as u64),
        None => None,
    }
}

fn sf_search_suits(cards: &Vec<Card>, su: usize) -> (res: Option<u8>)
    requires
        su <= 4,
    ensures
        res is None <==> sf_best_from(cards@, su as int) == -1,
        res matches Some(top) ==> top == sf_best_from(cards@, su as int) && top <= 12,
    decreases 4 - su,
{
    if su == 4 {
        None
    } else {
        let suits = Suit::iterator();
        let counts = rank_counts_of_suit(cards, suits[su]);
        let ghost c = suit_counts_of(cards@, su as int);
        proof {
            assert(suits@[su as int] == suit_of_idx(su as int));
            assert(suit_idx(suit_of_idx(su as int)) == su as int);
            assert(forall|k: int| 0 <= k < 13 ==> counts@[k] == c[k]);
        }
        let cur = straight_search(&counts, 13, Ghost(c));
        let rest = sf_search_suits(cards, su + 1);
        match (cur, rest) {
            (Some(a), Some(b)) => if a >= b {
                Some(a)
            } else {
                Some(b)
            },
            (Some(a), None) => Some(a),
            (None, Some(b)) => Some(b),
            (None, None) => None,
        }
    }
}

/// Detect a straight flush: five consecutive ranks within one suit
/// (ace high or low). The value is the straight's top rank projection.
pub fn straight_flush_value(cards: &Vec<Card>) -> (res: Option<u64>)
    ensures
        res is None <==> straight_flush_spec(cards@) == -1,
        res matches Some(v) ==> v == straight_flush_spec(cards@) && v <= 12,
{
    match sf_search_suits(cards, 0) {
        Some(top) => Some(top as u64),
        None => None,
    }
}

fn sum_suit_counts(counts: &Vec<usize>, r: usize, Ghost(s): Ghost<Seq<Card>>, Ghost(su): Ghost<
    int,
>) -> (total: u128)
    requires
        counts@.len() == 13,
        r <= 13,
        forall|k: int| 0 <= k < 13 ==> counts@[k] == count_rank_suit(s, k, su),
    ensures
        total == count_suit_from(s, su, r as int - 1),
        total <= (r as int) * (usize::MAX as int),
    decreases r,
{
    proof {
        lemma_count_rank_suit_le_len_any(s, su);
    }
    if r == 0 {
        0
    } else {
        let rest = sum_suit_counts(counts, r - 1, Ghost(s), Ghost(su));
        proof {
            let m = usize::MAX as int;
            assert((r as int) * m == (r as int - 1) * m + m) by {
                vstd::arithmetic::mul::lemma_mul_is_distributive_add_other_way(m, r as int - 1, 1);
                vstd::arithmetic::mul::lemma_mul_basics(m);
            }
            assert((r as int - 1) * m >= 0) by {
                vstd::arithmetic::mul::lemma_mul_nonnegative(r as int - 1, m);
            }
            assert((r as int) * m <= 13 * m) by {
                vstd::arithmetic::mul::lemma_mul_inequality(r as int, 13, m);
                vstd::arithmetic::mul::lemma_mul_is_commutative(r as int, m);
                vstd::arithmetic::mul::lemma_mul_is_commutative(13, m);
            }
            assert(rest <= s.len() * (r as int - 1));
            assert(counts@[r as int - 1] <= s.len());
            assert(s.len() * (r as int - 1) + s.len() == s.len() * (r as int)) by {
                vstd::arithmetic::mul::lemma_mul_is_distributive_add(s.len() as int, r as int - 1, 1);
            }
            assert(s.len() * (r as int) <= s.len() * 13) by {
                vstd::arithmetic::mul::lemma_mul_inequality(r as int, 13, s.len() as int);
                vstd::arithmetic::mul::lemma_mul_is_commutative(s.len() as int, r as int);
                vstd::arithmetic::mul::lemma_mul_is_commutative(s.len() as int, 13);
            }
        }
        (counts[r - 1] as u128) + rest
    }
}

proof fn lemma_count_rank_suit_le_len_any(s: Seq<Card>, su: int)
    ensures
        forall|r: int| count_rank_suit(s, r, su) <= s.len(),
        forall|r: int| -1 <= r <= 12 ==> count_suit_from(s, su, r) <= s.len() * (r + 1),
{
    assert forall|r: int| count_rank_suit(s, r, su) <= s.len() by {
        lemma_card_count_le_len(s, Card { rank: rank_of_idx(r), suit: suit_of_idx(su) });
    }
    assert forall|r: int| -1 <= r <= 12 implies count_suit_from(s, su, r) <= s.len() * (r + 1) by {
        lemma_count_suit_from_le(s, su, r);
    }
}

proof fn lemma_card_count_le_len(s: Seq<Card>, c: Card)
    ensures
        card_count(s, c) <= s.len(),
    decreases s.len(),
{
    if s.len() > 0 {
        lemma_card_count_le_len(s.drop_last(), c);
    }
}

proof fn lemma_count_suit_from_le(s: Seq<Card>, su: int, r: int)
    requires
        -1 <= r <= 12,
    ensures
        count_suit_from(s, su, r) <= s.len() * (r + 1),
    decreases r + 1,
{
    if r < 0 {
        assert(s.len() * 0 == 0) by {
            vstd::arithmetic::mul::lemma_mul_basics(s.len() as int);
        }
    } else {
        lemma_count_suit_from_le(s, su, r - 1);
        lemma_card_count_le_len(s, Card { rank: rank_of_idx(r), suit: suit_of_idx(su) });
        assert(s.len() * (r + 1) == s.len() * r + s.len()) by {
            vstd::arithmetic::mul::lemma_mul_is_distributive_add(s.len() as int, r, 1);
        }
    }
}

fn flush_search_suits(cards: &Vec<Card>, su: usize) -> (res: Option<u64>)
    requires
        su <= 4,
    ensures
        res is None <==> flush_best_from(cards@, su as int) == -1,
        res matches Some(v) ==> v == flush_best_from(cards@, su as int) && v < CATEGORY_WEIGHT,
    decreases 4 - su,
{
    if su == 4 {
        None
    } else {
        let suits = Suit::iterator();
        let counts = rank_counts_of_suit(cards, suits[su]);
        let ghost c = suit_counts_of(cards@, su as int);
        proof {
            assert(suits@[su as int] == suit_of_idx(su as int));
            assert(suit_idx(suit_of_idx(su as int)) == su as int);
            assert(forall|k: int| 0 <= k < 13 ==> counts@[k] == count_rank_suit(
                cards@,
                k,
                su as int,
            ));
        }
        let total = sum_suit_counts(&counts, 13, Ghost(cards@), Ghost(su as int));
        let cur: Option<u64> = if total >= 5 {
            let v = encode_top_excluding(&counts, 5, 13, 13);
            proof {
                assert(counts_zeroed(Seq::new(13, |r: int| counts@[r] as nat), 13, 13) =~= c);
                lemma_enc_bound(c, 12, 5);
                lemma_enc_nonneg(c, 12, 5);
                lemma_pow13_values();
            }
            Some(v)
        } else {
            None
        };
        let rest = flush_search_suits(cards, su + 1);
        match (cur, rest) {
            (Some(a), Some(b)) => if a >= b {
                Some(a)
            } else {
                Some(b)
            },
            (Some(a), None) => Some(a),
            (None, Some(b)) => Some(b),
            (None, None) => None,
        }
    }
}

/// Detect a flush: at least five cards of one suit. The value encodes
/// the suit's top five ranks, highest weighted most; where more than
/// one suit qualifies the strongest encoding wins.
pub fn flush_value(cards: &Vec<Card>) -> (res: Option<u64>)
    ensures
        res is None <==> flush_spec(cards@) == -1,
        res matches Some(v) ==> v == flush_spec(cards@) && v < CATEGORY_WEIGHT,
{
    flush_search_suits(cards, 0)
}

/// The highest rank in `r..=0`, other than `e`, whose multiplicity in
/// `s` is at least `n`, or -1.
pub open spec fn highest_ge_excl_from(s: Seq<Card>, n: nat, e: int, r: int) -> int
    decreases r + 1,
{
    if r < 0 {
        -1
    } else if r != e && count_rank(s, r) >= n {
        r
    } else {
        highest_ge_excl_from(s, n, e, r - 1)
    }
}

/// The highest rank in `r..=0`, other than `e`, whose multiplicity in
/// `s` is exactly 2, or -1.
pub open spec fn highest_eq2_excl_from(s: Seq<Card>, e: int, r: int) -> int
    decreases r + 1,
{
    if r < 0 {
        -1
    } else if r != e && count_rank(s, r) == 2 {
        r
    } else {
        highest_eq2_excl_from(s, e, r - 1)
    }
}

/// The four-of-a-kind value of `s`: 13 times the highest quad rank plus
/// the best remaining kicker rank, or -1 when no rank appears four times.
pub open spec fn quads_spec(s: Seq<Card>) -> int {
    let q = highest_rank_ge(s, 4);
    if q < 0 {
        -1
    } else {
        13 * q + enc_from(counts_zeroed(counts_of(s), q, 13), 12, 1)
    }
}

/// The full-house value of `s`: 13 times the highest rank appearing at
/// least three times plus the highest distinct rank appearing at least
/// twice, or -1 when no such pair of ranks exists.
pub open spec fn full_house_spec(s: Seq<Card>) -> int {
    let r3 = highest_rank_ge(s, 3);
    if r3 < 0 {
        -1
    } else {
        let r2 = highest_ge_excl_from(s, 2, r3, 12);
        if r2 < 0 {
            -1
        } else {
            13 * r3 + r2
        }
    }
}

/// The three-of-a-kind value of `s`: 169 times the highest triple rank
/// plus the encoding of the two best kickers outside that rank, or -1.
pub open spec fn set_spec(s: Seq<Card>) -> int {
    let r3 = highest_rank_ge(s, 3);
    if r3 < 0 {
        -1
    } else {
        169 * r3 + enc_from(counts_zeroed(counts_of(s), r3, 13), 12, 2)
    }
}

/// The two-pair value of `s`: requires two distinct ranks appearing
/// exactly twice; 169 times the higher pair plus 13 times the lower
/// plus the best kicker outside both, or -1.
pub open spec fn two_pair_spec(s: Seq<Card>) -> int {
    let p1 = highest_eq2_excl_from(s, 13, 12);
    if p1 < 0 {
        -1
    } else {
        let p2 = highest_eq2_excl_from(s, p1, 12);
        if p2 < 0 {
            -1
        } else {
            169 * p1 + 13 * p2 + enc_from(counts_zeroed(counts_of(s), p1, p2), 12, 1)
        }
    }
}

/// The one-pair value of `s`: 2197 times the highest rank appearing at
/// least twice plus the encoding of the three best kickers outside that
/// rank, or -1.
pub open spec fn pair_spec(s: Seq<Card>) -> int {
    let p = highest_rank_ge(s, 2);
    if p < 0 {
        -1
    } else {
        2197 * p + enc_from(counts_zeroed(counts_of(s), p, 13), 12, 3)
    }
}

/// The high-card value of `s`: the encoding of its five best ranks.
pub open spec fn high_card_spec(s: Seq<Card>) -> int {
    enc_from(counts_of(s), 12, 5)
}

fn highest_ge_excl_search(counts: &Vec<usize>, n: usize, e: usize, r: usize, Ghost(s): Ghost<
    Seq<Card>,
>) -> (res: Option<u8>)
    requires
        counts@.len() == 13,
        r <= 13,
        forall|k: int| 0 <= k < 13 ==> counts@[k] == count_rank(s, k),
    ensures
        res is None <==> highest_ge_excl_from(s, n as nat, e as int, r as int - 1) == -1,
        res matches Some(rr) ==> rr == highest_ge_excl_from(s, n as nat, e as int, r as int - 1)
            && rr <= 12,
    decreases r,
{
    if r == 0 {
        None
    } else if r - 1 != e && counts[r - 1] >= n {
        Some((r - 1) as u8)
    } else {
        highest_ge_excl_search(counts, n, e, r - 1, Ghost(s))
    }
}

fn highest_eq2_search(counts: &Vec<usize>, e: usize, r: usize, Ghost(s): Ghost<Seq<Card>>) -> (res:
    Option<u8>)
    requires
        counts@.len() == 13,
        r <= 13,
        forall|k: int| 0 <= k < 13 ==> counts@[k] == count_rank(s, k),
    ensures
        res is None <==> highest_eq2_excl_from(s, e as int, r as int - 1) == -1,
        res matches Some(rr) ==> rr == highest_eq2_excl_from(s, e as int, r as int - 1) && rr <= 12,
    decreases r,
{
    if r == 0 {
        None
    } else if r - 1 != e && counts[r - 1] == 2 {
        Some((r - 1) as u8)
    } else {
        highest_eq2_search(counts, e, r - 1, Ghost(s))
    }
}

/// Detect four of a kind. The value is 13 times the quad rank plus the
/// best kicker rank among the remaining cards.
pub fn quads_value(cards: &Vec<Card>) -> (res: Option<u64>)
    ensures
        res is None <==> quads_spec(cards@) == -1,
        res matches Some(v) ==> v == quads_spec(cards@) && v < CATEGORY_WEIGHT,
{
    match get_highest_n_of_kind(cards, 4) {
        None => None,
        Some(rk) => {
            let q = rk.index() as usize;
            let counts = get_rank_counts(cards);
            let ghost cz = counts_zeroed(counts_of(cards@), q as int, 13);
            let k = encode_top_excluding(&counts, 1, q, 13);
            proof {
                assert(Seq::new(13, |r: int| counts@[r] as nat) =~= counts_of(cards@));
                lemma_enc_nonneg(cz, 12, 1);
                lemma_enc_bound(cz, 12, 1);
                lemma_pow13_values();
                assert(q <= 12);
            }
            Some(13 * (q as u64) + k)
        },
    }
}

/// Detect a full house. The value is 13 times the triple rank plus the
/// highest distinct rank available at least twice.
pub fn full_house_value(cards: &Vec<Card>) -> (res: Option<u64>)
    ensures
        res is None <==> full_house_spec(cards@) == -1,
        res matches Some(v) ==> v == full_house_spec(cards@) && v < CATEGORY_WEIGHT,
{
    match get_highest_n_of_kind(cards, 3) {
        None => None,
        Some(rk3) => {
            let r3 = rk3.index() as usize;
            let counts = get_rank_counts(cards);
            match highest_ge_excl_search(&counts, 2, r3, 13, Ghost(cards@)) {
                None => None,
                Some(r2) => {
                    proof {
                        assert(r3 <= 12);
                    }
                    Some(13 * (r3 as u64) + (r2 as u64))
                },
            }
        },
    }
}

/// Detect three of a kind. The value is 169 times the triple rank plus
/// the encoding of the two best kickers outside that rank.
pub fn set_value(cards: &Vec<Card>) -> (res: Option<u64>)
    ensures
        res is None <==> set_spec(cards@) == -1,
        res matches Some(v) ==> v == set_spec(cards@) && v < CATEGORY_WEIGHT,
{
    match get_highest_n_of_kind(cards, 3) {
        None => None,
        Some(rk3) => {
            let r3 = rk3.index() as usize;
            let counts = get_rank_counts(cards);
            let ghost cz = counts_zeroed(counts_of(cards@), r3 as int, 13);
            let k = encode_top_excluding(&counts, 2, r3, 13);
            proof {
                assert(Seq::new(13, |r: int| counts@[r] as nat) =~= counts_of(cards@));
                lemma_enc_nonneg(cz, 12, 2);
                lemma_enc_bound(cz, 12, 2);
                lemma_pow13_values();
                assert(r3 <= 12);
            }
            Some(169 * (r3 as u64) + k)
        },
    }
}

/// Detect two pair: two distinct ranks appearing exactly twice. The
/// value is 169 times the higher pair plus 13 times the lower plus the
/// best kicker outside both.
pub fn two_pair_value(cards: &Vec<Card>) -> (res: Option<u64>)
    ensures
        res is None <==> two_pair_spec(cards@) == -1,
        res matches Some(v) ==> v == two_pair_spec(cards@) && v < CATEGORY_WEIGHT,
{
    let counts = get_rank_counts(cards);
    match highest_eq2_search(&counts, 13, 13, Ghost(cards@)) {
        None => None,
        Some(p1) => {
            match highest_eq2_search(&counts, p1 as usize, 13, Ghost(cards@)) {
                None => None,
                Some(p2) => {
                    let ghost cz = counts_zeroed(counts_of(cards@), p1 as int, p2 as int);
                    let k = encode_top_excluding(&counts, 1, p1 as usize, p2 as usize);
                    proof {
                        assert(Seq::new(13, |r: int| counts@[r] as nat) =~= counts_of(cards@));
                        lemma_enc_nonneg(cz, 12, 1);
                        lemma_enc_bound(cz, 12, 1);
                        lemma_pow13_values();
                    }
                    Some(169 * (p1 as u64) + 13 * (p2 as u64) + k)
                },
            }
        },
    }
}

/// Detect one pair. The value is 2197 times the pair rank plus the
/// encoding of the three best kickers outside that rank.
pub fn pair_value(cards: &Vec<Card>) -> (res: Option<u64>)
    ensures
        res is None <==> pair_spec(cards@) == -1,
        res matches Some(v) ==> v == pair_spec(cards@) && v < CATEGORY_WEIGHT,
{
    match get_highest_n_of_kind(cards, 2) {
        None => None,
        Some(rk) => {
            let p = rk.index() as usize;
            let counts = get_rank_counts(cards);
            let ghost cz = counts_zeroed(counts_of(cards@), p as int, 13);
            let k = encode_top_excluding(&counts, 3, p, 13);
            proof {
                assert(Seq::new(13, |r: int| counts@[r] as nat) =~= counts_of(cards@));
                lemma_enc_nonneg(cz, 12, 3);
                lemma_enc_bound(cz, 12, 3);
                lemma_pow13_values();
                assert(p <= 12);
            }
            Some(2197 * (p as u64) + k)
        },
    }
}

/// The high-card value: the base-13 encoding of the five best ranks of
/// `cards`, highest weighted most.
pub fn high_card_value(cards: &Vec<Card>) -> (v: u64)
    ensures
        v == high_card_spec(cards@),
        v < CATEGORY_WEIGHT,
{
    let counts = get_rank_counts(cards);
    let v = encode_top_excluding(&counts, 5, 13, 13);
    proof {
        assert(counts_zeroed(Seq::new(13, |r: int| counts@[r] as nat), 13, 13) =~= counts_of(
            cards@,
        ));
        lemma_enc_nonneg(counts_of(cards@), 12, 5);
        lemma_enc_bound(counts_of(cards@), 12, 5);
        lemma_pow13_values();
    }
    v
}

/// The 0-based precedence position of the first matching category of
/// `s`: 0 for a straight flush down to 8 for a bare high card.
pub open spec fn hand_category(s: Seq<Card>) -> int {
    if straight_flush_spec(s) >= 0 {
        0
    } else if quads_spec(s) >= 0 {
        1
    } else if full_house_spec(s) >= 0 {
        2
    } else if flush_spec(s) >= 0 {
        3
    } else if straight_spec(s) >= 0 {
        4
    } else if set_spec(s) >= 0 {
        5
    } else if two_pair_spec(s) >= 0 {
        6
    } else if pair_spec(s) >= 0 {
        7
    } else {
        8
    }
}

/// The tie-break value of the first matching category of `s`.
pub open spec fn hand_subscore(s: Seq<Card>) -> int {
    if straight_flush_spec(s) >= 0 {
        straight_flush_spec(s)
    } else if quads_spec(s) >= 0 {
        quads_spec(s)
    } else if full_house_spec(s) >= 0 {
        full_house_spec(s)
    } else if flush_spec(s) >= 0 {
        flush_spec(s)
    } else if straight_spec(s) >= 0 {
        straight_spec(s)
    } else if set_spec(s) >= 0 {
        set_spec(s)
    } else if two_pair_spec(s) >= 0 {
        two_pair_spec(s)
    } else if pair_spec(s) >= 0 {
        pair_spec(s)
    } else {
        high_card_spec(s)
    }
}

/// The total strength of `s`: the category weight times the category's
/// distance from the bottom, plus the category's tie-break value.
pub open spec fn hand_value_spec(s: Seq<Card>) -> int {
    CATEGORY_WEIGHT * (8 - hand_category(s)) + hand_subscore(s)
}

/// Reduce a set of cards to its single totally ordered strength value:
/// strictly greater means strictly better, equality is an exact tie.
pub fn get_hand_value(cards: &Vec<Card>) -> (v: u64)
    ensures
        v == hand_value_spec(cards@),
        v < CATEGORY_WEIGHT * 9,
{
    if let Some(sub) = straight_flush_value(cards) {
        return CATEGORY_WEIGHT * 8 + sub;
    }
    if let Some(sub) = quads_value(cards) {
        return CATEGORY_WEIGHT * 7 + sub;
    }
    if let Some(sub) = full_house_value(cards) {
        return CATEGORY_WEIGHT * 6 + sub;
    }
    if let Some(sub) = flush_value(cards) {
        return CATEGORY_WEIGHT * 5 + sub;
    }
    if let Some(sub) = straight_value(cards) {
        return CATEGORY_WEIGHT * 4 + sub;
    }
    if let Some(sub) = set_value(cards) {
        return CATEGORY_WEIGHT * 3 + sub;
    }
    if let Some(sub) = two_pair_value(cards) {
        return CATEGORY_WEIGHT * 2 + sub;
    }
    if let Some(sub) = pair_value(cards) {
        return CATEGORY_WEIGHT * 1 + sub;
    }
    high_card_value(cards)
}

proof fn lemma_highest_ge_from_range(s: Seq<Card>, n: nat, r: int)
    requires
        -1 <= r,
    ensures
        -1 <= highest_ge_from(s, n, r) <= r,
    decreases r + 1,
{
    if r >= 0 {
        lemma_highest_ge_from_range(s, n, r - 1);
    }
}

proof fn lemma_highest_ge_excl_range(s: Seq<Card>, n: nat, e: int, r: int)
    requires
        -1 <= r,
    ensures
        -1 <= highest_ge_excl_from(s, n, e, r) <= r,
    decreases r + 1,
{
    if r >= 0 {
        lemma_highest_ge_excl_range(s, n, e, r - 1);
    }
}

proof fn lemma_highest_eq2_range(s: Seq<Card>, e: int, r: int)
    requires
        -1 <= r,
    ensures
        -1 <= highest_eq2_excl_from(s, e, r) <= r,
    decreases r + 1,
{
    if r >= 0 {
        lemma_highest_eq2_range(s, e, r - 1);
    }
}

proof fn lemma_straight_top_range(c: Seq<nat>, t: int)
    requires
        -1 <= t,
    ensures
        -1 <= straight_top_from_c(c, t) <= t,
    decreases t + 1,
{
    if t >= 3 {
        lemma_straight_top_range(c, t - 1);
    }
}

proof fn lemma_sf_best_range(s: Seq<Card>, su: int)
    ensures
        -1 <= sf_best_from(s, su) <= 12,
    decreases 4 - su,
{
    if su < 4 {
        lemma_straight_top_range(suit_counts_of(s, su), 12);
        lemma_sf_best_range(s, su + 1);
    }
}

proof fn lemma_flush_best_range(s: Seq<Card>, su: int)
    ensures
        -1 <= flush_best_from(s, su) < CATEGORY_WEIGHT,
    decreases 4 - su,
{
    if su < 4 {
        lemma_enc_nonneg(suit_counts_of(s, su), 12, 5);
        lemma_enc_bound(suit_counts_of(s, su), 12, 5);
        lemma_pow13_values();
        lemma_flush_best_range(s, su + 1);
    }
}

/// Every category's tie-break value stays inside one category weight.
pub proof fn lemma_subscore_bounds(s: Seq<Card>)
    ensures
        0 <= hand_subscore(s) < CATEGORY_WEIGHT,
{
    lemma_pow13_values();
    lemma_sf_best_range(s, 0);
    lemma_flush_best_range(s, 0);
    lemma_straight_top_range(counts_of(s), 12);
    lemma_highest_ge_from_range(s, 4, 12);
    lemma_highest_ge_from_range(s, 3, 12);
    lemma_highest_ge_from_range(s, 2, 12);
    lemma_highest_ge_excl_range(s, 2, highest_rank_ge(s, 3), 12);
    lemma_highest_eq2_range(s, 13, 12);
    lemma_highest_eq2_range(s, highest_eq2_excl_from(s, 13, 12), 12);
    lemma_enc_nonneg(counts_zeroed(counts_of(s), highest_rank_ge(s, 4), 13), 12, 1);
    lemma_enc_bound(counts_zeroed(counts_of(s), highest_rank_ge(s, 4), 13), 12, 1);
    lemma_enc_nonneg(counts_zeroed(counts_of(s), highest_rank_ge(s, 3), 13), 12, 2);
    lemma_enc_bound(counts_zeroed(counts_of(s), highest_rank_ge(s, 3), 13), 12, 2);
    lemma_enc_nonneg(
        counts_zeroed(
            counts_of(s),
            highest_eq2_excl_from(s, 13, 12),
            highest_eq2_excl_from(s, highest_eq2_excl_from(s, 13, 12), 12),
        ),
        12,
        1,
    );
    lemma_enc_bound(
        counts_zeroed(
            counts_of(s),
            highest_eq2_excl_from(s, 13, 12),
            highest_eq2_excl_from(s, highest_eq2_excl_from(s, 13, 12), 12),
        ),
        12,
        1,
    );
    lemma_enc_nonneg(counts_zeroed(counts_of(s), highest_rank_ge(s, 2), 13), 12, 3);
    lemma_enc_bound(counts_zeroed(counts_of(s), highest_rank_ge(s, 2), 13), 12, 3);
    lemma_enc_nonneg(counts_of(s), 12, 5);
    lemma_enc_bound(counts_of(s), 12, 5);
}

/// Strength categories are strictly ordered: a hand whose first
/// matching category has higher precedence outranks any hand of a
/// weaker category, whatever the two tie-break values are.
pub proof fn lemma_category_precedence(s1: Seq<Card>, s2: Seq<Card>)
    requires
        hand_category(s1) < hand_category(s2),
    ensures
        hand_value_spec(s1) > hand_value_spec(s2),
{
    lemma_subscore_bounds(s1);
    lemma_subscore_bounds(s2);
}

proof fn lemma_highest_ge_congruent(s1: Seq<Card>, s2: Seq<Card>, n: nat, r: int)
    requires
        forall|k: int| #[trigger] count_rank(s1, k) == count_rank(s2, k),
    ensures
        highest_ge_from(s1, n, r) == highest_ge_from(s2, n, r),
    decreases r + 1,
{
    if r >= 0 {
        lemma_highest_ge_congruent(s1, s2, n, r - 1);
    }
}

proof fn lemma_highest_ge_excl_congruent(s1: Seq<Card>, s2: Seq<Card>, n: nat, e: int, r: int)
    requires
        forall|k: int| #[trigger] count_rank(s1, k) == count_rank(s2, k),
    ensures
        highest_ge_excl_from(s1, n, e, r) == highest_ge_excl_from(s2, n, e, r),
    decreases r + 1,
{
    if r >= 0 {
        lemma_highest_ge_excl_congruent(s1, s2, n, e, r - 1);
    }
}

proof fn lemma_highest_eq2_congruent(s1: Seq<Card>, s2: Seq<Card>, e: int, r: int)
    requires
        forall|k: int| #[trigger] count_rank(s1, k) == count_rank(s2, k),
    ensures
        highest_eq2_excl_from(s1, e, r) == highest_eq2_excl_from(s2, e, r),
    decreases r + 1,
{
    if r >= 0 {
        lemma_highest_eq2_congruent(s1, s2, e, r - 1);
    }
}

proof fn lemma_count_suit_congruent(s1: Seq<Card>, s2: Seq<Card>, su: int, r: int)
    requires
        forall|k: int, l: int| #[trigger] count_rank_suit(s1, k, l) == count_rank_suit(s2, k, l),
    ensures
        count_suit_from(s1, su, r) == count_suit_from(s2, su, r),
    decreases r + 1,
{
    if r >= 0 {
        lemma_count_suit_congruent(s1, s2, su, r - 1);
    }
}

/// The strength value is a function of the card multiset alone:
/// evaluating the same set of cards always yields the same score,
/// whatever order the cards are listed in.
pub proof fn lemma_hand_value_depends_on_cards_only(s1: Seq<Card>, s2: Seq<Card>)
    requires
        forall|c: Card| #[trigger] card_count(s1, c) == card_count(s2, c),
    ensures
        hand_value_spec(s1) == hand_value_spec(s2),
{
    assert forall|k: int, l: int| #[trigger] count_rank_suit(s1, k, l) == count_rank_suit(
        s2,
        k,
        l,
    ) by {
        assert(card_count(s1, Card { rank: rank_of_idx(k), suit: suit_of_idx(l) }) == card_count(
            s2,
            Card { rank: rank_of_idx(k), suit: suit_of_idx(l) },
        ));
    }
    assert forall|k: int| #[trigger] count_rank(s1, k) == count_rank(s2, k) by {
        assert(count_rank_suit(s1, k, 0) == count_rank_suit(s2, k, 0));
        assert(count_rank_suit(s1, k, 1) == count_rank_suit(s2, k, 1));
        assert(count_rank_suit(s1, k, 2) == count_rank_suit(s2, k, 2));
        assert(count_rank_suit(s1, k, 3) == count_rank_suit(s2, k, 3));
    }
    assert(counts_of(s1) =~= counts_of(s2));
    assert forall|su: int| #[trigger] suit_counts_of(s1, su) == suit_counts_of(s2, su) by {
        assert(suit_counts_of(s1, su) =~= suit_counts_of(s2, su));
    }
    lemma_highest_ge_congruent(s1, s2, 4, 12);
    lemma_highest_ge_congruent(s1, s2, 3, 12);
    lemma_highest_ge_congruent(s1, s2, 2, 12);
    lemma_highest_ge_excl_congruent(s1, s2, 2, highest_rank_ge(s1, 3), 12);
    lemma_highest_eq2_congruent(s1, s2, 13, 12);
    lemma_highest_eq2_congruent(s1, s2, highest_eq2_excl_from(s1, 13, 12), 12);
    assert(straight_spec(s1) == straight_spec(s2));
    assert forall|su: int| 0 <= su < 4 implies sf_top_suit(s1, su) == sf_top_suit(s2, su) by {
        assert(suit_counts_of(s1, su) == suit_counts_of(s2, su));
    }
    assert(sf_best_from(s1, 4) == sf_best_from(s2, 4));
    assert(sf_best_from(s1, 3) == sf_best_from(s2, 3));
    assert(sf_best_from(s1, 2) == sf_best_from(s2, 2));
    assert(sf_best_from(s1, 1) == sf_best_from(s2, 1));
    assert(sf_best_from(s1, 0) == sf_best_from(s2, 0));
    assert forall|su: int| 0 <= su < 4 implies flush_val_suit(s1, su) == flush_val_suit(
        s2,
        su,
    ) by {
        lemma_count_suit_congruent(s1, s2, su, 12);
        assert(suit_counts_of(s1, su) == suit_counts_of(s2, su));
    }
    assert(flush_best_from(s1, 4) == flush_best_from(s2, 4));
    assert(flush_best_from(s1, 3) == flush_best_from(s2, 3));
    assert(flush_best_from(s1, 2) == flush_best_from(s2, 2));
    assert(flush_best_from(s1, 1) == flush_best_from(s2, 1));
    assert(flush_best_from(s1, 0) == flush_best_from(s2, 0));
    assert(quads_spec(s1) == quads_spec(s2));
    assert(full_house_spec(s1) == full_house_spec(s2));
    assert(set_spec(s1) == set_spec(s2));
    assert(two_pair_spec(s1) == two_pair_spec(s2));
    assert(pair_spec(s1) == pair_spec(s2));
    assert(high_card_spec(s1) == high_card_spec(s2));
}

} // verus!
