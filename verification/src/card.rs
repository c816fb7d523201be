//! The card model: suits, ranks, cards, and the deck with its deal cursor.

use vstd::prelude::*;

verus! {

/// One of the four suits. Suits are unordered; they matter only for
/// flush grouping and for telling the 52 cards apart.
#[derive(Clone, Copy, Debug, PartialEq, Eq, Structural)]
pub enum Suit {
    Heart,
    Diamond,
    Spade,
    Club,
}

/// A card rank, Two lowest through Ace highest. The numeric projection
/// used for scoring arithmetic is `rank_idx` (0 for Two .. 12 for Ace).
#[derive(Clone, Copy, Debug, PartialEq, Eq, Structural)]
pub enum Rank {
    Two,
    Three,
    Four,
    Five,
    Six,
    Seven,
    Eight,
    Nine,
    Ten,
    Jack,
    Queen,
    King,
    Ace,
}

/// The numeric projection of a rank: 0 for Two up to 12 for Ace.
pub open spec fn rank_idx(r: Rank) -> int {
    match r {
        Rank::Two => 0,
        Rank::Three => 1,
        Rank::Four => 2,
        Rank::Five => 3,
        Rank::Six => 4,
        Rank::Seven => 5,
        Rank::Eight => 6,
        Rank::Nine => 7,
        Rank::Ten => 8,
        Rank::Jack => 9,
        Rank::Queen => 10,
        Rank::King => 11,
        Rank::Ace => 12,
    }
}

/// The rank with a given numeric projection (0 through 12).
pub open spec fn rank_of_idx(i: int) -> Rank {
    if i == 0 {
        Rank::Two
    } else if i == 1 {
        Rank::Three
    } else if i == 2 {
        Rank::Four
    } else if i == 3 {
        Rank::Five
    } else if i == 4 {
        Rank::Six
    } else if i == 5 {
        Rank::Seven
    } else if i == 6 {
        Rank::Eight
    } else if i == 7 {
        Rank::Nine
    } else if i == 8 {
        Rank::Ten
    } else if i == 9 {
        Rank::Jack
    } else if i == 10 {
        Rank::Queen
    } else if i == 11 {
        Rank::King
    } else {
        Rank::Ace
    }
}

/// The numeric projection of a suit, 0 through 3.
pub open spec fn suit_idx(s: Suit) -> int {
    match s {
        Suit::Heart => 0,
        Suit::Diamond => 1,
        Suit::Spade => 2,
        Suit::Club => 3,
    }
}

/// The suit with a given numeric projection (0 through 3).
pub open spec fn suit_of_idx(i: int) -> Suit {
    if i == 0 {
        Suit::Heart
    } else if i == 1 {
        Suit::Diamond
    } else if i == 2 {
        Suit::Spade
    } else {
        Suit::Club
    }
}

impl Rank {
    /// The numeric projection of this rank as an executable value.
    pub fn index(self) -> (i: u8)
        ensures
            i == rank_idx(self),
    {
        match self {
            Rank::Two => 0,
            Rank::Three => 1,
            Rank::Four => 2,
            Rank::Five => 3,
            Rank::Six => 4,
            Rank::Seven => 5,
            Rank::Eight => 6,
            Rank::Nine => 7,
            Rank::Ten => 8,
            Rank::Jack => 9,
            Rank::Queen => 10,
            Rank::King => 11,
            Rank::Ace => 12,
        }
    }

    /// All thirteen ranks in ascending order.
    pub fn iterator() -> (v: Vec<Rank>)
        ensures
            v@.len() == 13,
            forall|i: int| 0 <= i < 13 ==> v@[i] == rank_of_idx(i),
    {
        let mut v: Vec<Rank> = Vec::new();
        v.push(Rank::Two);
        v.push(Rank::Three);
        v.push(Rank::Four);
        v.push(Rank::Five);
        v.push(Rank::Six);
        v.push(Rank::Seven);
        v.push(Rank::Eight);
        v.push(Rank::Nine);
        v.push(Rank::Ten);
        v.push(Rank::Jack);
        v.push(Rank::Queen);
        v.push(Rank::King);
        v.push(Rank::Ace);
        v
    }

    /// The rank whose numeric projection is `value`; a value outside
    /// the thirteen ranks yields an absent result rather than any
    /// sentinel rank.
    pub fn from_index(value: u8) -> (r: Option<Rank>)
        ensures
            value < 13 ==> r == Some(rank_of_idx(value as int)),
            value >= 13 ==> r is None,
    {
        if value < 13 {
            let ranks = Rank::iterator();
            Some(ranks[value as usize])
        } else {
            None
        }
    }
}

impl Suit {
    /// The numeric projection of this suit as an executable value.
    pub fn index(self) -> (i: u8)
        ensures
            i == suit_idx(self),
    {
        match self {
            Suit::Heart => 0,
            Suit::Diamond => 1,
            Suit::Spade => 2,
            Suit::Club => 3,
        }
    }

    /// All four suits in canonical order.
    pub fn iterator() -> (v: Vec<Suit>)
        ensures
            v@.len() == 4,
            forall|i: int| 0 <= i < 4 ==> v@[i] == suit_of_idx(i),
    {
        let mut v: Vec<Suit> = Vec::new();
        v.push(Suit::Heart);
        v.push(Suit::Diamond);
        v.push(Suit::Spade);
        v.push(Suit::Club);
        v
    }
}

/// An immutable card value: a rank and a suit, nothing more.
#[derive(Clone, Copy, Debug, PartialEq, Eq, Structural)]
pub struct Card {
    pub rank: Rank,
    pub suit: Suit,
}

/// How many cards of `s` are exactly the card `c`.
pub open spec fn card_count(s: Seq<Card>, c: Card) -> nat
    decreases s.len(),
{
    if s.len() == 0 {
        0
    } else {
        card_count(s.drop_last(), c) + (if s.last() == c {
            1nat
        } else {
            0nat
        })
    }
}

/// A full deck: 52 cards, each distinct (rank, suit) pair exactly once.
pub open spec fn deck_cards_wf(s: Seq<Card>) -> bool {
    s.len() == 52 && forall|c: Card| card_count(s, c) == 1
}

/// The card at position `i` of a canonically ordered deck:
/// rank-major, suit-minor.
pub open spec fn card_at_idx(i: int) -> Card {
    Card { rank: rank_of_idx(i / 4), suit: suit_of_idx(i % 4) }
}

/// The canonical deck position of a card.
pub open spec fn card_index(c: Card) -> int {
    4 * rank_idx(c.rank) + suit_idx(c.suit)
}

proof fn lemma_card_index_roundtrip(c: Card)
    ensures
        0 <= card_index(c) < 52,
        card_at_idx(card_index(c)) == c,
{
    let i = card_index(c);
    assert(i / 4 == rank_idx(c.rank) && i % 4 == suit_idx(c.suit));
}

proof fn lemma_canonical_prefix_count(s: Seq<Card>, c: Card, m: int)
    requires
        0 <= m <= s.len() <= 52,
        forall|i: int| 0 <= i < s.len() ==> s[i] == card_at_idx(i),
    ensures
        card_count(s.take(m), c) == if 0 <= card_index(c) < m {
            1int
        } else {
            0int
        },
    decreases m,
{
    lemma_card_index_roundtrip(c);
    if m == 0 {
        assert(s.take(0).len() == 0);
    } else {
        lemma_canonical_prefix_count(s, c, m - 1);
        assert(s.take(m).drop_last() =~= s.take(m - 1));
        assert(s.take(m).last() == s[m - 1]);
        if s[m - 1] == c {
            assert(card_index(c) == card_index(card_at_idx(m - 1)));
            assert(card_index(card_at_idx(m - 1)) == m - 1) by {
                assert(card_at_idx(m - 1).rank == rank_of_idx((m - 1) / 4));
                assert(rank_idx(rank_of_idx((m - 1) / 4)) == (m - 1) / 4);
                assert(suit_idx(suit_of_idx((m - 1) % 4)) == (m - 1) % 4);
            }
        }
    }
}

/// If a sequence holds a card at two different positions, that card is
/// counted at least twice.
proof fn lemma_count_two_positions(s: Seq<Card>, i: int, j: int)
    requires
        0 <= i < j < s.len(),
        s[i] == s[j],
    ensures
        card_count(s, s[i]) >= 2,
    decreases s.len(),
{
    if j == s.len() - 1 {
        lemma_count_one_position(s.drop_last(), i);
    } else {
        lemma_count_two_positions(s.drop_last(), i, j);
    }
}

proof fn lemma_count_one_position(s: Seq<Card>, i: int)
    requires
        0 <= i < s.len(),
    ensures
        card_count(s, s[i]) >= 1,
    decreases s.len(),
{
    if i < s.len() - 1 {
        lemma_count_one_position(s.drop_last(), i);
    }
}

/// Deck conservation: a full deck never shows the same card at two
/// different positions, so up to 52 successive deals repeat nothing.
pub proof fn lemma_deck_deals_distinct(s: Seq<Card>, i: int, j: int)
    requires
        deck_cards_wf(s),
        0 <= i < 52,
        0 <= j < 52,
        i != j,
    ensures
        s[i] != s[j],
{
    if i < j {
        if s[i] == s[j] {
            lemma_count_two_positions(s, i, j);
        }
    } else {
        if s[i] == s[j] {
            lemma_count_two_positions(s, j, i);
        }
    }
}

/// Deck conservation under the wraparound deal: starting anywhere in a
/// full deck, any two draws fewer than 52 apart yield different cards,
/// even though the cursor wraps past the end of the deck.
pub proof fn lemma_deals_in_window_distinct(s: Seq<Card>, c0: int, i: int, j: int)
    requires
        deck_cards_wf(s),
        0 <= c0 < 52,
        0 <= i < j,
        j - i < 52,
    ensures
        s[(c0 + i) % 52] != s[(c0 + j) % 52],
{
    let a = (c0 + i) % 52;
    let d = j - i;
    vstd::arithmetic::div_mod::lemma_mod_bound(c0 + i, 52);
    vstd::arithmetic::div_mod::lemma_mod_bound(c0 + j, 52);
    assert((c0 + j) % 52 == (a + d) % 52) by {
        vstd::arithmetic::div_mod::lemma_add_mod_noop(c0 + i, d, 52);
        vstd::arithmetic::div_mod::lemma_small_mod(d as nat, 52);
    }
    if a + d < 52 {
        vstd::arithmetic::div_mod::lemma_small_mod((a + d) as nat, 52);
        lemma_deck_deals_distinct(s, a, a + d);
    } else {
        assert((a + d) % 52 == a + d - 52) by {
            vstd::arithmetic::div_mod::lemma_mod_add_multiples_vanish(a + d - 52, 52);
            vstd::arithmetic::div_mod::lemma_small_mod((a + d - 52) as nat, 52);
        }
        lemma_deck_deals_distinct(s, a, a + d - 52);
    }
}

#[verifier::external_type_specification]
#[verifier::external_body]
pub struct ExThreadRng(rand::rngs::ThreadRng);

/// Relies on rand::rng: a handle to the thread-local random generator.
/// Nothing can be promised of it; it can abort the process if the
/// operating system's entropy source fails at its first use.
#[verifier::external_body]
fn thread_rng_handle() -> rand::rngs::ThreadRng {
    rand::rng()
}

/// Relies on rand::seq::SliceRandom::shuffle: an in-place Fisher-Yates
/// permutation built from swaps, so the slice afterwards holds the same
/// cards, each the same number of times, in some order.
#[verifier::external_body]
fn shuffle_cards(cards: &mut Vec<Card>, rng: &mut rand::rngs::ThreadRng)
    ensures
        final(cards)@.len() == old(cards)@.len(),
        forall|c: Card| card_count(final(cards)@, c) == card_count(old(cards)@, c),
{
    rand::seq::SliceRandom::shuffle(cards.as_mut_slice(), rng);
}

/// An ordered deck of the 52 distinct cards with a cursor marking the
/// next card to deal. Dealing wraps around at the end of the deck and
/// re-issues cards; `lemma_deck_deals_distinct` covers the first 52
/// draws, and callers that need fresh cards shuffle between hands.
#[derive(Debug)]
pub struct Deck {
    cards: Vec<Card>,
    current_deal: usize,
}

impl Deck {
    /// The deck's card sequence, for specifications.
    pub closed spec fn cards_view(&self) -> Seq<Card> {
        self.cards@
    }

    /// The position of the next card to deal, for specifications.
    pub closed spec fn cursor(&self) -> int {
        self.current_deal as int
    }

    /// A well-formed deck: all 52 distinct cards, cursor in range.
    pub open spec fn wf(&self) -> bool {
        deck_cards_wf(self.cards_view()) && 0 <= self.cursor() < 52
    }

    /// A fresh deck in canonical rank-major, suit-minor order, with the
    /// cursor at the first card.
    pub fn new() -> (d: Deck)
        ensures
            d.wf(),
            d.cursor() == 0,
            forall|i: int| 0 <= i < 52 ==> d.cards_view()[i] == card_at_idx(i),
    {
        let ranks = Rank::iterator();
        let suits = Suit::iterator();
        let mut cards: Vec<Card> = Vec::new();
        for r in 0..13
            invariant
                ranks@.len() == 13,
                suits@.len() == 4,
                forall|i: int| 0 <= i < 13 ==> ranks@[i] == rank_of_idx(i),
                forall|i: int| 0 <= i < 4 ==> suits@[i] == suit_of_idx(i),
                cards@.len() == 4 * (r as int),
                forall|i: int| 0 <= i < cards@.len() ==> cards@[i] == card_at_idx(i),
        {
            for s in 0..4
                invariant
                    r < 13,
                    ranks@.len() == 13,
                    suits@.len() == 4,
                    forall|i: int| 0 <= i < 13 ==> ranks@[i] == rank_of_idx(i),
                    forall|i: int| 0 <= i < 4 ==> suits@[i] == suit_of_idx(i),
                    cards@.len() == 4 * (r as int) + (s as int),
                    forall|i: int| 0 <= i < cards@.len() ==> cards@[i] == card_at_idx(i),
            {
                let card = Card { rank: ranks[r], suit: suits[s] };
                proof {
                    let i: int = 4 * (r as int) + (s as int);
                    assert(i / 4 == r as int && i % 4 == s as int);
                }
                cards.push(card);
            }
        }
        let d = Deck { cards, current_deal: 0 };
        proof {
            assert forall|c: Card| card_count(d.cards_view(), c) == 1 by {
                lemma_card_index_roundtrip(c);
                lemma_canonical_prefix_count(d.cards_view(), c, 52);
                assert(d.cards_view().take(52) =~= d.cards_view());
            }
        }
        d
    }

    /// Randomly permute the cards and reset the cursor to the top.
    pub fn shuffle(&mut self)
        requires
            old(self).wf(),
        ensures
            final(self).wf(),
            final(self).cursor() == 0,
            final(self).cards_view().len() == 52,
            forall|c: Card|
                card_count(final(self).cards_view(), c) == card_count(old(self).cards_view(), c),
    {
        let mut rng = thread_rng_handle();
        shuffle_cards(&mut self.cards, &mut rng);
        self.current_deal = 0;
    }

    /// Deal the card under the cursor and advance the cursor, wrapping
    /// past the last card back to the first (so draws beyond 52 re-issue
    /// already-dealt cards; see the type's documentation).
    pub fn get_next(&mut self) -> (c: Card)
        requires
            old(self).wf(),
        ensures
            final(self).wf(),
            final(self).cards_view() == old(self).cards_view(),
            c == old(self).cards_view()[old(self).cursor()],
            final(self).cursor() == (old(self).cursor() + 1) % 52,
    {
        let c = self.cards[self.current_deal];
        self.current_deal = (self.current_deal + 1) % 52;
        c
    }
}

} // verus!
