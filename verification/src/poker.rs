//! The betting-round state machine and the game engine: blinds,
//! sequential player action, pot/stack accounting, dealing, showdown
//! and pot distribution over a fixed-length session.

use vstd::prelude::*;

use crate::card::{Card, Deck};
use crate::game::{GameEngine, GamePlayer};
use crate::hand_utils::{get_hand_value, hand_value_spec};

verus! {

/// A player's declared action for one turn.
#[derive(Clone, Copy, Debug, PartialEq, Eq, Structural)]
pub enum PokerAction {
    Call,
    Raise(u64),
    Check,
    Fold,
}

/// The shared table state: pot, per-seat stacks, community and hole
/// cards, each seat's most recent action this hand, and the amount a
/// seat must match to stay in. Seats are indexed 0 to seat count - 1.
pub struct PokerState {
    pub pot: u64,
    pub player_stacks: Vec<u64>,
    pub community_cards: Vec<Card>,
    pub player_cards: Vec<Option<(Card, Card)>>,
    pub last_action: Vec<Option<PokerAction>>,
    pub required_call: u64,
}

/// The total of a sequence of chip stacks.
pub open spec fn sum_stacks(s: Seq<u64>) -> int
    decreases s.len(),
{
    if s.len() == 0 {
        0
    } else {
        sum_stacks(s.drop_last()) + s.last()
    }
}

/// The chips on the table: the pot plus every seat's stack.
pub open spec fn total_chips(st: PokerState) -> int {
    st.pot + sum_stacks(st.player_stacks@)
}

/// A structurally sound table of `n` seats whose chips fit the machine.
pub open spec fn state_wf(st: PokerState, n: int) -> bool {
    &&& st.player_stacks@.len() == n
    &&& st.player_cards@.len() == n
    &&& st.last_action@.len() == n
    &&& total_chips(st) <= u64::MAX
}

proof fn lemma_sum_nonneg(s: Seq<u64>)
    ensures
        sum_stacks(s) >= 0,
    decreases s.len(),
{
    if s.len() > 0 {
        lemma_sum_nonneg(s.drop_last());
    }
}

proof fn lemma_sum_push(s: Seq<u64>, v: u64)
    ensures
        sum_stacks(s.push(v)) == sum_stacks(s) + v,
{
    assert(s.push(v).drop_last() =~= s);
}

proof fn lemma_sum_update(s: Seq<u64>, i: int, v: u64)
    requires
        0 <= i < s.len(),
    ensures
        sum_stacks(s.update(i, v)) == sum_stacks(s) - s[i] + v,
    decreases s.len(),
{
    if i == s.len() - 1 {
        assert(s.update(i, v).drop_last() =~= s.drop_last());
        assert(s.update(i, v).last() == v);
    } else {
        assert(s.update(i, v).drop_last() =~= s.drop_last().update(i, v));
        assert(s.update(i, v).last() == s.last());
        lemma_sum_update(s.drop_last(), i, v);
        assert(s.drop_last()[i] == s[i]);
    }
}

proof fn lemma_elem_le_sum(s: Seq<u64>, i: int)
    requires
        0 <= i < s.len(),
    ensures
        s[i] <= sum_stacks(s),
    decreases s.len(),
{
    lemma_sum_nonneg(s.drop_last());
    if i == s.len() - 1 {
    } else {
        lemma_elem_le_sum(s.drop_last(), i);
        assert(s.drop_last()[i] == s[i]);
    }
}

fn copy_u64_vec(v: &Vec<u64>) -> (r: Vec<u64>)
    ensures
        r@ == v@,
{
    let mut r: Vec<u64> = Vec::new();
    for i in 0..v.len()
        invariant
            r@ == v@.take(i as int),
    {
        r.push(v[i]);
        proof {
            assert(v@.take(i + 1) =~= v@.take(i as int).push(v@[i as int]));
        }
    }
    proof {
        assert(v@.take(v@.len() as int) =~= v@);
    }
    r
}

fn copy_card_vec(v: &Vec<Card>) -> (r: Vec<Card>)
    ensures
        r@ == v@,
{
    let mut r: Vec<Card> = Vec::new();
    for i in 0..v.len()
        invariant
            r@ == v@.take(i as int),
    {
        r.push(v[i]);
        proof {
            assert(v@.take(i + 1) =~= v@.take(i as int).push(v@[i as int]));
        }
    }
    proof {
        assert(v@.take(v@.len() as int) =~= v@);
    }
    r
}

fn copy_action_vec(v: &Vec<Option<PokerAction>>) -> (r: Vec<Option<PokerAction>>)
    ensures
        r@ == v@,
{
    let mut r: Vec<Option<PokerAction>> = Vec::new();
    for i in 0..v.len()
        invariant
            r@ == v@.take(i as int),
    {
        r.push(v[i]);
        proof {
            assert(v@.take(i + 1) =~= v@.take(i as int).push(v@[i as int]));
        }
    }
    proof {
        assert(v@.take(v@.len() as int) =~= v@);
    }
    r
}

/// The hole cards of `v` with every seat but `keep` redacted: the
/// restricted view a player is allowed to see.
fn redacted_hole_cards(v: &Vec<Option<(Card, Card)>>, keep: usize) -> (r: Vec<
    Option<(Card, Card)>,
>)
    requires
        keep < v@.len(),
    ensures
        r@.len() == v@.len(),
        r@[keep as int] == v@[keep as int],
        forall|i: int| 0 <= i < v@.len() && i != keep ==> r@[i] is None,
{
    let mut r: Vec<Option<(Card, Card)>> = Vec::new();
    for i in 0..v.len()
        invariant
            keep < v@.len(),
            r@.len() == i,
            forall|j: int| 0 <= j < i && j != keep ==> r@[j] is None,
            i > keep ==> r@[keep as int] == v@[keep as int],
    {
        if i == keep {
            r.push(v[i]);
        } else {
            r.push(None);
        }
    }
    r
}

/// The action actually applied for a seat that declared `a` while
/// owing `rc` to call and holding `stack` chips: a legal, fundable
/// action passes unchanged; an illegal or unfundable one is degraded
/// to Fold where a call is owed and to Check otherwise.
pub open spec fn resolve_action_spec(a: PokerAction, rc: u64, stack: u64) -> PokerAction {
    if rc > 0 {
        match a {
            PokerAction::Call => PokerAction::Call,
            PokerAction::Fold => PokerAction::Fold,
            PokerAction::Raise(amt) => if 1 <= amt && rc + amt <= stack {
                PokerAction::Raise(amt)
            } else {
                PokerAction::Fold
            },
            PokerAction::Check => PokerAction::Fold,
        }
    } else {
        match a {
            PokerAction::Check => PokerAction::Check,
            PokerAction::Raise(amt) => if 1 <= amt && amt <= stack {
                PokerAction::Raise(amt)
            } else {
                PokerAction::Check
            },
            PokerAction::Call => PokerAction::Check,
            PokerAction::Fold => PokerAction::Check,
        }
    }
}

/// Apply the action-degradation rule: see `resolve_action_spec`.
pub fn resolve_action(a: PokerAction, rc: u64, stack: u64) -> (eff: PokerAction)
    ensures
        eff == resolve_action_spec(a, rc, stack),
{
    if rc > 0 {
        match a {
            PokerAction::Call => PokerAction::Call,
            PokerAction::Fold => PokerAction::Fold,
            PokerAction::Raise(amt) => {
                if 1 <= amt && rc <= stack && amt <= stack - rc {
                    PokerAction::Raise(amt)
                } else {
                    PokerAction::Fold
                }
            },
            PokerAction::Check => PokerAction::Fold,
        }
    } else {
        match a {
            PokerAction::Check => PokerAction::Check,
            PokerAction::Raise(amt) => {
                if 1 <= amt && amt <= stack {
                    PokerAction::Raise(amt)
                } else {
                    PokerAction::Check
                }
            },
            PokerAction::Call => PokerAction::Check,
            PokerAction::Fold => PokerAction::Check,
        }
    }
}

/// A seat eligible to win at showdown: it has not folded and it holds
/// hole cards.
pub open spec fn eligible(st: PokerState, i: int) -> bool {
    st.last_action@[i] != Some(PokerAction::Fold) && st.player_cards@[i] is Some
}

/// The seven-card showdown hand of seat `i`: both hole cards followed
/// by the community cards.
pub open spec fn seat_hand(st: PokerState, i: int) -> Seq<Card> {
    seq![(st.player_cards@[i]->0).0, (st.player_cards@[i]->0).1] + st.community_cards@
}

/// The showdown strength of seat `i`'s hand.
pub open spec fn seat_score(st: PokerState, i: int) -> int {
    hand_value_spec(seat_hand(st, i))
}

/// Whether seat `i` is listed among `winners`.
pub open spec fn winner_seat(winners: Seq<usize>, i: int) -> bool {
    exists|j: int| 0 <= j < winners.len() && winners[j] == i
}

/// The showdown: the seats, in ascending order, whose hands maximize
/// the evaluator's strength among all eligible (non-folded, dealt-in)
/// seats. Folded seats are never scored. The list is empty exactly
/// when no seat is eligible.
pub fn showdown_winners(state: &PokerState) -> (winners: Vec<usize>)
    requires
        state.last_action@.len() == state.player_cards@.len(),
    ensures
        forall|j: int|
            0 <= j < winners@.len() ==> winners@[j] < state.player_cards@.len() && eligible(
                *state,
                winners@[j] as int,
            ),
        forall|j1: int, j2: int| 0 <= j1 < j2 < winners@.len() ==> winners@[j1] < winners@[j2],
        (winners@.len() == 0) <==> (forall|i: int|
            0 <= i < state.player_cards@.len() ==> !eligible(*state, i)),
        forall|j: int|
            0 <= j < winners@.len() ==> seat_score(*state, #[trigger] winners@[j] as int)
                == seat_score(*state, winners@[0] as int),
        forall|i: int|
            0 <= i < state.player_cards@.len() && winners@.len() > 0 && eligible(*state, i)
                ==> seat_score(*state, i) <= seat_score(*state, winners@[0] as int),
        forall|i: int|
            0 <= i < state.player_cards@.len() && winners@.len() > 0 && eligible(*state, i)
                && seat_score(*state, i) == seat_score(*state, winners@[0] as int) ==> winner_seat(
                winners@,
                i,
            ),
{
    let n = state.player_cards.len();
    let mut winners: Vec<usize> = Vec::new();
    let mut best: u64 = 0;
    for i in 0..n
        invariant
            n == state.player_cards@.len(),
            state.last_action@.len() == n,
            forall|j: int|
                0 <= j < winners@.len() ==> winners@[j] < i && eligible(
                    *state,
                    winners@[j] as int,
                ),
            forall|j1: int, j2: int| 0 <= j1 < j2 < winners@.len() ==> winners@[j1] < winners@[j2],
            (winners@.len() == 0) <==> (forall|k: int| 0 <= k < i ==> !eligible(*state, k)),
            winners@.len() > 0 ==> best == seat_score(*state, winners@[0] as int),
            forall|j: int|
                0 <= j < winners@.len() ==> seat_score(*state, #[trigger] winners@[j] as int)
                    == best,
            forall|k: int|
                0 <= k < i && winners@.len() > 0 && eligible(*state, k) ==> seat_score(*state, k)
                    <= best,
            forall|k: int|
                0 <= k < i && winners@.len() > 0 && eligible(*state, k) && seat_score(*state, k)
                    == best ==> winner_seat(winners@, k),
    {
        let folded = match state.last_action[i] {
            Some(PokerAction::Fold) => true,
            _ => false,
        };
        if folded {
            proof {
                assert(!eligible(*state, i as int));
            }
        } else {
            match state.player_cards[i] {
                Some((c1, c2)) => {
                    let mut hand: Vec<Card> = Vec::new();
                    hand.push(c1);
                    hand.push(c2);
                    for j in 0..state.community_cards.len()
                        invariant
                            hand@ == seq![c1, c2] + state.community_cards@.take(j as int),
                    {
                        hand.push(state.community_cards[j]);
                        proof {
                            assert(state.community_cards@.take(j + 1)
                                =~= state.community_cards@.take(j as int).push(
                                state.community_cards@[j as int],
                            ));
                            assert(hand@ =~= seq![c1, c2] + state.community_cards@.take(j + 1));
                        }
                    }
                    proof {
                        assert(state.community_cards@.take(state.community_cards@.len() as int)
                            =~= state.community_cards@);
                        assert(hand@ =~= seat_hand(*state, i as int));
                        assert(eligible(*state, i as int));
                    }
                    let v = get_hand_value(&hand);
                    proof {
                        assert(v == seat_score(*state, i as int));
                    }
                    if winners.len() == 0 || v > best {
                        winners = Vec::new();
                        winners.push(i);
                        best = v;
                        proof {
                            assert(winners@[0] == i);
                            assert(winner_seat(winners@, i as int));
                        }
                    } else if v == best {
                        let ghost oldw = winners@;
                        winners.push(i);
                        proof {
                            assert(winners@[winners@.len() - 1] == i);
                            assert(winner_seat(winners@, i as int));
                            assert forall|k: int| winner_seat(oldw, k) implies winner_seat(
                                winners@,
                                k,
                            ) by {
                                let j = choose|j: int| 0 <= j < oldw.len() && oldw[j] == k;
                                assert(winners@[j] == k);
                            }
                        }
                    }
                },
                None => {
                    proof {
                        assert(!eligible(*state, i as int));
                    }
                },
            }
        }
    }
    winners
}

/// The stack each seat is given at the start of a session.
pub const STARTING_STACK: u64 = 200;

/// The forced contribution of the seat opening a hand.
pub const SMALL_BLIND: u64 = 1;

/// The forced contribution of the seat after it, which sets the
/// amount to call before the first voluntary action.
pub const BIG_BLIND: u64 = 2;

/// A forced contribution capped at what the seat can pay.
pub open spec fn capped(amount: u64, stack: u64) -> int {
    if amount <= stack {
        amount as int
    } else {
        stack as int
    }
}

/// The seat after `i`, wrapping at `n`.
pub open spec fn next_seat(i: int, n: int) -> int {
    if i + 1 == n {
        0
    } else {
        i + 1
    }
}

proof fn lemma_mod_step(x: int, m: int)
    requires
        0 <= x,
        2 <= m,
    ensures
        (x % m + 1) % m == (x + 1) % m,
{
    vstd::arithmetic::div_mod::lemma_add_mod_noop(x, 1, m);
    vstd::arithmetic::div_mod::lemma_small_mod(1nat, m as nat);
}

proof fn lemma_wrap_is_mod(cur: int, m: int)
    requires
        0 <= cur < m,
        2 <= m,
    ensures
        (if cur + 1 == m {
            0int
        } else {
            cur + 1
        }) == (cur + 1) % m,
{
    if cur + 1 == m {
        vstd::arithmetic::div_mod::lemma_mod_self_0(m);
    } else {
        vstd::arithmetic::div_mod::lemma_small_mod((cur + 1) as nat, m as nat);
    }
}

/// The seat `i` places after `sp` in seat order, wrapping at `n`.
pub open spec fn seat_at(sp: int, i: int, n: int) -> int {
    (sp + i) % n
}

proof fn lemma_seat_at_dist(sp: int, i: int, n: int)
    requires
        0 <= sp < n,
        0 <= i < n,
        2 <= n,
    ensures
        0 <= seat_at(sp, i, n) < n,
        seat_dist(sp, seat_at(sp, i, n), n) == i,
{
    if sp + i < n {
        vstd::arithmetic::div_mod::lemma_small_mod((sp + i) as nat, n as nat);
    } else {
        vstd::arithmetic::div_mod::lemma_mod_add_multiples_vanish(sp + i - n, n);
        vstd::arithmetic::div_mod::lemma_small_mod((sp + i - n) as nat, n as nat);
    }
}

/// The number of steps from seat `a` forward, wrapping at `n`, to
/// seat `b`.
pub open spec fn seat_dist(a: int, b: int, n: int) -> int {
    if b >= a {
        b - a
    } else {
        b - a + n
    }
}

/// The engine: owns the table state, the deck and the players, and
/// remembers which seat opens the next hand.
pub struct PokerEngine<P> {
    state: PokerState,
    deck: Deck,
    players: Vec<P>,
    starting_player: usize,
}

impl<P> PokerEngine<P> {
    /// The table state, for specifications.
    pub closed spec fn spec_state(&self) -> PokerState {
        self.state
    }

    /// The deck, for specifications.
    pub closed spec fn spec_deck(&self) -> Deck {
        self.deck
    }

    /// The number of seats, for specifications.
    pub closed spec fn seat_count(&self) -> int {
        self.players@.len() as int
    }

    /// The seat that opens the next hand, for specifications.
    pub closed spec fn spec_starting(&self) -> int {
        self.starting_player as int
    }

    /// A well-formed engine: a sound table of at least two seats, an
    /// opening seat in range, and a full deck.
    pub open spec fn wf(&self) -> bool {
        &&& state_wf(self.spec_state(), self.seat_count())
        &&& 2 <= self.seat_count()
        &&& 0 <= self.spec_starting() < self.seat_count()
        &&& self.spec_deck().wf()
    }

    /// The current pot.
    pub fn pot(&self) -> (p: u64)
        ensures
            p == self.spec_state().pot,
    {
        self.state.pot
    }

    /// The remaining stack of seat `i`.
    pub fn stack_of(&self, i: usize) -> (s: u64)
        requires
            i < self.spec_state().player_stacks@.len(),
        ensures
            s == self.spec_state().player_stacks@[i as int],
    {
        self.state.player_stacks[i]
    }

    /// The seat that opens the next hand.
    pub fn opening_seat(&self) -> (s: usize)
        ensures
            s == self.spec_starting(),
    {
        self.starting_player
    }

    /// The most recent action of seat `i` this hand, if it has acted.
    pub fn last_action_of(&self, i: usize) -> (a: Option<PokerAction>)
        requires
            i < self.spec_state().last_action@.len(),
        ensures
            a == self.spec_state().last_action@[i as int],
    {
        self.state.last_action[i]
    }
}

impl<P: GamePlayer<PokerState, PokerAction>> PokerEngine<P> {
    /// A fresh engine over the given players: every seat starts with
    /// 200 chips, the pot is empty, no cards are out, and seat 0 opens.
    pub fn new(players: Vec<P>) -> (e: PokerEngine<P>)
        requires
            2 <= players@.len(),
            STARTING_STACK * players@.len() <= u64::MAX,
        ensures
            e.wf(),
            e.seat_count() == players@.len(),
            e.spec_starting() == 0,
            e.spec_deck().cursor() == 0,
            forall|i: int|
                0 <= i < 52 ==> e.spec_deck().cards_view()[i] == crate::card::card_at_idx(i),
            e.spec_state().pot == 0,
            e.spec_state().required_call == 0,
            e.spec_state().community_cards@.len() == 0,
            forall|i: int|
                0 <= i < players@.len() ==> e.spec_state().player_stacks@[i] == STARTING_STACK
                    && e.spec_state().player_cards@[i] is None
                    && e.spec_state().last_action@[i] is None,
            sum_stacks(e.spec_state().player_stacks@) == STARTING_STACK * players@.len(),
    {
        let n = players.len();
        let mut stacks: Vec<u64> = Vec::new();
        let mut cards: Vec<Option<(Card, Card)>> = Vec::new();
        let mut actions: Vec<Option<PokerAction>> = Vec::new();
        for i in 0..n
            invariant
                stacks@.len() == i,
                cards@.len() == i,
                actions@.len() == i,
                forall|j: int| 0 <= j < i ==> stacks@[j] == STARTING_STACK,
                forall|j: int| 0 <= j < i ==> cards@[j] is None,
                forall|j: int| 0 <= j < i ==> actions@[j] is None,
                sum_stacks(stacks@) == STARTING_STACK * i,
        {
            proof {
                lemma_sum_push(stacks@, STARTING_STACK);
            }
            stacks.push(STARTING_STACK);
            cards.push(None);
            actions.push(None);
            proof {
                assert(stacks@[i as int] == STARTING_STACK);
                assert(cards@[i as int] is None);
                assert(actions@[i as int] is None);
            }
        }
        PokerEngine {
            state: PokerState {
                pot: 0,
                player_stacks: stacks,
                community_cards: Vec::new(),
                player_cards: cards,
                last_action: actions,
                required_call: 0,
            },
            deck: Deck::new(),
            players,
            starting_player: 0,
        }
    }

    /// Run one street of betting to completion: post the blinds where
    /// no community cards are out yet, walk the seats from the opening
    /// point applying each non-folded seat's resolved action, and when
    /// the action closes move every seat's commitment from its stack
    /// into the pot. Terminates because each raise strictly increases
    /// the amount owed, which the raiser's own stack bounds, and
    /// between raises the action strictly approaches its closing seat.
    pub fn get_betting_action(&mut self)
        requires
            old(self).wf(),
        ensures
            final(self).wf(),
            final(self).seat_count() == old(self).seat_count(),
            final(self).spec_starting() == old(self).spec_starting(),
            final(self).spec_deck() == old(self).spec_deck(),
            final(self).spec_state().community_cards == old(self).spec_state().community_cards,
            final(self).spec_state().player_cards == old(self).spec_state().player_cards,
            total_chips(final(self).spec_state()) == total_chips(old(self).spec_state()),
            final(self).spec_state().pot >= old(self).spec_state().pot,
            forall|i: int|
                0 <= i < old(self).seat_count() ==> final(self).spec_state().player_stacks@[i]
                    <= old(self).spec_state().player_stacks@[i],
            old(self).spec_state().community_cards@.len() > 0 ==> (forall|i: int|
                0 <= i < old(self).seat_count() && old(self).spec_state().last_action@[i] == Some(
                    PokerAction::Fold,
                ) ==> final(self).spec_state().last_action@[i] == Some(PokerAction::Fold)),
            forall|i: int|
                0 <= i < old(self).seat_count() ==> final(self).spec_state().last_action@[i]
                    is Some,
            old(self).spec_state().community_cards@.len() > 0 ==> (forall|i: int|
                0 <= i < old(self).seat_count() && old(self).spec_state().last_action@[i] == Some(
                    PokerAction::Fold,
                ) ==> final(self).spec_state().player_stacks@[i] == old(
                    self,
                ).spec_state().player_stacks@[i]),
            forall|i: int|
                0 <= i < old(self).seat_count() && final(self).spec_state().last_action@[i]
                    == Some(PokerAction::Check) ==> final(self).spec_state().player_stacks@[i]
                    == old(self).spec_state().player_stacks@[i],
            old(self).spec_state().community_cards@.len() == 0
                ==> (final(self).spec_state().required_call >= BIG_BLIND),
            old(self).spec_state().community_cards@.len() == 0 ==> (final(self).spec_state().pot
                >= old(self).spec_state().pot + capped(
                SMALL_BLIND,
                old(self).spec_state().player_stacks@[old(self).spec_starting()],
            ) + capped(
                BIG_BLIND,
                old(self).spec_state().player_stacks@[next_seat(
                    old(self).spec_starting(),
                    old(self).seat_count(),
                )],
            )),
    {
        let n = self.players.len();
        let ghost preflop0 = self.state.community_cards@.len() == 0;
        let ghost sb_g = self.starting_player as int;
        let ghost bb_g = next_seat(sb_g, n as int);
        let ghost stacks0 = self.state.player_stacks@;
        let ghost total0 = sum_stacks(self.state.player_stacks@);
        proof {
            lemma_sum_nonneg(stacks0);
        }
        self.state.required_call = 0;
        let mut commit: Vec<u64> = Vec::new();
        for _i in 0..n
            invariant
                commit@.len() == _i,
                forall|j: int| 0 <= j < _i ==> commit@[j] == 0,
        {
            commit.push(0);
        }
        let mut current: usize = self.starting_player;
        let mut last_aggressor: usize = self.starting_player;
        let mut first_lap: bool = true;
        if self.state.community_cards.len() == 0 {
            // Blind posting: the opening seat owes the small blind, the
            // next seat the big blind; both are recorded as the forced
            // raise that establishes the amount to call.
            let sb = current;
            let sb_stack = self.state.player_stacks[sb];
            commit.set(sb, if SMALL_BLIND <= sb_stack {
                SMALL_BLIND
            } else {
                sb_stack
            });
            self.state.last_action.set(sb, Some(PokerAction::Raise(1)));
            current = if current + 1 == n {
                0
            } else {
                current + 1
            };
            let bb = current;
            let bb_stack = self.state.player_stacks[bb];
            commit.set(bb, if BIG_BLIND <= bb_stack {
                BIG_BLIND
            } else {
                bb_stack
            });
            self.state.last_action.set(bb, Some(PokerAction::Raise(1)));
            current = if current + 1 == n {
                0
            } else {
                current + 1
            };
            self.state.required_call = BIG_BLIND;
            last_aggressor = bb;
            first_lap = false;
        }
        while current != last_aggressor || first_lap
            invariant
                self.players@.len() == n,
                2 <= n,
                current < n,
                last_aggressor < n,
                commit@.len() == n,
                self.state.player_stacks@ == stacks0,
                self.state.player_stacks@.len() == n,
                self.state.last_action@.len() == n,
                self.state.player_cards@.len() == n,
                self.state.pot == old(self).spec_state().pot,
                self.state.community_cards == old(self).spec_state().community_cards,
                self.state.player_cards == old(self).spec_state().player_cards,
                self.deck == old(self).spec_deck(),
                self.starting_player == old(self).spec_starting(),
                self.state.pot + total0 <= u64::MAX,
                total0 == sum_stacks(self.state.player_stacks@),
                forall|j: int| 0 <= j < n ==> commit@[j] <= self.state.player_stacks@[j],
                self.state.required_call <= total0 + BIG_BLIND,
                0 <= sb_g < n,
                0 <= bb_g < n,
                sb_g != bb_g,
                stacks0.len() == n,
                preflop0 ==> self.state.required_call >= BIG_BLIND,
                preflop0 ==> commit@[sb_g] >= capped(SMALL_BLIND, stacks0[sb_g]),
                preflop0 ==> commit@[bb_g] >= capped(BIG_BLIND, stacks0[bb_g]),
                preflop0 <==> old(self).spec_state().community_cards@.len() == 0,
                self.state.required_call == 0 ==> (forall|j: int| 0 <= j < n ==> commit@[j] == 0),
                forall|i: int|
                    0 <= i < n && self.state.last_action@[i] == Some(PokerAction::Check)
                        ==> commit@[i] == 0,
                !preflop0 ==> (forall|i: int|
                    0 <= i < n && old(self).spec_state().last_action@[i] == Some(PokerAction::Fold)
                        ==> commit@[i] == 0),
                old(self).spec_state().community_cards@.len() > 0 ==> (forall|i: int|
                    0 <= i < n && old(self).spec_state().last_action@[i] == Some(PokerAction::Fold)
                        ==> self.state.last_action@[i] == Some(PokerAction::Fold)),
                forall|i: int|
                    0 <= i < n && old(self).spec_state().last_action@[i] is Some
                        ==> self.state.last_action@[i] is Some,
                forall|i: int|
                    0 <= i < n && self.state.last_action@[i] is None ==> seat_dist(
                        current as int,
                        i,
                        n as int,
                    ) < (if first_lap {
                        n as int
                    } else {
                        seat_dist(current as int, last_aggressor as int, n as int)
                    }),
            decreases
                    total0 + BIG_BLIND - self.state.required_call,
                    (if first_lap {
                        1int
                    } else {
                        0int
                    }),
                    seat_dist(current as int, last_aggressor as int, n as int),
        {
            let ghost cur0 = current as int;
            let ghost flag0 = first_lap;
            if current == last_aggressor {
                first_lap = false;
            }
            let seat = current;
            let acted = self.state.last_action[seat];
            let folded = match acted {
                Some(PokerAction::Fold) => true,
                _ => false,
            };
            if !folded {
                let mut actions: Vec<PokerAction> = Vec::new();
                if self.state.required_call > 0 {
                    actions.push(PokerAction::Fold);
                    actions.push(PokerAction::Call);
                    actions.push(PokerAction::Raise(0));
                } else {
                    actions.push(PokerAction::Check);
                    actions.push(PokerAction::Raise(0));
                }
                let view = PokerState {
                    pot: self.state.pot,
                    player_stacks: copy_u64_vec(&self.state.player_stacks),
                    community_cards: copy_card_vec(&self.state.community_cards),
                    player_cards: redacted_hole_cards(&self.state.player_cards, seat),
                    last_action: copy_action_vec(&self.state.last_action),
                    required_call: self.state.required_call,
                };
                let player = &self.players[seat];
                let act = player.get_action(&view, &actions);
                let stack = self.state.player_stacks[seat];
                let eff = resolve_action(act, self.state.required_call, stack);
                proof {
                    lemma_elem_le_sum(self.state.player_stacks@, seat as int);
                }
                match eff {
                    PokerAction::Call => {
                        let rc = self.state.required_call;
                        commit.set(seat, if rc <= stack {
                            rc
                        } else {
                            stack
                        });
                    },
                    PokerAction::Raise(amt) => {
                        let new_rc = self.state.required_call + amt;
                        self.state.required_call = new_rc;
                        commit.set(seat, new_rc);
                        last_aggressor = seat;
                    },
                    _ => {},
                }
                self.state.last_action.set(seat, Some(eff));
            }
            proof {
                let nn = n as int;
                let agg = last_aggressor as int;
                let next: int = if cur0 + 1 == nn {
                    0
                } else {
                    cur0 + 1
                };
                assert(self.state.last_action@[cur0] is Some);
                assert forall|i: int|
                    0 <= i < nn && self.state.last_action@[i] is None implies seat_dist(
                    next,
                    i,
                    nn,
                ) < (if first_lap {
                    nn
                } else {
                    seat_dist(next, agg, nn)
                }) by {
                    assert(i != cur0);
                    assert(seat_dist(next, i, nn) == seat_dist(cur0, i, nn) - 1);
                }
            }
            current = if current + 1 == n {
                0
            } else {
                current + 1
            };
        }
        proof {
            assert forall|i: int| 0 <= i < n implies self.state.last_action@[i] is Some by {
                if !(self.state.last_action@[i] is Some) {
                    assert(seat_dist(current as int, i, n as int) < seat_dist(
                        current as int,
                        last_aggressor as int,
                        n as int,
                    ));
                }
            }
        }
        // Settlement: move every seat's street commitment into the pot.
        let ghost pot0 = self.state.pot;
        let ghost stacks_pre = self.state.player_stacks@;
        let ghost la_final = self.state.last_action@;
        for i in 0..n
            invariant
                self.players@.len() == n,
                commit@.len() == n,
                self.state.player_stacks@.len() == n,
                self.state.last_action@.len() == n,
                self.state.player_cards@.len() == n,
                self.state.community_cards == old(self).spec_state().community_cards,
                self.state.player_cards == old(self).spec_state().player_cards,
                self.deck == old(self).spec_deck(),
                self.starting_player == old(self).spec_starting(),
                self.state.last_action@ == la_final,
                stacks_pre == stacks0,
                forall|j: int| 0 <= j < n ==> commit@[j] <= stacks_pre[j],
                forall|j: int| (i as int) <= j < n ==> self.state.player_stacks@[j] == stacks_pre[j],
                forall|j: int|
                    0 <= j < (i as int) ==> self.state.player_stacks@[j] == stacks_pre[j]
                        - commit@[j],
                self.state.pot + sum_stacks(self.state.player_stacks@) == pot0 + sum_stacks(
                    stacks_pre,
                ),
                self.state.pot >= pot0,
                pot0 + sum_stacks(stacks_pre) <= u64::MAX,
                0 <= sb_g < n,
                0 <= bb_g < n,
                sb_g != bb_g,
                stacks0.len() == n,
                preflop0 ==> self.state.required_call >= BIG_BLIND,
                preflop0 ==> commit@[sb_g] >= capped(SMALL_BLIND, stacks0[sb_g]),
                preflop0 ==> commit@[bb_g] >= capped(BIG_BLIND, stacks0[bb_g]),
                preflop0 <==> old(self).spec_state().community_cards@.len() == 0,
                forall|j: int|
                    0 <= j < n && la_final[j] == Some(PokerAction::Check) ==> commit@[j] == 0,
                !preflop0 ==> (forall|j: int|
                    0 <= j < n && old(self).spec_state().last_action@[j] == Some(PokerAction::Fold)
                        ==> commit@[j] == 0),
                preflop0 ==> self.state.pot >= pot0 + (if (i as int) > sb_g {
                    capped(SMALL_BLIND, stacks0[sb_g])
                } else {
                    0int
                }) + (if (i as int) > bb_g {
                    capped(BIG_BLIND, stacks0[bb_g])
                } else {
                    0int
                }),
        {
            let c = commit[i];
            let s = self.state.player_stacks[i];
            proof {
                assert(commit@[i as int] <= stacks_pre[i as int]);
                assert(self.state.player_stacks@[i as int] == stacks_pre[i as int]);
                lemma_elem_le_sum(self.state.player_stacks@, i as int);
                lemma_sum_update(self.state.player_stacks@, i as int, (s - c) as u64);
            }
            self.state.player_stacks.set(i, s - c);
            self.state.pot = self.state.pot + c;
        }
    }

    /// Pay the pot out to the listed winning seats, given in ascending
    /// order: every winner receives an equal share of the pot and the
    /// first listed winner also the remainder, so the pot empties
    /// exactly and no other stack moves. With no winner listed, the
    /// opening seat takes the whole pot.
    pub fn distribute_pot(&mut self, winners: &Vec<usize>)
        requires
            old(self).wf(),
            forall|j: int| 0 <= j < winners@.len() ==> winners@[j] < old(self).seat_count(),
            forall|j1: int, j2: int| 0 <= j1 < j2 < winners@.len() ==> winners@[j1] < winners@[j2],
        ensures
            final(self).wf(),
            final(self).seat_count() == old(self).seat_count(),
            final(self).spec_starting() == old(self).spec_starting(),
            final(self).spec_deck() == old(self).spec_deck(),
            final(self).spec_state().pot == 0,
            final(self).spec_state().community_cards == old(self).spec_state().community_cards,
            final(self).spec_state().player_cards == old(self).spec_state().player_cards,
            final(self).spec_state().last_action == old(self).spec_state().last_action,
            final(self).spec_state().required_call == old(self).spec_state().required_call,
            total_chips(final(self).spec_state()) == total_chips(old(self).spec_state()),
            winners@.len() == 0 ==> final(self).spec_state().player_stacks@ == old(
                self,
            ).spec_state().player_stacks@.update(
                old(self).spec_starting(),
                (old(self).spec_state().player_stacks@[old(self).spec_starting()] + old(
                    self,
                ).spec_state().pot) as u64,
            ),
            winners@.len() > 0 ==> (forall|i: int|
                0 <= i < old(self).seat_count() && !winner_seat(winners@, i)
                    ==> final(self).spec_state().player_stacks@[i] == old(
                    self,
                ).spec_state().player_stacks@[i]),
            winners@.len() > 0 ==> (forall|j: int|
                0 <= j < winners@.len() ==> final(self).spec_state().player_stacks@[#[trigger] winners@[j] as int]
                    == old(self).spec_state().player_stacks@[winners@[j] as int] + old(
                    self,
                ).spec_state().pot as int / winners@.len() as int + (if j == 0 {
                    old(self).spec_state().pot as int % winners@.len() as int
                } else {
                    0int
                })),
    {
        let n = self.players.len();
        let pot_total = self.state.pot;
        self.state.pot = 0;
        let ghost stacks_mid = self.state.player_stacks@;
        proof {
            lemma_sum_nonneg(stacks_mid);
        }
        let k = winners.len();
        if k == 0 {
            let s0 = self.starting_player;
            let cur = self.state.player_stacks[s0];
            proof {
                lemma_elem_le_sum(self.state.player_stacks@, s0 as int);
                lemma_sum_update(self.state.player_stacks@, s0 as int, (cur + pot_total) as u64);
            }
            self.state.player_stacks.set(s0, cur + pot_total);
        } else {
            let share = pot_total / (k as u64);
            let remainder = pot_total % (k as u64);
            proof {
                vstd::arithmetic::div_mod::lemma_fundamental_div_mod(pot_total as int, k as int);
                assert(share * (k as int) <= pot_total) by {
                    vstd::arithmetic::mul::lemma_mul_is_commutative(k as int, share as int);
                }
                assert(share <= share * (k as int)) by {
                    vstd::arithmetic::mul::lemma_mul_inequality(1, k as int, share as int);
                    vstd::arithmetic::mul::lemma_mul_is_commutative(k as int, share as int);
                    vstd::arithmetic::mul::lemma_mul_basics(share as int);
                }
                assert(share + remainder <= pot_total) by {
                    assert(pot_total == (k as int) * share + remainder);
                    assert(share <= share * (k as int));
                    vstd::arithmetic::mul::lemma_mul_is_commutative(k as int, share as int);
                }
            }
            for w in 0..k
                invariant
                    winners@.len() == k,
                    1 <= k,
                    self.players@.len() == n,
                    2 <= n,
                    self.starting_player < n,
                    self.starting_player == old(self).spec_starting(),
                    self.deck == old(self).spec_deck(),
                    self.state.pot == 0,
                    self.state.community_cards == old(self).spec_state().community_cards,
                    self.state.player_cards == old(self).spec_state().player_cards,
                    self.state.last_action == old(self).spec_state().last_action,
                    self.state.required_call == old(self).spec_state().required_call,
                    self.state.last_action@.len() == n,
                    self.state.player_cards@.len() == n,
                    share == pot_total as int / k as int,
                    remainder == pot_total as int % k as int,
                    pot_total == (k as int) * share + remainder,
                    0 <= remainder,
                    forall|j: int| 0 <= j < k ==> #[trigger] winners@[j] < n,
                    forall|j1: int, j2: int| 0 <= j1 < j2 < k ==> winners@[j1] < winners@[j2],
                    self.state.player_stacks@.len() == n,
                    forall|i: int|
                        0 <= i < n && !winner_seat(winners@, i)
                            ==> self.state.player_stacks@[i] == stacks_mid[i],
                    forall|j: int|
                        0 <= j < w ==> self.state.player_stacks@[#[trigger] winners@[j] as int]
                            == stacks_mid[winners@[j] as int] + share + (if j == 0 {
                            remainder as int
                        } else {
                            0int
                        }),
                    forall|j: int|
                        w <= j < k ==> self.state.player_stacks@[#[trigger] winners@[j] as int]
                            == stacks_mid[winners@[j] as int],
                    sum_stacks(self.state.player_stacks@) == sum_stacks(stacks_mid) + (if w > 0 {
                        (w as int) * share + remainder
                    } else {
                        0int
                    }),
                    share + remainder <= pot_total,
                    sum_stacks(stacks_mid) + pot_total <= u64::MAX,
            {
                let target = winners[w];
                let add = if w == 0 {
                    share + remainder
                } else {
                    share
                };
                proof {
                    vstd::arithmetic::mul::lemma_mul_basics(share as int);
                    assert((w as int) * share + share == ((w as int) + 1) * share) by {
                        vstd::arithmetic::mul::lemma_mul_is_distributive_add_other_way(
                            share as int,
                            w as int,
                            1,
                        );
                    }
                    assert(((w as int) + 1) * share <= (k as int) * share) by {
                        vstd::arithmetic::mul::lemma_mul_inequality(
                            w as int + 1,
                            k as int,
                            share as int,
                        );
                    }
                    lemma_elem_le_sum(self.state.player_stacks@, target as int);
                    lemma_sum_nonneg(self.state.player_stacks@);
                    assert(winner_seat(winners@, target as int)) by {
                        assert(winners@[w as int] == target);
                    }
                    assert forall|j: int| 0 <= j < k && j != w implies winners@[j]
                        != winners@[w as int] by {
                        if j < w {
                            assert(winners@[j] < winners@[w as int]);
                        } else {
                            assert(winners@[w as int] < winners@[j]);
                        }
                    }
                }
                let cur = self.state.player_stacks[target];
                proof {
                    lemma_sum_update(self.state.player_stacks@, target as int, (cur + add) as u64);
                }
                self.state.player_stacks.set(target, cur + add);
            }
            proof {
                assert(sum_stacks(self.state.player_stacks@) == sum_stacks(stacks_mid)
                    + pot_total);
            }
        }
    }

    /// Play one full hand from the current deck position: reset the
    /// per-hand state, deal two hole cards to every seat starting from
    /// the opening seat, run the four betting streets with the flop,
    /// turn and river dealt between them, then settle the showdown.
    /// The pot is distributed in full, so the chips on the table are
    /// conserved exactly; finally the opening seat rotates.
    #[verifier::rlimit(30)]
    pub fn play_hand(&mut self)
        requires
            old(self).wf(),
        ensures
            final(self).wf(),
            final(self).seat_count() == old(self).seat_count(),
            final(self).spec_state().pot == 0,
            total_chips(final(self).spec_state()) == total_chips(old(self).spec_state()),
            final(self).spec_starting() == (old(self).spec_starting() + 1) % old(
                self,
            ).seat_count(),
            final(self).spec_state().required_call == 0,
            final(self).spec_deck().cards_view() == old(self).spec_deck().cards_view(),
            final(self).spec_deck().cursor() == (old(self).spec_deck().cursor() + 2 * old(
                self,
            ).seat_count() + 5) % 52,
            forall|i: int|
                0 <= i < old(self).seat_count() ==> final(self).spec_state().player_cards@[seat_at(
                    old(self).spec_starting(),
                    i,
                    old(self).seat_count(),
                )] == Some(
                    (
                        old(self).spec_deck().cards_view()[(old(self).spec_deck().cursor() + 2 * i)
                            % 52],
                        old(self).spec_deck().cards_view()[(old(self).spec_deck().cursor() + 2 * i
                            + 1) % 52],
                    ),
                ),
            final(self).spec_state().community_cards@.len() == 5,
            forall|j: int|
                0 <= j < 5 ==> final(self).spec_state().community_cards@[j] == old(
                    self,
                ).spec_deck().cards_view()[(old(self).spec_deck().cursor() + 2 * old(
                    self,
                ).seat_count() + j) % 52],
    {
        let n = self.players.len();
        let ghost total0 = total_chips(old(self).spec_state());
        let ghost dcards = self.deck.cards_view();
        let ghost c0 = self.deck.cursor();
        let ghost sp = self.starting_player as int;
        // Per-hand reset: no community cards, no hole cards, no actions.
        self.state.community_cards = Vec::new();
        self.state.required_call = 0;
        let mut fresh_cards: Vec<Option<(Card, Card)>> = Vec::new();
        let mut fresh_actions: Vec<Option<PokerAction>> = Vec::new();
        for _i in 0..n
            invariant
                fresh_cards@.len() == _i,
                fresh_actions@.len() == _i,
                forall|j: int| 0 <= j < _i ==> fresh_cards@[j] is None,
                forall|j: int| 0 <= j < _i ==> fresh_actions@[j] is None,
        {
            fresh_cards.push(None);
            fresh_actions.push(None);
        }
        self.state.player_cards = fresh_cards;
        self.state.last_action = fresh_actions;
        // Deal hole cards in seat order from the opening seat.
        proof {
            vstd::arithmetic::div_mod::lemma_small_mod(sp as nat, n as nat);
            vstd::arithmetic::div_mod::lemma_small_mod(c0 as nat, 52);
        }
        let mut seat: usize = self.starting_player;
        for p in 0..n
            invariant
                self.players@.len() == n,
                2 <= n,
                seat < n,
                self.starting_player < n,
                sp == self.starting_player as int,
                0 <= c0 < 52,
                self.state.player_stacks@ == old(self).spec_state().player_stacks@,
                self.state.pot == old(self).spec_state().pot,
                self.state.player_cards@.len() == n,
                self.state.last_action@.len() == n,
                self.state.player_stacks@.len() == n,
                self.state.community_cards@.len() == 0,
                self.deck.wf(),
                self.deck.cards_view() == dcards,
                self.deck.cursor() == (c0 + 2 * (p as int)) % 52,
                self.starting_player == old(self).spec_starting(),
                p < n ==> seat as int == seat_at(sp, p as int, n as int),
                p < n ==> seat_dist(self.starting_player as int, seat as int, n as int) == p,
                forall|i: int|
                    0 <= i < n ==> (self.state.player_cards@[i] is Some <==> seat_dist(
                        self.starting_player as int,
                        i,
                        n as int,
                    ) < p),
                forall|i: int|
                    0 <= i < p ==> self.state.player_cards@[#[trigger] seat_at(sp, i, n as int)]
                        == Some(
                        (dcards[(c0 + 2 * i) % 52], dcards[(c0 + 2 * i + 1) % 52]),
                    ),
        {
            let c1 = self.deck.get_next();
            proof {
                lemma_mod_step(c0 + 2 * (p as int), 52);
            }
            let c2 = self.deck.get_next();
            proof {
                lemma_mod_step(c0 + 2 * (p as int) + 1, 52);
                assert(c1 == dcards[(c0 + 2 * (p as int)) % 52]);
                assert(c2 == dcards[(c0 + 2 * (p as int) + 1) % 52]);
            }
            self.state.player_cards.set(seat, Some((c1, c2)));
            proof {
                assert(seat_dist(self.starting_player as int, seat as int, n as int) == p as int);
                lemma_seat_at_dist(sp, p as int, n as int);
                assert forall|i: int| 0 <= i < p implies seat_at(sp, i, n as int) != seat as int by {
                    lemma_seat_at_dist(sp, i, n as int);
                }
                lemma_wrap_is_mod(seat as int, n as int);
                lemma_mod_step(sp + p as int, n as int);
            }
            seat = if seat + 1 == n {
                0
            } else {
                seat + 1
            };
        }
        proof {
            assert forall|i: int| 0 <= i < n implies self.state.player_cards@[i] is Some by {
                assert(seat_dist(self.starting_player as int, i, n as int) < n as int);
            }
        }
        let ghost base = c0 + 2 * (n as int);
        // Preflop.
        self.get_betting_action();
        // Flop.
        let f1 = self.deck.get_next();
        proof {
            assert(f1 == dcards[base % 52]);
            lemma_mod_step(base, 52);
        }
        self.state.community_cards.push(f1);
        let f2 = self.deck.get_next();
        proof {
            assert(f2 == dcards[(base + 1) % 52]);
            lemma_mod_step(base + 1, 52);
        }
        self.state.community_cards.push(f2);
        let f3 = self.deck.get_next();
        proof {
            assert(f3 == dcards[(base + 2) % 52]);
            lemma_mod_step(base + 2, 52);
        }
        self.state.community_cards.push(f3);
        self.get_betting_action();
        // Turn.
        let t1 = self.deck.get_next();
        proof {
            assert(t1 == dcards[(base + 3) % 52]);
            lemma_mod_step(base + 3, 52);
        }
        self.state.community_cards.push(t1);
        self.get_betting_action();
        // River.
        let r1 = self.deck.get_next();
        proof {
            assert(r1 == dcards[(base + 4) % 52]);
            lemma_mod_step(base + 4, 52);
        }
        self.state.community_cards.push(r1);
        self.get_betting_action();
        proof {
            assert(self.state.community_cards@ =~= seq![f1, f2, f3, t1, r1]);
            assert(self.deck.cursor() == (c0 + 2 * (n as int) + 5) % 52);
        }
        // Showdown: pick the winning seats and pay the pot out.
        let winners = showdown_winners(&self.state);
        self.distribute_pot(&winners);
        // Rotate the opening seat for the next hand.
        self.state.required_call = 0;
        self.starting_player = if self.starting_player + 1 == n {
            0
        } else {
            self.starting_player + 1
        };
        proof {
            let s = old(self).spec_starting();
            let nn = old(self).seat_count();
            if s + 1 == nn {
                vstd::arithmetic::div_mod::lemma_mod_self_0(nn);
            } else {
                vstd::arithmetic::div_mod::lemma_small_mod((s + 1) as nat, nn as nat);
            }
        }
    }

    fn run_session(&mut self)
        requires
            old(self).wf(),
        ensures
            final(self).wf(),
            final(self).seat_count() == old(self).seat_count(),
            final(self).spec_state().pot == 0,
            total_chips(final(self).spec_state()) == total_chips(old(self).spec_state()),
            final(self).spec_starting() == (old(self).spec_starting() + HANDS_PER_SESSION) % old(
                self,
            ).seat_count(),
            final(self).spec_deck().cursor() == (2 * old(self).seat_count() + 5) % 52,
    {
        proof {
            vstd::arithmetic::div_mod::lemma_small_mod(
                old(self).spec_starting() as nat,
                old(self).seat_count() as nat,
            );
        }
        for _h in 0..HANDS_PER_SESSION
            invariant
                self.wf(),
                self.seat_count() == old(self).seat_count(),
                total_chips(self.spec_state()) == total_chips(old(self).spec_state()),
                _h > 0 ==> self.spec_state().pot == 0,
                _h > 0 ==> self.spec_deck().cursor() == (2 * old(self).seat_count() + 5) % 52,
                self.spec_starting() == (old(self).spec_starting() + _h) % old(self).seat_count(),
        {
            self.deck.shuffle();
            self.play_hand();
            proof {
                lemma_mod_step(old(self).spec_starting() + _h as int, old(self).seat_count());
            }
        }
    }

    /// Run a fixed-length session of exactly `HANDS_PER_SESSION` hands:
    /// shuffle and play one hand per round, the opening seat rotating
    /// once per hand. Chips move between the pot and the stacks but the
    /// total on the table never changes, and the pot is empty when the
    /// session ends.
    pub fn run(&mut self)
        requires
            old(self).wf(),
        ensures
            final(self).wf(),
            final(self).seat_count() == old(self).seat_count(),
            final(self).spec_state().pot == 0,
            total_chips(final(self).spec_state()) == total_chips(old(self).spec_state()),
            final(self).spec_starting() == (old(self).spec_starting() + HANDS_PER_SESSION) % old(
                self,
            ).seat_count(),
            final(self).spec_deck().cursor() == (2 * old(self).seat_count() + 5) % 52,
    {
        self.run_session();
    }
}

/// The number of hands one session of the engine plays.
pub const HANDS_PER_SESSION: usize = 5;

impl<P: GamePlayer<PokerState, PokerAction>> GameEngine<PokerState, PokerAction> for PokerEngine<
    P,
> {
    open spec fn ready(&self) -> bool {
        self.wf()
    }

    fn run(&mut self) {
        self.run_session();
    }
}

/// The trivial baseline player: checks whenever checking is offered,
/// otherwise calls. It never folds and never raises.
pub struct PassivePokerPlayer {}

impl GamePlayer<PokerState, PokerAction> for PassivePokerPlayer {
    fn get_action(&self, _state: &PokerState, actions: &Vec<PokerAction>) -> (r: PokerAction)
        ensures
            (exists|j: int| 0 <= j < actions@.len() && actions@[j] is Check) ==> r
                == PokerAction::Check,
            !(exists|j: int| 0 <= j < actions@.len() && actions@[j] is Check) ==> r
                == PokerAction::Call,
    {
        let mut has_check = false;
        let mut i: usize = 0;
        while i < actions.len()
            invariant
                i <= actions@.len(),
                has_check <==> (exists|j: int| 0 <= j < i && actions@[j] is Check),
            decreases actions@.len() - i,
        {
            match actions[i] {
                PokerAction::Check => {
                    has_check = true;
                },
                _ => {},
            }
            i = i + 1;
        }
        if has_check {
            PokerAction::Check
        } else {
            PokerAction::Call
        }
    }
}

/// A seat meant to be driven by a person rather than an automated
/// strategy; the decision plumbing lives outside the engine.
pub struct PlayerPokerPlayer {}

} // verus!
