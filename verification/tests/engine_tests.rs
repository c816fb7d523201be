use poker::card::{Card, Rank, Suit};
use poker::game::GamePlayer;
use poker::poker::{
    resolve_action, showdown_winners, PassivePokerPlayer, PokerAction, PokerEngine, PokerState,
};

fn two_passive() -> PokerEngine<PassivePokerPlayer> {
    PokerEngine::new(vec![PassivePokerPlayer {}, PassivePokerPlayer {}])
}

#[test]
fn fresh_engine_seats_start_with_two_hundred() {
    let engine = two_passive();
    assert_eq!(engine.pot(), 0);
    assert_eq!(engine.stack_of(0), 200);
    assert_eq!(engine.stack_of(1), 200);
    assert_eq!(engine.last_action_of(0), None);
    assert_eq!(engine.last_action_of(1), None);
}

#[test]
fn preflop_blinds_and_calls_collect_four_chips() {
    let mut engine = two_passive();
    engine.get_betting_action();
    // Small blind 1 raised to the big blind 2, called: 2 + 2 in the pot.
    assert_eq!(engine.pot(), 4);
    assert_eq!(engine.stack_of(0), 198);
    assert_eq!(engine.stack_of(1), 198);
}

#[test]
fn every_seat_has_acted_after_preflop() {
    let mut engine = two_passive();
    engine.get_betting_action();
    assert!(engine.last_action_of(0).is_some());
    assert!(engine.last_action_of(1).is_some());
    // The big blind's forced contribution is recorded as a raise.
    assert_eq!(engine.last_action_of(1), Some(PokerAction::Raise(1)));
}

#[test]
fn tied_hand_splits_the_pot_back_to_even_stacks() {
    // Without a shuffle the canonical deck gives both seats a pair of
    // Twos and puts quad Threes on the board, an exact tie: the four
    // blind chips split two and two, leaving both stacks at 200.
    let mut engine = two_passive();
    engine.play_hand();
    assert_eq!(engine.pot(), 0);
    assert_eq!(engine.stack_of(0), 200);
    assert_eq!(engine.stack_of(1), 200);
}

#[test]
fn full_session_conserves_total_chips() {
    let mut engine = PokerEngine::new(vec![
        PassivePokerPlayer {},
        PassivePokerPlayer {},
        PassivePokerPlayer {},
    ]);
    engine.run();
    let total: u64 = engine.stack_of(0) + engine.stack_of(1) + engine.stack_of(2);
    assert_eq!(engine.pot(), 0);
    assert_eq!(total, 600);
}

#[test]
fn repeated_hands_conserve_total_chips_without_shuffling() {
    let mut engine = two_passive();
    for _ in 0..3 {
        engine.play_hand();
        assert_eq!(engine.pot(), 0);
        assert_eq!(engine.stack_of(0) + engine.stack_of(1), 400);
    }
}

#[test]
fn resolve_action_passes_legal_actions_through() {
    assert_eq!(resolve_action(PokerAction::Call, 2, 200), PokerAction::Call);
    assert_eq!(resolve_action(PokerAction::Fold, 2, 200), PokerAction::Fold);
    assert_eq!(
        resolve_action(PokerAction::Raise(5), 2, 200),
        PokerAction::Raise(5)
    );
    assert_eq!(resolve_action(PokerAction::Check, 0, 200), PokerAction::Check);
    assert_eq!(
        resolve_action(PokerAction::Raise(10), 0, 200),
        PokerAction::Raise(10)
    );
}

#[test]
fn resolve_action_degrades_illegal_actions() {
    // Checking while owing a call forfeits as a fold.
    assert_eq!(resolve_action(PokerAction::Check, 2, 200), PokerAction::Fold);
    // A raise of nothing is no raise.
    assert_eq!(resolve_action(PokerAction::Raise(0), 2, 200), PokerAction::Fold);
    assert_eq!(resolve_action(PokerAction::Raise(0), 0, 200), PokerAction::Check);
    // A raise the seat cannot fund is refused.
    assert_eq!(
        resolve_action(PokerAction::Raise(199), 2, 200),
        PokerAction::Fold
    );
    assert_eq!(
        resolve_action(PokerAction::Raise(198), 2, 200),
        PokerAction::Raise(198)
    );
    // Folding with nothing owed is a harmless check.
    assert_eq!(resolve_action(PokerAction::Fold, 0, 200), PokerAction::Check);
    assert_eq!(resolve_action(PokerAction::Call, 0, 200), PokerAction::Check);
}

#[test]
fn passive_player_checks_when_allowed_and_calls_otherwise() {
    let player = PassivePokerPlayer {};
    let state = PokerState {
        pot: 0,
        player_stacks: vec![200, 200],
        community_cards: Vec::new(),
        player_cards: vec![None, None],
        last_action: vec![None, None],
        required_call: 0,
    };
    let with_check = vec![PokerAction::Check, PokerAction::Raise(0)];
    assert_eq!(player.get_action(&state, &with_check), PokerAction::Check);
    let without_check = vec![
        PokerAction::Fold,
        PokerAction::Call,
        PokerAction::Raise(0),
    ];
    assert_eq!(player.get_action(&state, &without_check), PokerAction::Call);
}

#[test]
fn showdown_awards_pot_to_the_stronger_hand() {
    // Three seats, canonical deck, no shuffle. The deal gives seat 0
    // 2H 2D, seat 1 2S 2C and seat 2 3H 3D; the board runs out
    // 3S 3C 4H 4D 4S. Seats 0 and 1 hold fours full of threes while
    // seat 2 holds quad Threes, so seat 2 alone takes the six-chip pot
    // (both blinds and three calls of two).
    let mut engine = PokerEngine::new(vec![
        PassivePokerPlayer {},
        PassivePokerPlayer {},
        PassivePokerPlayer {},
    ]);
    engine.play_hand();
    assert_eq!(engine.pot(), 0);
    assert_eq!(engine.stack_of(0), 198);
    assert_eq!(engine.stack_of(1), 198);
    assert_eq!(engine.stack_of(2), 204);
    // Cross-check the two hand strengths directly with the evaluator.
    let board = [
        Card { rank: Rank::Three, suit: Suit::Spade },
        Card { rank: Rank::Three, suit: Suit::Club },
        Card { rank: Rank::Four, suit: Suit::Heart },
        Card { rank: Rank::Four, suit: Suit::Diamond },
        Card { rank: Rank::Four, suit: Suit::Spade },
    ];
    let mut hand0 = vec![
        Card { rank: Rank::Two, suit: Suit::Heart },
        Card { rank: Rank::Two, suit: Suit::Diamond },
    ];
    hand0.extend_from_slice(&board);
    let mut hand2 = vec![
        Card { rank: Rank::Three, suit: Suit::Heart },
        Card { rank: Rank::Three, suit: Suit::Diamond },
    ];
    hand2.extend_from_slice(&board);
    let v0 = poker::hand_utils::get_hand_value(&hand0);
    let v2 = poker::hand_utils::get_hand_value(&hand2);
    assert!(v2 > v0);
}


/// A scripted opponent that declares a raise by a fixed amount on
/// every turn; the engine degrades the raise wherever it is illegal
/// or cannot be funded. A raise amount of zero makes the seat behave
/// passively instead, checking when it may and calling otherwise.
struct ScriptedRaiser {
    amount: u64,
}

impl GamePlayer<PokerState, PokerAction> for ScriptedRaiser {
    fn get_action(&self, _state: &PokerState, actions: &Vec<PokerAction>) -> PokerAction {
        if self.amount > 0 {
            PokerAction::Raise(self.amount)
        } else if actions.contains(&PokerAction::Check) {
            PokerAction::Check
        } else {
            PokerAction::Call
        }
    }
}

/// A scripted opponent that always declares a fold, legal or not.
struct AlwaysFold {}

impl GamePlayer<PokerState, PokerAction> for AlwaysFold {
    fn get_action(&self, _state: &PokerState, _actions: &Vec<PokerAction>) -> PokerAction {
        PokerAction::Fold
    }
}

#[test]
fn raising_war_ends_when_a_raise_cannot_be_funded() {
    // Two seats that always raise by ten. The amount to call climbs by
    // ten per action until seat 1 would need 202 chips from a stack of
    // 200: that raise degrades to a fold, seat 0 takes the whole pot,
    // and the chips balance exactly.
    let mut engine = PokerEngine::new(vec![
        ScriptedRaiser { amount: 10 },
        ScriptedRaiser { amount: 10 },
    ]);
    engine.play_hand();
    assert_eq!(engine.pot(), 0);
    assert_eq!(engine.last_action_of(1), Some(PokerAction::Fold));
    assert_eq!(engine.stack_of(0), 382);
    assert_eq!(engine.stack_of(1), 18);
    assert_eq!(engine.stack_of(0) + engine.stack_of(1), 400);
}

#[test]
fn raiser_against_caller_still_splits_a_tied_board() {
    // Seat 0 raises five on every street and seat 1 just calls. The
    // canonical deal gives both seats quad Threes at showdown, so
    // every chip committed comes back and both stacks end at 200.
    let mut engine = PokerEngine::new(vec![
        ScriptedRaiser { amount: 5 },
        ScriptedRaiser { amount: 0 },
    ]);
    engine.play_hand();
    assert_eq!(engine.pot(), 0);
    assert_eq!(engine.stack_of(0), 200);
    assert_eq!(engine.stack_of(1), 200);
}

#[test]
fn folded_hand_gives_the_blinds_to_the_remaining_seat() {
    // Both seats script a fold. The opening seat folds to the big
    // blind; the big blind never has to act again and collects the
    // three blind chips.
    let mut engine = PokerEngine::new(vec![AlwaysFold {}, AlwaysFold {}]);
    engine.play_hand();
    assert_eq!(engine.pot(), 0);
    assert_eq!(engine.last_action_of(0), Some(PokerAction::Fold));
    assert_eq!(engine.stack_of(0), 199);
    assert_eq!(engine.stack_of(1), 201);
}


#[test]
fn showdown_winners_picks_tied_best_and_skips_folded() {
    // Seats 1 and 2 hold equal ace-high hands; seat 0 holds the same
    // ranks but has folded, so it is excluded from the showdown.
    let community = vec![
        Card { rank: Rank::Two, suit: Suit::Heart },
        Card { rank: Rank::Five, suit: Suit::Diamond },
        Card { rank: Rank::Nine, suit: Suit::Spade },
        Card { rank: Rank::Jack, suit: Suit::Club },
        Card { rank: Rank::King, suit: Suit::Heart },
    ];
    let state = PokerState {
        pot: 9,
        player_stacks: vec![100, 100, 100],
        community_cards: community,
        player_cards: vec![
            Some((
                Card { rank: Rank::Ace, suit: Suit::Spade },
                Card { rank: Rank::Queen, suit: Suit::Club },
            )),
            Some((
                Card { rank: Rank::Ace, suit: Suit::Heart },
                Card { rank: Rank::Queen, suit: Suit::Diamond },
            )),
            Some((
                Card { rank: Rank::Ace, suit: Suit::Diamond },
                Card { rank: Rank::Queen, suit: Suit::Spade },
            )),
        ],
        last_action: vec![
            Some(PokerAction::Fold),
            Some(PokerAction::Check),
            Some(PokerAction::Check),
        ],
        required_call: 0,
    };
    assert_eq!(showdown_winners(&state), vec![1, 2]);
}

#[test]
fn showdown_winners_is_empty_when_every_seat_folded() {
    let state = PokerState {
        pot: 0,
        player_stacks: vec![100, 100],
        community_cards: Vec::new(),
        player_cards: vec![None, None],
        last_action: vec![Some(PokerAction::Fold), Some(PokerAction::Fold)],
        required_call: 0,
    };
    assert_eq!(showdown_winners(&state), Vec::<usize>::new());
}

#[test]
fn distribute_pot_gives_the_remainder_to_the_first_winner() {
    // Folding the opening seat to the big blind leaves three chips in
    // the pot (stacks 199 and 198). Splitting that odd pot between
    // both seats hands each one chip and the remainder to seat 0.
    let mut engine = PokerEngine::new(vec![AlwaysFold {}, AlwaysFold {}]);
    engine.get_betting_action();
    assert_eq!(engine.pot(), 3);
    engine.distribute_pot(&vec![0, 1]);
    assert_eq!(engine.pot(), 0);
    assert_eq!(engine.stack_of(0), 201);
    assert_eq!(engine.stack_of(1), 199);
}

#[test]
fn distribute_pot_without_winners_pays_the_opening_seat() {
    let mut engine = PokerEngine::new(vec![AlwaysFold {}, AlwaysFold {}]);
    engine.get_betting_action();
    assert_eq!(engine.pot(), 3);
    engine.distribute_pot(&Vec::new());
    assert_eq!(engine.pot(), 0);
    assert_eq!(engine.stack_of(0), 202);
    assert_eq!(engine.stack_of(1), 198);
}

#[test]
fn session_rotates_the_opening_seat_once_per_hand() {
    let mut engine = PokerEngine::new(vec![
        PassivePokerPlayer {},
        PassivePokerPlayer {},
        PassivePokerPlayer {},
    ]);
    assert_eq!(engine.opening_seat(), 0);
    engine.play_hand();
    assert_eq!(engine.opening_seat(), 1);
    // A full session plays five hands: across three seats the opener
    // ends two seats on from where it started.
    let mut session = PokerEngine::new(vec![
        PassivePokerPlayer {},
        PassivePokerPlayer {},
        PassivePokerPlayer {},
    ]);
    session.run();
    assert_eq!(session.opening_seat(), 2);
}
