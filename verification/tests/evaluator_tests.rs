use poker::card::{Card, Rank, Suit};
use poker::hand_utils::{
    flush_value, full_house_value, get_hand_value, get_highest_n_of_kind, get_rank_counts,
    high_card_value, pair_value, quads_value, set_value, straight_flush_value, straight_value,
    two_pair_value,
};

fn c(rank: Rank, suit: Suit) -> Card {
    Card { rank, suit }
}

fn offsuit(ranks: &[Rank]) -> Vec<Card> {
    // Rotate suits so no five share one suit.
    let suits = [Suit::Heart, Suit::Diamond, Suit::Spade, Suit::Club];
    ranks
        .iter()
        .enumerate()
        .map(|(i, &r)| c(r, suits[i % 4]))
        .collect()
}

fn suited(ranks: &[Rank], suit: Suit) -> Vec<Card> {
    ranks.iter().map(|&r| c(r, suit)).collect()
}

#[test]
fn worst_pair_beats_best_high_card() {
    let pair = offsuit(&[Rank::Two, Rank::Two, Rank::Three, Rank::Four, Rank::Five]);
    let high = offsuit(&[Rank::Ace, Rank::King, Rank::Queen, Rank::Jack, Rank::Nine]);
    assert!(get_hand_value(&pair) > get_hand_value(&high));
}

#[test]
fn worst_two_pair_beats_best_pair() {
    let two_pair = offsuit(&[Rank::Two, Rank::Two, Rank::Three, Rank::Three, Rank::Four]);
    let pair = offsuit(&[Rank::Ace, Rank::Ace, Rank::King, Rank::Queen, Rank::Jack]);
    assert!(get_hand_value(&two_pair) > get_hand_value(&pair));
}

#[test]
fn worst_set_beats_best_two_pair() {
    let set = offsuit(&[Rank::Two, Rank::Two, Rank::Two, Rank::Three, Rank::Four]);
    let two_pair = offsuit(&[Rank::Ace, Rank::Ace, Rank::King, Rank::King, Rank::Queen]);
    assert!(get_hand_value(&set) > get_hand_value(&two_pair));
}

#[test]
fn worst_straight_beats_best_set() {
    let straight = offsuit(&[Rank::Ace, Rank::Two, Rank::Three, Rank::Four, Rank::Five]);
    let set = offsuit(&[Rank::Ace, Rank::Ace, Rank::Ace, Rank::King, Rank::Queen]);
    assert!(get_hand_value(&straight) > get_hand_value(&set));
}

#[test]
fn worst_flush_beats_best_straight() {
    let flush = suited(
        &[Rank::Two, Rank::Three, Rank::Four, Rank::Five, Rank::Seven],
        Suit::Spade,
    );
    let straight = offsuit(&[Rank::Ace, Rank::King, Rank::Queen, Rank::Jack, Rank::Ten]);
    assert!(get_hand_value(&flush) > get_hand_value(&straight));
}

#[test]
fn worst_full_house_beats_best_flush() {
    let full = offsuit(&[Rank::Two, Rank::Two, Rank::Two, Rank::Three, Rank::Three]);
    let flush = suited(
        &[Rank::Ace, Rank::King, Rank::Queen, Rank::Jack, Rank::Nine],
        Suit::Heart,
    );
    assert!(get_hand_value(&full) > get_hand_value(&flush));
}

#[test]
fn worst_quads_beat_best_full_house() {
    let quads = offsuit(&[Rank::Two, Rank::Two, Rank::Two, Rank::Two, Rank::Three]);
    let full = offsuit(&[Rank::Ace, Rank::Ace, Rank::Ace, Rank::King, Rank::King]);
    assert!(get_hand_value(&quads) > get_hand_value(&full));
}

#[test]
fn worst_straight_flush_beats_best_quads() {
    let sf = suited(
        &[Rank::Ace, Rank::Two, Rank::Three, Rank::Four, Rank::Five],
        Suit::Club,
    );
    let quads = vec![
        c(Rank::Ace, Suit::Heart),
        c(Rank::Ace, Suit::Diamond),
        c(Rank::Ace, Suit::Spade),
        c(Rank::Ace, Suit::Club),
        c(Rank::King, Suit::Heart),
    ];
    assert!(get_hand_value(&sf) > get_hand_value(&quads));
}

#[test]
fn ace_low_straight_flush_beats_quad_aces_with_king() {
    let wheel_flush = suited(
        &[Rank::Ace, Rank::Two, Rank::Three, Rank::Four, Rank::Five],
        Suit::Heart,
    );
    let quad_aces = vec![
        c(Rank::Ace, Suit::Heart),
        c(Rank::Ace, Suit::Diamond),
        c(Rank::Ace, Suit::Spade),
        c(Rank::Ace, Suit::Club),
        c(Rank::King, Suit::Spade),
    ];
    assert_eq!(straight_flush_value(&wheel_flush), Some(3));
    assert!(get_hand_value(&wheel_flush) > get_hand_value(&quad_aces));
}

#[test]
fn evaluation_is_deterministic_and_order_independent() {
    let hand = offsuit(&[
        Rank::Ace,
        Rank::King,
        Rank::King,
        Rank::Seven,
        Rank::Seven,
        Rank::Four,
        Rank::Two,
    ]);
    let first = get_hand_value(&hand);
    let second = get_hand_value(&hand);
    assert_eq!(first, second);
    let mut reversed = hand.clone();
    reversed.reverse();
    assert_eq!(get_hand_value(&reversed), first);
}

#[test]
fn high_card_exact_value() {
    let high = offsuit(&[Rank::Ace, Rank::King, Rank::Queen, Rank::Jack, Rank::Nine]);
    // 12,11,10,9,7 in base 13, highest weighted most.
    let expected = 12 * 28561 + 11 * 2197 + 10 * 169 + 9 * 13 + 7;
    assert_eq!(high_card_value(&high), expected);
    assert_eq!(get_hand_value(&high), expected);
}

#[test]
fn pair_exact_value() {
    let pair = offsuit(&[Rank::Two, Rank::Two, Rank::Three, Rank::Four, Rank::Five]);
    // Pair of Twos (0), kickers Five, Four, Three (3, 2, 1).
    let sub = 2197 * 0 + 169 * 3 + 13 * 2 + 1;
    assert_eq!(pair_value(&pair), Some(sub));
    assert_eq!(get_hand_value(&pair), 371293 + sub);
}

#[test]
fn two_pair_exact_value() {
    let hand = offsuit(&[Rank::Three, Rank::Three, Rank::Two, Rank::Two, Rank::Ace]);
    assert_eq!(two_pair_value(&hand), Some(169 * 1 + 13 * 0 + 12));
}

#[test]
fn set_exact_value() {
    let hand = offsuit(&[Rank::Five, Rank::Five, Rank::Five, Rank::Two, Rank::Three]);
    // Triple Fives (3), kickers Three, Two (1, 0).
    assert_eq!(set_value(&hand), Some(169 * 3 + 13 * 1 + 0));
}

#[test]
fn straight_exact_values() {
    let wheel = offsuit(&[Rank::Ace, Rank::Two, Rank::Three, Rank::Four, Rank::Five]);
    assert_eq!(straight_value(&wheel), Some(3));
    let broadway = offsuit(&[Rank::Ten, Rank::Jack, Rank::Queen, Rank::King, Rank::Ace]);
    assert_eq!(straight_value(&broadway), Some(12));
}

#[test]
fn straight_found_despite_paired_rank() {
    // Nine-high straight hidden behind a pair of Eights.
    let hand = offsuit(&[
        Rank::Nine,
        Rank::Eight,
        Rank::Eight,
        Rank::Seven,
        Rank::Six,
        Rank::Five,
    ]);
    assert_eq!(straight_value(&hand), Some(7));
}

#[test]
fn flush_exact_value() {
    let flush = suited(
        &[Rank::Two, Rank::Three, Rank::Four, Rank::Five, Rank::Seven],
        Suit::Diamond,
    );
    let expected = 5 * 28561 + 3 * 2197 + 2 * 169 + 1 * 13 + 0;
    assert_eq!(flush_value(&flush), Some(expected));
}

#[test]
fn full_house_exact_value() {
    let hand = offsuit(&[Rank::Three, Rank::Three, Rank::Three, Rank::Two, Rank::Two]);
    assert_eq!(full_house_value(&hand), Some(13 * 1 + 0));
}

#[test]
fn quads_exact_value() {
    let hand = vec![
        c(Rank::Two, Suit::Heart),
        c(Rank::Two, Suit::Diamond),
        c(Rank::Two, Suit::Spade),
        c(Rank::Two, Suit::Club),
        c(Rank::Three, Suit::Heart),
    ];
    assert_eq!(quads_value(&hand), Some(13 * 0 + 1));
}

#[test]
fn detectors_report_no_match() {
    let high = offsuit(&[Rank::Ace, Rank::King, Rank::Queen, Rank::Jack, Rank::Nine]);
    assert_eq!(straight_flush_value(&high), None);
    assert_eq!(quads_value(&high), None);
    assert_eq!(full_house_value(&high), None);
    assert_eq!(flush_value(&high), None);
    assert_eq!(straight_value(&high), None);
    assert_eq!(set_value(&high), None);
    assert_eq!(two_pair_value(&high), None);
    assert_eq!(pair_value(&high), None);
}

#[test]
fn seven_card_hand_uses_best_category() {
    // Two hole cards plus five community cards holding a heart flush.
    let hand = vec![
        c(Rank::Ace, Suit::Heart),
        c(Rank::Two, Suit::Heart),
        c(Rank::Seven, Suit::Heart),
        c(Rank::Nine, Suit::Heart),
        c(Rank::Queen, Suit::Heart),
        c(Rank::Queen, Suit::Spade),
        c(Rank::Two, Suit::Club),
    ];
    assert!(flush_value(&hand).is_some());
    // Top five hearts: A, Q, 9, 7, 2.
    let expected = 12 * 28561 + 10 * 2197 + 7 * 169 + 5 * 13 + 0;
    assert_eq!(get_hand_value(&hand), 371293 * 5 + expected);
}

#[test]
fn rank_counts_and_n_of_kind() {
    let hand = offsuit(&[
        Rank::Ace,
        Rank::Ace,
        Rank::King,
        Rank::King,
        Rank::King,
        Rank::Two,
    ]);
    let counts = get_rank_counts(&hand);
    assert_eq!(counts.len(), 13);
    assert_eq!(counts[12], 2);
    assert_eq!(counts[11], 3);
    assert_eq!(counts[0], 1);
    assert_eq!(counts[5], 0);
    assert_eq!(get_highest_n_of_kind(&hand, 3), Some(Rank::King));
    assert_eq!(get_highest_n_of_kind(&hand, 2), Some(Rank::Ace));
    assert_eq!(get_highest_n_of_kind(&hand, 4), None);
}
