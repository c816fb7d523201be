use poker::card::{Card, Deck, Rank, Suit};

fn deal_all(deck: &mut Deck) -> Vec<Card> {
    let mut cards = Vec::new();
    for _ in 0..52 {
        cards.push(deck.get_next());
    }
    cards
}

#[test]
fn fresh_deck_holds_every_card_exactly_once() {
    let mut deck = Deck::new();
    let cards = deal_all(&mut deck);
    assert_eq!(cards.len(), 52);
    for rank in Rank::iterator() {
        for suit in Suit::iterator() {
            let copies = cards
                .iter()
                .filter(|c| c.rank == rank && c.suit == suit)
                .count();
            assert_eq!(copies, 1);
        }
    }
}

#[test]
fn fresh_deck_deals_in_rank_major_order() {
    let mut deck = Deck::new();
    let first = deck.get_next();
    assert_eq!(first, Card { rank: Rank::Two, suit: Suit::Heart });
    let second = deck.get_next();
    assert_eq!(second, Card { rank: Rank::Two, suit: Suit::Diamond });
}

#[test]
fn deals_up_to_fifty_two_never_repeat() {
    let mut deck = Deck::new();
    deck.shuffle();
    let cards = deal_all(&mut deck);
    for i in 0..cards.len() {
        for j in (i + 1)..cards.len() {
            assert!(cards[i] != cards[j]);
        }
    }
}

#[test]
fn shuffle_keeps_all_fifty_two_cards() {
    let mut deck = Deck::new();
    deck.shuffle();
    let cards = deal_all(&mut deck);
    for rank in Rank::iterator() {
        for suit in Suit::iterator() {
            let copies = cards
                .iter()
                .filter(|c| c.rank == rank && c.suit == suit)
                .count();
            assert_eq!(copies, 1);
        }
    }
}

#[test]
fn deal_wraps_around_after_the_last_card() {
    let mut deck = Deck::new();
    let first = deck.get_next();
    for _ in 0..51 {
        deck.get_next();
    }
    // The 53rd draw silently re-issues the first card.
    assert_eq!(deck.get_next(), first);
}

#[test]
fn rank_iterator_is_ascending_and_complete() {
    let ranks = Rank::iterator();
    assert_eq!(ranks.len(), 13);
    assert_eq!(ranks[0], Rank::Two);
    assert_eq!(ranks[12], Rank::Ace);
    for i in 0..13 {
        assert_eq!(ranks[i].index() as usize, i);
    }
}

#[test]
fn suit_iterator_is_complete() {
    let suits = Suit::iterator();
    assert_eq!(suits.len(), 4);
    assert_eq!(suits[0], Suit::Heart);
    assert_eq!(suits[3], Suit::Club);
}

#[test]
fn rank_from_index_round_trips_and_rejects_out_of_range() {
    for i in 0..13u8 {
        let rank = Rank::from_index(i).unwrap();
        assert_eq!(rank.index(), i);
    }
    assert_eq!(Rank::from_index(13), None);
    assert_eq!(Rank::from_index(200), None);
}
