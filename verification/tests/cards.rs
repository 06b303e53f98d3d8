use pocker_back::card::{evaluate_hand, Card, Deck, HandRank, Rank, Suit};
use std::collections::HashSet;

fn c(rank: Rank, suit: Suit) -> Card {
    Card { rank, suit }
}

#[test]
fn fresh_deck_holds_each_card_once() {
    let mut deck = Deck::new();
    assert_eq!(deck.len(), 52);
    let mut seen = HashSet::new();
    for _ in 0..52 {
        seen.insert(deck.deal());
    }
    assert_eq!(seen.len(), 52);
    assert_eq!(deck.len(), 0);
}

#[test]
fn deal_takes_the_top_card() {
    let mut deck = Deck::new();
    assert_eq!(deck.deal(), c(Rank::Ace, Suit::Spades));
    assert_eq!(deck.deal(), c(Rank::King, Suit::Spades));
    assert_eq!(deck.len(), 50);
}

#[test]
fn fresh_deck_order_is_suit_then_rank() {
    let mut deck = Deck::new();
    let mut cards = Vec::new();
    for _ in 0..52 {
        cards.push(deck.deal());
    }
    cards.reverse();
    assert_eq!(cards[0], c(Rank::Two, Suit::Clubs));
    assert_eq!(cards[12], c(Rank::Ace, Suit::Clubs));
    assert_eq!(cards[13], c(Rank::Two, Suit::Diamonds));
    assert_eq!(cards[51], c(Rank::Ace, Suit::Spades));
}

#[test]
fn shuffle_keeps_the_same_cards() {
    let mut deck = Deck::new();
    deck.shuffle();
    assert_eq!(deck.len(), 52);
    let mut cards = Vec::new();
    for _ in 0..52 {
        cards.push(deck.deal());
    }
    cards.sort();
    let mut fresh = Deck::new();
    let mut expected = Vec::new();
    for _ in 0..52 {
        expected.push(fresh.deal());
    }
    expected.sort();
    assert_eq!(cards, expected);
}

#[test]
fn straight_flush() {
    let h = [
        c(Rank::Nine, Suit::Hearts),
        c(Rank::Five, Suit::Hearts),
        c(Rank::Seven, Suit::Hearts),
        c(Rank::Six, Suit::Hearts),
        c(Rank::Eight, Suit::Hearts),
    ];
    assert_eq!(evaluate_hand(&h), HandRank::StraightFlush(Rank::Nine));
}

#[test]
fn four_of_a_kind() {
    let h = [
        c(Rank::Queen, Suit::Hearts),
        c(Rank::Queen, Suit::Spades),
        c(Rank::Two, Suit::Hearts),
        c(Rank::Queen, Suit::Clubs),
        c(Rank::Queen, Suit::Diamonds),
    ];
    assert_eq!(evaluate_hand(&h), HandRank::FourOfKind(Rank::Queen));
}

#[test]
fn full_house() {
    let h = [
        c(Rank::Three, Suit::Hearts),
        c(Rank::Three, Suit::Spades),
        c(Rank::King, Suit::Hearts),
        c(Rank::Three, Suit::Clubs),
        c(Rank::King, Suit::Diamonds),
    ];
    assert_eq!(evaluate_hand(&h), HandRank::FullHouse(Rank::Three, Rank::King));
}

#[test]
fn full_house_with_two_pairs_names_the_higher_pair() {
    let h = [
        c(Rank::Three, Suit::Hearts),
        c(Rank::Three, Suit::Spades),
        c(Rank::King, Suit::Hearts),
        c(Rank::Three, Suit::Clubs),
        c(Rank::King, Suit::Diamonds),
        c(Rank::Five, Suit::Diamonds),
        c(Rank::Five, Suit::Clubs),
    ];
    assert_eq!(evaluate_hand(&h), HandRank::FullHouse(Rank::Three, Rank::King));
}

#[test]
fn flush() {
    let h = [
        c(Rank::Two, Suit::Clubs),
        c(Rank::Nine, Suit::Clubs),
        c(Rank::Jack, Suit::Clubs),
        c(Rank::Four, Suit::Clubs),
        c(Rank::Seven, Suit::Clubs),
    ];
    assert_eq!(evaluate_hand(&h), HandRank::Flush(Rank::Jack));
}

#[test]
fn straight() {
    let h = [
        c(Rank::Ten, Suit::Clubs),
        c(Rank::Jack, Suit::Hearts),
        c(Rank::Queen, Suit::Clubs),
        c(Rank::King, Suit::Spades),
        c(Rank::Ace, Suit::Clubs),
    ];
    assert_eq!(evaluate_hand(&h), HandRank::Straight(Rank::Ace));
}

#[test]
fn wheel_is_a_straight_named_by_the_ace() {
    let h = [
        c(Rank::Ace, Suit::Clubs),
        c(Rank::Two, Suit::Hearts),
        c(Rank::Three, Suit::Clubs),
        c(Rank::Four, Suit::Spades),
        c(Rank::Five, Suit::Clubs),
    ];
    assert_eq!(evaluate_hand(&h), HandRank::Straight(Rank::Ace));
}

#[test]
fn seven_cards_need_seven_in_sequence_for_a_straight() {
    let h = [
        c(Rank::Two, Suit::Clubs),
        c(Rank::Three, Suit::Hearts),
        c(Rank::Four, Suit::Clubs),
        c(Rank::Five, Suit::Spades),
        c(Rank::Six, Suit::Clubs),
        c(Rank::Jack, Suit::Diamonds),
        c(Rank::King, Suit::Diamonds),
    ];
    assert_eq!(evaluate_hand(&h), HandRank::HighCard(Rank::King));
}

#[test]
fn three_of_a_kind() {
    let h = [
        c(Rank::Seven, Suit::Clubs),
        c(Rank::Seven, Suit::Hearts),
        c(Rank::Seven, Suit::Spades),
        c(Rank::Two, Suit::Spades),
        c(Rank::King, Suit::Clubs),
    ];
    assert_eq!(evaluate_hand(&h), HandRank::ThreeOfKind(Rank::Seven));
}

#[test]
fn two_pairs_high_first() {
    let h = [
        c(Rank::Four, Suit::Clubs),
        c(Rank::King, Suit::Hearts),
        c(Rank::Four, Suit::Spades),
        c(Rank::King, Suit::Spades),
        c(Rank::Nine, Suit::Clubs),
    ];
    assert_eq!(evaluate_hand(&h), HandRank::TwoPair(Rank::King, Rank::Four));
}

#[test]
fn three_pairs_count_as_no_pair() {
    let h = [
        c(Rank::Four, Suit::Clubs),
        c(Rank::King, Suit::Hearts),
        c(Rank::Four, Suit::Spades),
        c(Rank::King, Suit::Spades),
        c(Rank::Nine, Suit::Clubs),
        c(Rank::Nine, Suit::Hearts),
        c(Rank::Two, Suit::Hearts),
    ];
    assert_eq!(evaluate_hand(&h), HandRank::HighCard(Rank::King));
}

#[test]
fn one_pair() {
    let h = [
        c(Rank::Jack, Suit::Clubs),
        c(Rank::Jack, Suit::Hearts),
        c(Rank::Two, Suit::Spades),
        c(Rank::Eight, Suit::Spades),
        c(Rank::Nine, Suit::Clubs),
    ];
    assert_eq!(evaluate_hand(&h), HandRank::Pair(Rank::Jack));
}

#[test]
fn high_card() {
    let h = [
        c(Rank::Jack, Suit::Clubs),
        c(Rank::Three, Suit::Hearts),
        c(Rank::Two, Suit::Spades),
        c(Rank::Eight, Suit::Spades),
        c(Rank::Nine, Suit::Clubs),
    ];
    assert_eq!(evaluate_hand(&h), HandRank::HighCard(Rank::Jack));
}

#[test]
fn a_single_card_is_a_straight_flush() {
    assert_eq!(
        evaluate_hand(&[c(Rank::Five, Suit::Hearts)]),
        HandRank::StraightFlush(Rank::Five)
    );
}

#[test]
fn order_of_cards_does_not_matter() {
    let mut h = vec![
        c(Rank::Four, Suit::Clubs),
        c(Rank::King, Suit::Hearts),
        c(Rank::Four, Suit::Spades),
        c(Rank::King, Suit::Spades),
        c(Rank::Nine, Suit::Clubs),
    ];
    let first = evaluate_hand(&h);
    h.reverse();
    assert_eq!(evaluate_hand(&h), first);
}

#[test]
fn strength_orders_hands_as_their_order() {
    let hands = [
        HandRank::HighCard(Rank::Ace),
        HandRank::Pair(Rank::Two),
        HandRank::Pair(Rank::Three),
        HandRank::TwoPair(Rank::Three, Rank::Two),
        HandRank::TwoPair(Rank::Three, Rank::Four),
        HandRank::TwoPair(Rank::Four, Rank::Two),
        HandRank::ThreeOfKind(Rank::Two),
        HandRank::Straight(Rank::Five),
        HandRank::Flush(Rank::Seven),
        HandRank::FullHouse(Rank::Two, Rank::Three),
        HandRank::FullHouse(Rank::Two, Rank::Ace),
        HandRank::FourOfKind(Rank::Two),
        HandRank::StraightFlush(Rank::Five),
    ];
    for a in hands.iter() {
        for b in hands.iter() {
            assert_eq!(a.strength() < b.strength(), a < b);
            assert_eq!(a.strength() == b.strength(), a == b);
        }
    }
    assert_eq!(HandRank::Pair(Rank::Ace).strength(), 225 + 14 * 15);
}

#[test]
fn rank_values() {
    assert_eq!(Rank::Two.value(), 2);
    assert_eq!(Rank::Ten.value(), 10);
    assert_eq!(Rank::Ace.value(), 14);
    assert_eq!(Rank::from_value(11), Rank::Jack);
}

#[test]
fn labels() {
    assert_eq!(c(Rank::Ten, Suit::Hearts).label(), "10♥");
    assert_eq!(c(Rank::Ten, Suit::Hearts).short_label(), "T♥");
    assert_eq!(c(Rank::Ace, Suit::Spades).label(), "A♠");
    assert_eq!(c(Rank::Two, Suit::Clubs).short_label(), "2♣");
    assert_eq!(Rank::Queen.label(), "Q");
    assert_eq!(Suit::Diamonds.label(), "♦");
    assert_eq!(Rank::Nine.name(), "Nine");
}

#[test]
fn hand_text_names_variant_and_ranks() {
    assert_eq!(HandRank::Pair(Rank::Ace).text(), "Pair(Ace)");
    assert_eq!(
        HandRank::TwoPair(Rank::King, Rank::Four).text(),
        format!("{:?}", HandRank::TwoPair(Rank::King, Rank::Four))
    );
    assert_eq!(
        HandRank::FullHouse(Rank::Two, Rank::Ten).text(),
        "FullHouse(Two, Ten)"
    );
}
