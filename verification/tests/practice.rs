use pocker_back::card::Deck;
use pocker_back::practice::{practice_round, tmp_two_player};

#[test]
fn a_practice_round_from_an_unshuffled_deck() {
    let lines = practice_round(Deck::new());
    assert_eq!(
        lines,
        vec![
            " ",
            "===========================",
            "Player 1: A♠ K♠",
            "Player 2: A♠ K♠",
            "Table: [\"10♠\", \"9♠\", \"8♠\", \"7♠\", \"6♠\"]",
            "P1 hand: Flush(Ace)",
            "P2 hand: StraightFlush(Queen)",
            "Player 2 wins!",
            "===========================",
        ]
    );
}

#[test]
fn a_shuffled_practice_round() {
    let lines = tmp_two_player();
    assert_eq!(lines.len(), 9);
    assert_eq!(lines[0], " ");
    assert!(lines[2].starts_with("Player 1: "));
    assert!(lines[4].starts_with("Table: ["));
    assert!(
        lines[7] == "Player 1 wins!" || lines[7] == "Player 2 wins!" || lines[7] == "It's a tie!"
    );
}
