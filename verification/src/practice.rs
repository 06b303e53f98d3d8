//! A practice round for two players with a shuffled deck, written out as
//! lines of text.
use crate::card::{
    evaluate_hand, fresh_deck, hand_key, hand_rank_lt, hand_rank_of, hand_text,
    lemma_hand_key_orders_hands, rank_text, suit_text, Card, Deck, HandRank,
};
use crate::text::texts_view;
use vstd::prelude::*;

verus! {

/// A card as written by `Card::label`.
pub open spec fn card_text(c: Card) -> Seq<char> {
    rank_text(c.rank) + suit_text(c.suit)
}

/// The cards written as a bracketed list of quoted labels, e.g. `["2♣", "A♥"]`.
pub open spec fn cards_list_text(cs: Seq<Card>) -> Seq<char> {
    "["@ + quoted_labels(cs) + "]"@
}

/// The quoted labels of the cards, separated by ", ".
pub open spec fn quoted_labels(cs: Seq<Card>) -> Seq<char>
    decreases cs.len(),
{
    if cs.len() == 0 {
        Seq::empty()
    } else if cs.len() == 1 {
        "\""@ + card_text(cs[0]) + "\""@
    } else {
        quoted_labels(cs.drop_last()) + ", \""@ + card_text(cs.last()) + "\""@
    }
}

/// Who wins when the first player holds `a` and the second `b`.
pub open spec fn verdict_text(a: HandRank, b: HandRank) -> Seq<char> {
    if hand_key(a) > hand_key(b) {
        "Player 1 wins!"@
    } else if hand_key(a) < hand_key(b) {
        "Player 2 wins!"@
    } else {
        "It's a tie!"@
    }
}

/// The rule that frames the practice round.
pub open spec fn rule_text() -> Seq<char> {
    "==========================="@
}

/// The lines of a practice round dealt from `d` (top of the deck last):
/// two cards to the first player, two to the second, five to the table.
/// The line for the second player shows the first player's cards.
pub open spec fn practice_lines(d: Seq<Card>) -> Seq<Seq<char>> {
    let n = d.len();
    let p1 = seq![d[n - 1], d[n - 2]];
    let p2 = seq![d[n - 3], d[n - 4]];
    let t = seq![d[n - 5], d[n - 6], d[n - 7], d[n - 8], d[n - 9]];
    let h1 = hand_rank_of(p1 + t);
    let h2 = hand_rank_of(p2 + t);
    let players = card_text(p1[0]) + " "@ + card_text(p1[1]);
    seq![
        " "@,
        rule_text(),
        "Player 1: "@ + players,
        "Player 2: "@ + players,
        "Table: "@ + cards_list_text(t),
        "P1 hand: "@ + hand_text(h1),
        "P2 hand: "@ + hand_text(h2),
        verdict_text(h1, h2),
        rule_text(),
    ]
}

fn cards_list(cs: &Vec<Card>) -> (s: String)
    ensures
        s@ == cards_list_text(cs@),
{
    let mut s = String::from_str("[");
    let n = cs.len();
    let mut i: usize = 0;
    assert(cs@.take(0) =~= Seq::<Card>::empty());
    assert(s@ =~= "["@ + quoted_labels(cs@.take(0)));
    while i < n
        invariant
            n == cs@.len(),
            i <= n,
            s@ == "["@ + quoted_labels(cs@.take(i as int)),
        decreases n - i,
    {
        let label = cs[i].label();
        let ghost before = s@;
        if i == 0 {
            s = s.concat("\"");
        } else {
            s = s.concat(", \"");
        }
        s = s.concat(label.as_str());
        s = s.concat("\"");
        proof {
            assert(cs@.take(i + 1).drop_last() =~= cs@.take(i as int));
            assert(cs@.take(i + 1).last() == cs@[i as int]);
            if i == 0 {
                assert(cs@.take(1)[0] == cs@[0]);
                assert(s@ =~= "["@ + quoted_labels(cs@.take(i + 1)));
            } else {
                assert(s@ =~= "["@ + quoted_labels(cs@.take(i + 1)));
            }
        }
        i = i + 1;
    }
    assert(cs@.take(n as int) =~= cs@);
    s.concat("]")
}

/// The lines of a practice round dealt from the given deck.
pub fn practice_round(mut deck: Deck) -> (lines: Vec<String>)
    requires
        deck@.len() >= 9,
    ensures
        texts_view(lines@) == practice_lines(deck@),
{
    let ghost d = deck@;
    let a1 = deck.deal();
    let a2 = deck.deal();
    let b1 = deck.deal();
    let b2 = deck.deal();
    let t1 = deck.deal();
    let t2 = deck.deal();
    let t3 = deck.deal();
    let t4 = deck.deal();
    let t5 = deck.deal();
    let player1 = vec![a1, a2];
    let player2 = vec![b1, b2];
    let table = vec![t1, t2, t3, t4, t5];
    let mut out: Vec<String> = Vec::new();
    out.push(String::from_str(" "));
    out.push(String::from_str("==========================="));
    let c1 = player1[0].label();
    let c2 = player1[1].label();
    let shown = c1.concat(" ").concat(c2.as_str());
    out.push(String::from_str("Player 1: ").concat(shown.as_str()));
    out.push(String::from_str("Player 2: ").concat(shown.as_str()));
    out.push(String::from_str("Table: ").concat(cards_list(&table).as_str()));
    let hand1 = vec![a1, a2, t1, t2, t3, t4, t5];
    let hand2 = vec![b1, b2, t1, t2, t3, t4, t5];
    let p1_best = evaluate_hand(hand1.as_slice());
    let p2_best = evaluate_hand(hand2.as_slice());
    out.push(String::from_str("P1 hand: ").concat(p1_best.text().as_str()));
    out.push(String::from_str("P2 hand: ").concat(p2_best.text().as_str()));
    let k1 = p1_best.strength();
    let k2 = p2_best.strength();
    if k1 > k2 {
        out.push(String::from_str("Player 1 wins!"));
    } else if k1 < k2 {
        out.push(String::from_str("Player 2 wins!"));
    } else {
        out.push(String::from_str("It's a tie!"));
    }
    out.push(String::from_str("==========================="));
    proof {
        let n = d.len();
        assert(hand1@ =~= seq![d[n - 1], d[n - 2]] + seq![d[n - 5], d[n - 6], d[n - 7], d[n - 8], d[n - 9]]);
        assert(hand2@ =~= seq![d[n - 3], d[n - 4]] + seq![d[n - 5], d[n - 6], d[n - 7], d[n - 8], d[n - 9]]);
        assert(table@ =~= seq![d[n - 5], d[n - 6], d[n - 7], d[n - 8], d[n - 9]]);
        assert(texts_view(out@) =~= practice_lines(d));
    }
    out
}

/// Shuffles a fresh deck and plays a practice round for two players.
pub fn tmp_two_player() -> (lines: Vec<String>)
    ensures
        exists|d: Seq<Card>|
            d.len() == 52 && d.to_multiset() == fresh_deck().to_multiset() && texts_view(lines@)
                == practice_lines(d),
{
    let mut deck = Deck::new();
    deck.shuffle();
    practice_round(deck)
}

/// The seven cards of the first player in a practice round dealt from `d`:
/// the two top cards and the five table cards that follow the second
/// player's two.
pub open spec fn first_player_cards(d: Seq<Card>) -> Seq<Card> {
    let n = d.len();
    seq![d[n - 1], d[n - 2], d[n - 5], d[n - 6], d[n - 7], d[n - 8], d[n - 9]]
}

/// The seven cards of the second player: the third and fourth cards from
/// the top and the same five table cards.
pub open spec fn second_player_cards(d: Seq<Card>) -> Seq<Card> {
    let n = d.len();
    seq![d[n - 3], d[n - 4], d[n - 5], d[n - 6], d[n - 7], d[n - 8], d[n - 9]]
}

/// The verdict of a practice round names player 1 exactly when player 1's
/// hand ranks above player 2's, player 2 exactly when it ranks below, and a
/// tie exactly when the two hands are equal.
pub proof fn lemma_verdict_names_winner(d: Seq<Card>)
    requires
        d.len() >= 9,
    ensures
        (practice_lines(d)[7] == "Player 1 wins!"@) <==> hand_rank_lt(
            hand_rank_of(second_player_cards(d)),
            hand_rank_of(first_player_cards(d)),
        ),
        (practice_lines(d)[7] == "Player 2 wins!"@) <==> hand_rank_lt(
            hand_rank_of(first_player_cards(d)),
            hand_rank_of(second_player_cards(d)),
        ),
        (practice_lines(d)[7] == "It's a tie!"@) <==> hand_rank_of(first_player_cards(d))
            == hand_rank_of(second_player_cards(d)),
{
    let n = d.len();
    let t = seq![d[n - 5], d[n - 6], d[n - 7], d[n - 8], d[n - 9]];
    assert(seq![d[n - 1], d[n - 2]] + t =~= first_player_cards(d));
    assert(seq![d[n - 3], d[n - 4]] + t =~= second_player_cards(d));
    let h1 = hand_rank_of(first_player_cards(d));
    let h2 = hand_rank_of(second_player_cards(d));
    lemma_hand_key_orders_hands(h1, h2);
    lemma_hand_key_orders_hands(h2, h1);
    reveal_strlit("Player 1 wins!");
    reveal_strlit("Player 2 wins!");
    reveal_strlit("It's a tie!");
    assert("Player 1 wins!"@[7] != "Player 2 wins!"@[7]);
    assert("Player 1 wins!"@.len() != "It's a tie!"@.len());
    assert("Player 2 wins!"@.len() != "It's a tie!"@.len());
    assert(practice_lines(d)[7] == verdict_text(h1, h2));
}

} // verus!
