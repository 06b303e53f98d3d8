//! Cards, decks and the ranking of a poker hand.
use rand::seq::SliceRandom;
use vstd::prelude::*;

verus! {

/// The four suits of a French deck.
#[derive(Clone, Copy, Debug, PartialEq, Eq, Structural, PartialOrd, Ord, Hash)]
pub enum Suit {
    Clubs,
    Diamonds,
    Hearts,
    Spades,
}

/// Card ranks, from Two (value 2) up to Ace (value 14).
#[derive(Clone, Copy, Debug, PartialEq, Eq, Structural, PartialOrd, Ord, Hash)]
pub enum Rank {
    Two,
    Three,
    Four,
    Five,
    Six,
    Seven,
    Eight,
    Nine,
    Ten,
    Jack,
    Queen,
    King,
    Ace,
}

/// A playing card.
#[derive(Clone, Copy, Debug, PartialEq, Eq, Structural, PartialOrd, Ord, Hash)]
pub struct Card {
    pub rank: Rank,
    pub suit: Suit,
}

/// The numeric value of a rank: Two is 2, ..., Ten is 10, Jack 11, Queen 12,
/// King 13 and Ace 14.
pub open spec fn rank_value(r: Rank) -> int {
    match r {
        Rank::Two => 2,
        Rank::Three => 3,
        Rank::Four => 4,
        Rank::Five => 5,
        Rank::Six => 6,
        Rank::Seven => 7,
        Rank::Eight => 8,
        Rank::Nine => 9,
        Rank::Ten => 10,
        Rank::Jack => 11,
        Rank::Queen => 12,
        Rank::King => 13,
        Rank::Ace => 14,
    }
}

/// The rank whose value is `v` (meaningful for `2 <= v <= 14`).
pub open spec fn rank_of_value(v: int) -> Rank {
    if v <= 2 {
        Rank::Two
    } else if v == 3 {
        Rank::Three
    } else if v == 4 {
        Rank::Four
    } else if v == 5 {
        Rank::Five
    } else if v == 6 {
        Rank::Six
    } else if v == 7 {
        Rank::Seven
    } else if v == 8 {
        Rank::Eight
    } else if v == 9 {
        Rank::Nine
    } else if v == 10 {
        Rank::Ten
    } else if v == 11 {
        Rank::Jack
    } else if v == 12 {
        Rank::Queen
    } else if v == 13 {
        Rank::King
    } else {
        Rank::Ace
    }
}

/// The position of a suit in the order Clubs, Diamonds, Hearts, Spades.
pub open spec fn suit_index(s: Suit) -> int {
    match s {
        Suit::Clubs => 0,
        Suit::Diamonds => 1,
        Suit::Hearts => 2,
        Suit::Spades => 3,
    }
}

/// The suit at position `i` of the order Clubs, Diamonds, Hearts, Spades.
pub open spec fn suit_of_index(i: int) -> Suit {
    if i <= 0 {
        Suit::Clubs
    } else if i == 1 {
        Suit::Diamonds
    } else if i == 2 {
        Suit::Hearts
    } else {
        Suit::Spades
    }
}

pub proof fn lemma_rank_value_roundtrip(r: Rank)
    ensures
        2 <= rank_value(r) <= 14,
        rank_of_value(rank_value(r)) == r,
{
}

impl Rank {
    /// The numeric value of the rank (2 for Two, ..., 14 for Ace).
    pub fn value(&self) -> (v: u8)
        ensures
            v == rank_value(*self),
    {
        match self {
            Rank::Two => 2,
            Rank::Three => 3,
            Rank::Four => 4,
            Rank::Five => 5,
            Rank::Six => 6,
            Rank::Seven => 7,
            Rank::Eight => 8,
            Rank::Nine => 9,
            Rank::Ten => 10,
            Rank::Jack => 11,
            Rank::Queen => 12,
            Rank::King => 13,
            Rank::Ace => 14,
        }
    }

    /// The rank whose value is `v`.
    pub fn from_value(v: u8) -> (r: Rank)
        requires
            2 <= v <= 14,
        ensures
            r == rank_of_value(v as int),
            rank_value(r) == v,
    {
        if v <= 2 {
            Rank::Two
        } else if v == 3 {
            Rank::Three
        } else if v == 4 {
            Rank::Four
        } else if v == 5 {
            Rank::Five
        } else if v == 6 {
            Rank::Six
        } else if v == 7 {
            Rank::Seven
        } else if v == 8 {
            Rank::Eight
        } else if v == 9 {
            Rank::Nine
        } else if v == 10 {
            Rank::Ten
        } else if v == 11 {
            Rank::Jack
        } else if v == 12 {
            Rank::Queen
        } else if v == 13 {
            Rank::King
        } else {
            Rank::Ace
        }
    }
}

impl Suit {
    fn from_index(i: u8) -> (s: Suit)
        requires
            i < 4,
        ensures
            s == suit_of_index(i as int),
            suit_index(s) == i,
    {
        if i == 0 {
            Suit::Clubs
        } else if i == 1 {
            Suit::Diamonds
        } else if i == 2 {
            Suit::Hearts
        } else {
            Suit::Spades
        }
    }
}

/// The `i`-th card of a fresh deck: suits in the order Clubs, Diamonds,
/// Hearts, Spades, and within a suit the ranks from Two up to Ace.
pub open spec fn fresh_deck_card(i: int) -> Card {
    Card { rank: rank_of_value(2 + i % 13), suit: suit_of_index(i / 13) }
}

/// The 52 cards of a fresh deck, in order.
pub open spec fn fresh_deck() -> Seq<Card> {
    Seq::new(52, |i: int| fresh_deck_card(i))
}

/// Position of a card in a fresh deck.
pub open spec fn card_index(c: Card) -> int {
    suit_index(c.suit) * 13 + rank_value(c.rank) - 2
}

/// A fresh deck holds each of the 52 cards exactly once: no card twice, and
/// every card somewhere.
pub proof fn lemma_fresh_deck_is_complete()
    ensures
        fresh_deck().len() == 52,
        fresh_deck().no_duplicates(),
        forall|c: Card| #[trigger] fresh_deck().contains(c),
        forall|c: Card| fresh_deck()[card_index(c)] == c,
{
    assert forall|i: int| 0 <= i < 52 implies card_index(#[trigger] fresh_deck_card(i)) == i by {
        assert(0 <= i % 13 < 13 && 0 <= i / 13 < 4 && i == (i / 13) * 13 + i % 13)
            by (nonlinear_arith)
            requires
                0 <= i < 52,
        ;
    }
    assert forall|c: Card| 0 <= card_index(c) < 52 && fresh_deck()[card_index(c)] == c by {
        let i = card_index(c);
        lemma_rank_value_roundtrip(c.rank);
        assert(i % 13 == rank_value(c.rank) - 2 && i / 13 == suit_index(c.suit)) by (nonlinear_arith)
            requires
                i == suit_index(c.suit) * 13 + rank_value(c.rank) - 2,
                0 <= rank_value(c.rank) - 2 < 13,
                0 <= suit_index(c.suit) < 4,
        ;
    }
    assert forall|c: Card| #[trigger] fresh_deck().contains(c) by {
        assert(fresh_deck()[card_index(c)] == c);
    }
    assert forall|i: int, j: int|
        0 <= i < 52 && 0 <= j < 52 && i != j implies fresh_deck()[i] != fresh_deck()[j] by {
        assert(card_index(fresh_deck_card(i)) == i);
        assert(card_index(fresh_deck_card(j)) == j);
    }
}

/// A deck of cards; the top of the deck is the last card of the sequence.
#[derive(Clone, Debug, PartialEq, Eq, PartialOrd, Ord, Hash)]
pub struct Deck {
    cards: Vec<Card>,
}

impl View for Deck {
    type V = Seq<Card>;

    closed spec fn view(&self) -> Seq<Card> {
        self.cards@
    }
}

impl Deck {
    /// A fresh deck of 52 cards, ordered by suit and then by rank.
    pub fn new() -> (d: Deck)
        ensures
            d@ == fresh_deck(),
    {
        let mut cards: Vec<Card> = Vec::new();
        let mut s: u8 = 0;
        while s < 4
            invariant
                s <= 4,
                cards@.len() == 13 * s,
                forall|i: int| 0 <= i < cards@.len() ==> cards@[i] == fresh_deck_card(i),
            decreases 4 - s,
        {
            let suit = Suit::from_index(s);
            let mut r: u8 = 0;
            while r < 13
                invariant
                    s < 4,
                    r <= 13,
                    suit == suit_of_index(s as int),
                    cards@.len() == 13 * s + r,
                    forall|i: int| 0 <= i < cards@.len() ==> cards@[i] == fresh_deck_card(i),
                decreases 13 - r,
            {
                let rank = Rank::from_value(r + 2);
                proof {
                    let i = 13 * s + r;
                    assert(i % 13 == r as int && i / 13 == s as int) by (nonlinear_arith)
                        requires
                            i == 13 * s + r,
                            r < 13,
                    ;
                }
                cards.push(Card { rank, suit });
                r = r + 1;
            }
            s = s + 1;
        }
        assert(cards@ =~= fresh_deck());
        Deck { cards }
    }

    /// Number of cards left in the deck.
    pub fn len(&self) -> (n: usize)
        ensures
            n == self@.len(),
    {
        self.cards.len()
    }

    /// Takes the top card off the deck.
    pub fn deal(&mut self) -> (c: Card)
        requires
            old(self)@.len() > 0,
        ensures
            c == old(self)@.last(),
            final(self)@ == old(self)@.drop_last(),
    {
        match self.cards.pop() {
            Some(c) => c,
            None => {
                proof {
                    assert(false);
                }
                Card { rank: Rank::Two, suit: Suit::Clubs }
            },
        }
    }

    /// Shuffles the deck in place; the deck keeps exactly the same cards.
    pub fn shuffle(&mut self)
        ensures
            final(self)@.to_multiset() == old(self)@.to_multiset(),
            final(self)@.len() == old(self)@.len(),
    {
        shuffle_cards(&mut self.cards);
    }
}

/// Calls `rand::seq::SliceRandom::shuffle` on the cards with the thread-local
/// generator of `rand::thread_rng`. That function only swaps elements of the
/// slice, so what comes out is a permutation of what went in; which
/// permutation depends on chance and is not stated.
#[verifier::external_body]
fn shuffle_cards(cards: &mut Vec<Card>)
    ensures
        final(cards)@.to_multiset() == old(cards)@.to_multiset(),
        final(cards)@.len() == old(cards)@.len(),
{
    cards.shuffle(&mut rand::thread_rng());
}

} // verus!

verus! {

/// The category of a poker hand, with the ranks that decide between two
/// hands of the same category. Hands compare by category first (in the order
/// of the variants) and then by their ranks, left to right.
#[derive(Clone, Copy, Debug, PartialEq, Eq, Structural, PartialOrd, Ord, Hash)]
pub enum HandRank {
    HighCard(Rank),
    Pair(Rank),
    TwoPair(Rank, Rank),
    ThreeOfKind(Rank),
    Straight(Rank),
    Flush(Rank),
    FullHouse(Rank, Rank),
    FourOfKind(Rank),
    StraightFlush(Rank),
}

/// Position of the hand's variant, from 0 for `HighCard` to 8 for `StraightFlush`.
pub open spec fn hand_category(h: HandRank) -> int {
    match h {
        HandRank::HighCard(_) => 0,
        HandRank::Pair(_) => 1,
        HandRank::TwoPair(_, _) => 2,
        HandRank::ThreeOfKind(_) => 3,
        HandRank::Straight(_) => 4,
        HandRank::Flush(_) => 5,
        HandRank::FullHouse(_, _) => 6,
        HandRank::FourOfKind(_) => 7,
        HandRank::StraightFlush(_) => 8,
    }
}

/// Value of the hand's first rank.
pub open spec fn hand_primary(h: HandRank) -> int {
    match h {
        HandRank::HighCard(r) => rank_value(r),
        HandRank::Pair(r) => rank_value(r),
        HandRank::TwoPair(r, _) => rank_value(r),
        HandRank::ThreeOfKind(r) => rank_value(r),
        HandRank::Straight(r) => rank_value(r),
        HandRank::Flush(r) => rank_value(r),
        HandRank::FullHouse(r, _) => rank_value(r),
        HandRank::FourOfKind(r) => rank_value(r),
        HandRank::StraightFlush(r) => rank_value(r),
    }
}

/// Value of the hand's second rank, 0 for variants with a single rank.
pub open spec fn hand_secondary(h: HandRank) -> int {
    match h {
        HandRank::TwoPair(_, r) => rank_value(r),
        HandRank::FullHouse(_, r) => rank_value(r),
        _ => 0,
    }
}

/// The order of hands: by category, then first rank, then second rank.
pub open spec fn hand_rank_lt(a: HandRank, b: HandRank) -> bool {
    ||| hand_category(a) < hand_category(b)
    ||| hand_category(a) == hand_category(b) && hand_primary(a) < hand_primary(b)
    ||| hand_category(a) == hand_category(b) && hand_primary(a) == hand_primary(b)
        && hand_secondary(a) < hand_secondary(b)
}

/// A single number that orders hands as `hand_rank_lt` does.
pub open spec fn hand_key(h: HandRank) -> int {
    hand_category(h) * 225 + hand_primary(h) * 15 + hand_secondary(h)
}

/// Comparing `hand_key`s is comparing hands: the key is smaller exactly when
/// the hand is lower, and equal exactly when the hands are equal.
pub proof fn lemma_hand_key_orders_hands(a: HandRank, b: HandRank)
    ensures
        hand_key(a) < hand_key(b) <==> hand_rank_lt(a, b),
        hand_key(a) == hand_key(b) <==> a == b,
        0 <= hand_key(a) < 2025,
{
    match a {
        HandRank::TwoPair(x, y) => {
            lemma_rank_value_roundtrip(x);
            lemma_rank_value_roundtrip(y);
        },
        HandRank::FullHouse(x, y) => {
            lemma_rank_value_roundtrip(x);
            lemma_rank_value_roundtrip(y);
        },
        _ => {},
    }
    match b {
        HandRank::TwoPair(x, y) => {
            lemma_rank_value_roundtrip(x);
            lemma_rank_value_roundtrip(y);
        },
        HandRank::FullHouse(x, y) => {
            lemma_rank_value_roundtrip(x);
            lemma_rank_value_roundtrip(y);
        },
        _ => {},
    }
}

impl HandRank {
    /// The hand's `hand_key`; a larger strength is a better hand.
    pub fn strength(&self) -> (k: u16)
        ensures
            k == hand_key(*self),
    {
        match self {
            HandRank::HighCard(r) => r.value() as u16 * 15,
            HandRank::Pair(r) => 225 + r.value() as u16 * 15,
            HandRank::TwoPair(r, s) => 450 + r.value() as u16 * 15 + s.value() as u16,
            HandRank::ThreeOfKind(r) => 675 + r.value() as u16 * 15,
            HandRank::Straight(r) => 900 + r.value() as u16 * 15,
            HandRank::Flush(r) => 1125 + r.value() as u16 * 15,
            HandRank::FullHouse(r, s) => 1350 + r.value() as u16 * 15 + s.value() as u16,
            HandRank::FourOfKind(r) => 1575 + r.value() as u16 * 15,
            HandRank::StraightFlush(r) => 1800 + r.value() as u16 * 15,
        }
    }
}

/// Number of cards whose rank has value `v`.
pub open spec fn rank_count(cards: Seq<Card>, v: int) -> nat
    decreases cards.len(),
{
    if cards.len() == 0 {
        0
    } else {
        rank_count(cards.drop_last(), v) + if rank_value(cards.last().rank) == v {
            1nat
        } else {
            0nat
        }
    }
}

/// Highest rank value among the cards.
pub open spec fn max_rank_value(cards: Seq<Card>) -> int
    decreases cards.len(),
{
    if cards.len() <= 1 {
        rank_value(cards[0].rank)
    } else {
        let m = max_rank_value(cards.drop_last());
        let l = rank_value(cards.last().rank);
        if l > m {
            l
        } else {
            m
        }
    }
}

/// Lowest rank value among the cards.
pub open spec fn min_rank_value(cards: Seq<Card>) -> int
    decreases cards.len(),
{
    if cards.len() <= 1 {
        rank_value(cards[0].rank)
    } else {
        let m = min_rank_value(cards.drop_last());
        let l = rank_value(cards.last().rank);
        if l < m {
            l
        } else {
            m
        }
    }
}

/// All cards have the suit of the first one.
pub open spec fn same_suit(cards: Seq<Card>) -> bool {
    forall|i: int| 0 <= i < cards.len() ==> (#[trigger] cards[i]).suit == cards[0].suit
}

/// No rank occurs twice.
pub open spec fn distinct_ranks(cards: Seq<Card>) -> bool {
    forall|v: int| 2 <= v <= 14 ==> rank_count(cards, v) <= 1
}

/// Exactly the ranks Two, Three, Four, Five and Ace.
pub open spec fn is_wheel(cards: Seq<Card>) -> bool {
    &&& cards.len() == 5
    &&& rank_count(cards, 2) == 1
    &&& rank_count(cards, 3) == 1
    &&& rank_count(cards, 4) == 1
    &&& rank_count(cards, 5) == 1
    &&& rank_count(cards, 14) == 1
}

/// Sorted by rank, each card is one rank above the one before it; or the
/// cards are exactly the ranks Two to Five and an Ace.
pub open spec fn is_straight(cards: Seq<Card>) -> bool {
    ||| distinct_ranks(cards) && max_rank_value(cards) - min_rank_value(cards) == cards.len() - 1
    ||| is_wheel(cards)
}

/// Some rank occurs exactly `k` times.
pub open spec fn has_rank_count(cards: Seq<Card>, k: nat) -> bool {
    exists|v: int| 2 <= v <= 14 && rank_count(cards, v) == k
}

/// The highest rank value at most `v` that occurs exactly `k` times; 0 if none.
pub open spec fn top_rank_with_count(cards: Seq<Card>, k: nat, v: int) -> int
    decreases v,
{
    if v < 2 {
        0
    } else if rank_count(cards, v) == k {
        v
    } else {
        top_rank_with_count(cards, k, v - 1)
    }
}

/// The lowest rank value at least `v` that occurs exactly `k` times; 0 if none.
pub open spec fn low_rank_with_count(cards: Seq<Card>, k: nat, v: int) -> int
    decreases 15 - v,
{
    if v > 14 {
        0
    } else if rank_count(cards, v) == k {
        v
    } else {
        low_rank_with_count(cards, k, v + 1)
    }
}

/// How many rank values from `v` up to 14 occur exactly twice.
pub open spec fn pair_count_from(cards: Seq<Card>, v: int) -> nat
    decreases 15 - v,
{
    if v > 14 {
        0
    } else {
        (if rank_count(cards, v) == 2 {
            1nat
        } else {
            0nat
        }) + pair_count_from(cards, v + 1)
    }
}

/// The hand that `evaluate_hand` finds in the cards. The checks come in this
/// order: straight flush, four of a kind, full house, flush, straight, three
/// of a kind, two pairs, one pair, high card. A straight here needs all the
/// cards to be in sequence (or to be exactly Two to Five and an Ace), and
/// three pairs count as no pair. Where several ranks occur the same number of
/// times, the highest of them is the one named.
pub open spec fn hand_rank_of(cards: Seq<Card>) -> HandRank {
    let hi = rank_of_value(max_rank_value(cards));
    let flush = same_suit(cards);
    let straight = is_straight(cards);
    if straight && flush {
        HandRank::StraightFlush(hi)
    } else if has_rank_count(cards, 4) {
        HandRank::FourOfKind(rank_of_value(top_rank_with_count(cards, 4, 14)))
    } else if has_rank_count(cards, 3) && has_rank_count(cards, 2) {
        HandRank::FullHouse(
            rank_of_value(top_rank_with_count(cards, 3, 14)),
            rank_of_value(top_rank_with_count(cards, 2, 14)),
        )
    } else if flush {
        HandRank::Flush(hi)
    } else if straight {
        HandRank::Straight(hi)
    } else if has_rank_count(cards, 3) {
        HandRank::ThreeOfKind(rank_of_value(top_rank_with_count(cards, 3, 14)))
    } else if pair_count_from(cards, 2) == 2 {
        HandRank::TwoPair(
            rank_of_value(top_rank_with_count(cards, 2, 14)),
            rank_of_value(low_rank_with_count(cards, 2, 2)),
        )
    } else if pair_count_from(cards, 2) == 1 {
        HandRank::Pair(rank_of_value(top_rank_with_count(cards, 2, 14)))
    } else {
        HandRank::HighCard(hi)
    }
}

proof fn lemma_rank_count_bounds(cards: Seq<Card>, v: int)
    ensures
        rank_count(cards, v) <= cards.len(),
        (v < 2 || v > 14) ==> rank_count(cards, v) == 0,
    decreases cards.len(),
{
    if cards.len() > 0 {
        lemma_rank_count_bounds(cards.drop_last(), v);
        lemma_rank_value_roundtrip(cards.last().rank);
    }
}

proof fn lemma_top_rank(cards: Seq<Card>, k: nat, v: int)
    requires
        v <= 14,
    ensures
        top_rank_with_count(cards, k, v) >= 2 <==> exists|w: int|
            2 <= w <= v && rank_count(cards, w) == k,
        top_rank_with_count(cards, k, v) >= 2 ==> top_rank_with_count(cards, k, v) <= v
            && rank_count(cards, top_rank_with_count(cards, k, v)) == k,
        top_rank_with_count(cards, k, v) < 2 ==> top_rank_with_count(cards, k, v) == 0,
    decreases v,
{
    if v >= 2 {
        lemma_top_rank(cards, k, v - 1);
        if rank_count(cards, v) != k {
            assert forall|w: int| 2 <= w <= v && rank_count(cards, w) == k implies w <= v - 1 by {}
        }
    }
}

proof fn lemma_max_min_rank(cards: Seq<Card>)
    requires
        cards.len() > 0,
    ensures
        2 <= min_rank_value(cards) <= max_rank_value(cards) <= 14,
    decreases cards.len(),
{
    lemma_rank_value_roundtrip(cards.last().rank);
    lemma_rank_value_roundtrip(cards[0].rank);
    if cards.len() > 1 {
        lemma_max_min_rank(cards.drop_last());
    }
}

/// Counts of each rank value: `counts[v]` is the number of cards of value `v`.
fn rank_counts(cards: &[Card]) -> (counts: Vec<usize>)
    ensures
        counts@.len() == 15,
        forall|v: int| 0 <= v < 15 ==> counts@[v] == rank_count(cards@, v),
{
    let mut counts: Vec<usize> = Vec::new();
    let mut j: usize = 0;
    while j < 15
        invariant
            j <= 15,
            counts@.len() == j,
            forall|v: int| 0 <= v < j ==> counts@[v] == 0,
        decreases 15 - j,
    {
        counts.push(0);
        j = j + 1;
    }
    let n = cards.len();
    let mut i: usize = 0;
    while i < n
        invariant
            n == cards@.len(),
            i <= n,
            counts@.len() == 15,
            forall|v: int| 0 <= v < 15 ==> counts@[v] == rank_count(cards@.take(i as int), v),
            forall|v: int| 0 <= v < 15 ==> counts@[v] <= i,
        decreases n - i,
    {
        let ghost before = cards@.take(i as int);
        let ghost after = cards@.take(i + 1);
        assert(after.drop_last() =~= before);
        let v = cards[i].rank.value() as usize;
        proof {
            lemma_rank_value_roundtrip(cards@[i as int].rank);
        }
        let c = counts[v];
        counts.set(v, c + 1);
        i = i + 1;
    }
    assert(cards@.take(n as int) =~= cards@);
    counts
}

/// Highest and lowest rank values among the cards.
fn rank_extremes(cards: &[Card]) -> (r: (u8, u8))
    requires
        cards@.len() > 0,
    ensures
        r.0 == max_rank_value(cards@),
        r.1 == min_rank_value(cards@),
{
    let n = cards.len();
    let mut hi = cards[0].rank.value();
    let mut lo = hi;
    let mut i: usize = 1;
    assert(cards@.take(1).drop_last() =~= Seq::<Card>::empty());
    while i < n
        invariant
            n == cards@.len(),
            1 <= i <= n,
            hi == max_rank_value(cards@.take(i as int)),
            lo == min_rank_value(cards@.take(i as int)),
        decreases n - i,
    {
        assert(cards@.take(i + 1).drop_last() =~= cards@.take(i as int));
        let v = cards[i].rank.value();
        if v > hi {
            hi = v;
        }
        if v < lo {
            lo = v;
        }
        i = i + 1;
    }
    assert(cards@.take(n as int) =~= cards@);
    (hi, lo)
}

/// Do all the cards have the suit of the first one?
fn all_same_suit(cards: &[Card]) -> (b: bool)
    requires
        cards@.len() > 0,
    ensures
        b == same_suit(cards@),
{
    let n = cards.len();
    let first = cards[0].suit;
    let mut i: usize = 0;
    while i < n
        invariant
            n == cards@.len(),
            i <= n,
            first == cards@[0].suit,
            forall|j: int| 0 <= j < i ==> cards@[j].suit == first,
        decreases n - i,
    {
        if cards[i].suit != first {
            return false;
        }
        i = i + 1;
    }
    true
}

/// The highest rank value occurring exactly `k` times, or 0.
fn top_with_count(counts: &Vec<usize>, k: usize, Ghost(cards): Ghost<Seq<Card>>) -> (v: u8)
    requires
        counts@.len() == 15,
        forall|w: int| 0 <= w < 15 ==> counts@[w] == rank_count(cards, w),
    ensures
        v == top_rank_with_count(cards, k as nat, 14),
{
    let mut v: u8 = 14;
    while v >= 2
        invariant
            1 <= v <= 14,
            counts@.len() == 15,
            forall|w: int| 0 <= w < 15 ==> counts@[w] == rank_count(cards, w),
            top_rank_with_count(cards, k as nat, 14) == top_rank_with_count(
                cards,
                k as nat,
                v as int,
            ),
        decreases v,
    {
        if counts[v as usize] == k {
            return v;
        }
        v = v - 1;
    }
    0
}

/// The lowest rank value occurring exactly `k` times, or 0.
fn low_with_count(counts: &Vec<usize>, k: usize, Ghost(cards): Ghost<Seq<Card>>) -> (v: u8)
    requires
        counts@.len() == 15,
        forall|w: int| 0 <= w < 15 ==> counts@[w] == rank_count(cards, w),
    ensures
        v == low_rank_with_count(cards, k as nat, 2),
{
    let mut v: u8 = 2;
    while v <= 14
        invariant
            2 <= v <= 15,
            counts@.len() == 15,
            forall|w: int| 0 <= w < 15 ==> counts@[w] == rank_count(cards, w),
            low_rank_with_count(cards, k as nat, 2) == low_rank_with_count(
                cards,
                k as nat,
                v as int,
            ),
        decreases 15 - v,
    {
        if counts[v as usize] == k {
            return v;
        }
        v = v + 1;
    }
    0
}

/// How many rank values occur exactly twice.
fn count_pairs(counts: &Vec<usize>, Ghost(cards): Ghost<Seq<Card>>) -> (n: u8)
    requires
        counts@.len() == 15,
        forall|w: int| 0 <= w < 15 ==> counts@[w] == rank_count(cards, w),
    ensures
        n == pair_count_from(cards, 2),
{
    let mut v: u8 = 15;
    let mut n: u8 = 0;
    while v > 2
        invariant
            2 <= v <= 15,
            n <= 15 - v,
            counts@.len() == 15,
            forall|w: int| 0 <= w < 15 ==> counts@[w] == rank_count(cards, w),
            n == pair_count_from(cards, v as int),
        decreases v,
    {
        v = v - 1;
        if counts[v as usize] == 2 {
            n = n + 1;
        }
    }
    n
}

/// Evaluates the poker hand held in `cards` (see `hand_rank_of`).
pub fn evaluate_hand(cards: &[Card]) -> (h: HandRank)
    requires
        cards@.len() > 0,
    ensures
        h == hand_rank_of(cards@),
{
    let ghost cs = cards@;
    let counts = rank_counts(cards);
    let (hi, lo) = rank_extremes(cards);
    proof {
        lemma_max_min_rank(cs);
        lemma_top_rank(cs, 4, 14);
        lemma_top_rank(cs, 3, 14);
        lemma_top_rank(cs, 2, 14);
    }
    let n = cards.len();
    let is_flush = all_same_suit(cards);
    let mut distinct = true;
    let mut v: usize = 2;
    while v <= 14
        invariant
            2 <= v <= 15,
            counts@.len() == 15,
            forall|w: int| 0 <= w < 15 ==> counts@[w] == rank_count(cs, w),
            distinct == forall|w: int| 2 <= w < v ==> rank_count(cs, w) <= 1,
        decreases 15 - v,
    {
        let c = counts[v];
        proof {
            assert(c == rank_count(cs, v as int));
            if distinct && c <= 1 {
                assert forall|w: int| 2 <= w < v + 1 implies rank_count(cs, w) <= 1 by {
                    if w < v {
                        assert(2 <= w < v ==> rank_count(cs, w) <= 1);
                    }
                }
            } else if !distinct {
                let w = choose|w: int| 2 <= w < v && !(rank_count(cs, w) <= 1);
                assert(2 <= w < v + 1 && !(rank_count(cs, w) <= 1));
            } else {
                assert(2 <= v < v + 1 && !(rank_count(cs, v as int) <= 1));
            }
        }
        if c > 1 {
            distinct = false;
        }
        v = v + 1;
    }
    let wheel = n == 5 && counts[2] == 1 && counts[3] == 1 && counts[4] == 1 && counts[5] == 1
        && counts[14] == 1;
    let is_straight = (distinct && (hi - lo) as usize + 1 == n) || wheel;
    let highest = Rank::from_value(hi);
    if is_straight && is_flush {
        return HandRank::StraightFlush(highest);
    }
    let four = top_with_count(&counts, 4, Ghost(cs));
    if four >= 2 {
        return HandRank::FourOfKind(Rank::from_value(four));
    }
    let three = top_with_count(&counts, 3, Ghost(cs));
    let two = top_with_count(&counts, 2, Ghost(cs));
    if three >= 2 && two >= 2 {
        return HandRank::FullHouse(Rank::from_value(three), Rank::from_value(two));
    }
    if is_flush {
        return HandRank::Flush(highest);
    }
    if is_straight {
        return HandRank::Straight(highest);
    }
    if three >= 2 {
        return HandRank::ThreeOfKind(Rank::from_value(three));
    }
    let pairs = count_pairs(&counts, Ghost(cs));
    proof {
        if pairs > 0 {
            lemma_pair_exists(cs, 2);
        }
    }
    if pairs == 2 {
        let low = low_with_count(&counts, 2, Ghost(cs));
        proof {
            lemma_low_rank(cs, 2, 2);
        }
        return HandRank::TwoPair(Rank::from_value(two), Rank::from_value(low));
    }
    if pairs == 1 {
        return HandRank::Pair(Rank::from_value(two));
    }
    HandRank::HighCard(highest)
}

proof fn lemma_pair_exists(cards: Seq<Card>, v: int)
    requires
        v >= 2,
        pair_count_from(cards, v) > 0,
    ensures
        exists|w: int| v <= w <= 14 && rank_count(cards, w) == 2,
    decreases 15 - v,
{
    if v <= 14 && rank_count(cards, v) != 2 {
        lemma_pair_exists(cards, v + 1);
    }
}

proof fn lemma_value_rank(v: int)
    requires
        2 <= v <= 14,
    ensures
        rank_value(rank_of_value(v)) == v,
{
}

proof fn lemma_top_is_highest(cards: Seq<Card>, k: nat, v: int, w: int)
    requires
        2 <= w <= v <= 14,
        rank_count(cards, w) == k,
    ensures
        top_rank_with_count(cards, k, v) >= w,
    decreases v,
{
    if rank_count(cards, v) != k {
        lemma_top_is_highest(cards, k, v - 1, w);
    }
}

proof fn lemma_low_is_lowest(cards: Seq<Card>, k: nat, v: int, w: int)
    requires
        2 <= v <= w <= 14,
        rank_count(cards, w) == k,
    ensures
        v <= low_rank_with_count(cards, k, v) <= w,
        rank_count(cards, low_rank_with_count(cards, k, v)) == k,
    decreases 15 - v,
{
    if rank_count(cards, v) != k {
        lemma_low_is_lowest(cards, k, v + 1, w);
    }
}

proof fn lemma_one_pair_counted(cards: Seq<Card>, v: int, b: int)
    requires
        2 <= v <= b <= 14,
        rank_count(cards, b) == 2,
    ensures
        pair_count_from(cards, v) >= 1,
    decreases 15 - v,
{
    if v < b {
        lemma_one_pair_counted(cards, v + 1, b);
    }
}

proof fn lemma_two_pairs_counted(cards: Seq<Card>, v: int, a: int, b: int)
    requires
        2 <= v <= a < b <= 14,
        rank_count(cards, a) == 2,
        rank_count(cards, b) == 2,
    ensures
        pair_count_from(cards, v) >= 2,
    decreases 15 - v,
{
    if v < a {
        lemma_two_pairs_counted(cards, v + 1, a, b);
    } else {
        lemma_one_pair_counted(cards, v + 1, b);
    }
}

proof fn lemma_pairs_split(cards: Seq<Card>, v: int)
    requires
        v >= 2,
        pair_count_from(cards, v) >= 2,
    ensures
        exists|a: int, b: int|
            v <= a < b <= 14 && rank_count(cards, a) == 2 && rank_count(cards, b) == 2,
    decreases 15 - v,
{
    if rank_count(cards, v) == 2 {
        lemma_pair_exists(cards, v + 1);
        let b = choose|w: int| v + 1 <= w <= 14 && rank_count(cards, w) == 2;
        assert(v <= v < b <= 14 && rank_count(cards, v) == 2 && rank_count(cards, b) == 2);
    } else {
        lemma_pairs_split(cards, v + 1);
    }
}

proof fn lemma_max_rank_attained(cards: Seq<Card>)
    requires
        cards.len() > 0,
    ensures
        exists|i: int| 0 <= i < cards.len() && rank_value(cards[i].rank) == max_rank_value(cards),
        forall|i: int| 0 <= i < cards.len() ==> rank_value(#[trigger] cards[i].rank) <= max_rank_value(cards),
    decreases cards.len(),
{
    if cards.len() > 1 {
        let r = cards.drop_last();
        lemma_max_rank_attained(r);
        if rank_value(cards.last().rank) > max_rank_value(r) {
            assert(rank_value(cards[cards.len() - 1].rank) == max_rank_value(cards));
        } else {
            let i = choose|i: int| 0 <= i < r.len() && rank_value(r[i].rank) == max_rank_value(r);
            assert(rank_value(cards[i].rank) == max_rank_value(cards));
        }
        assert forall|i: int| 0 <= i < cards.len() implies rank_value(#[trigger] cards[i].rank) <= max_rank_value(cards) by {
            if i < cards.len() - 1 {
                assert(cards[i] == r[i]);
            }
        }
    } else {
        assert(rank_value(cards[0].rank) == max_rank_value(cards));
    }
}

/// A hand names the ranks that make it. Four, three and pairs name ranks
/// that occur that many times in the cards: the full house its triple and
/// its pair, two pairs the higher pair first and the lower second, a single
/// pair the one rank that occurs twice. A high card holds no triple and no
/// four; a high card, a straight, a flush and a straight flush are named by
/// the highest rank among the cards.
pub proof fn lemma_hand_names_its_ranks(cards: Seq<Card>)
    requires
        cards.len() > 0,
    ensures
        hand_rank_of(cards) matches HandRank::FourOfKind(r) ==> rank_count(cards, rank_value(r)) == 4,
        hand_rank_of(cards) matches HandRank::FullHouse(a, b) ==> rank_count(cards, rank_value(a)) == 3
            && rank_count(cards, rank_value(b)) == 2,
        hand_rank_of(cards) matches HandRank::ThreeOfKind(r) ==> rank_count(cards, rank_value(r)) == 3,
        hand_rank_of(cards) matches HandRank::TwoPair(a, b) ==> rank_count(cards, rank_value(a)) == 2
            && rank_count(cards, rank_value(b)) == 2 && rank_value(b) < rank_value(a),
        hand_rank_of(cards) matches HandRank::Pair(r) ==> rank_count(cards, rank_value(r)) == 2
            && forall|v: int| v != rank_value(r) ==> rank_count(cards, v) != 2,
        hand_rank_of(cards) matches HandRank::HighCard(_) ==> forall|v: int|
            rank_count(cards, v) != 3 && rank_count(cards, v) != 4,
        match hand_rank_of(cards) {
            HandRank::HighCard(r) | HandRank::Straight(r) | HandRank::Flush(r)
            | HandRank::StraightFlush(r) => {
                &&& exists|i: int| 0 <= i < cards.len() && cards[i].rank == r
                &&& forall|i: int| 0 <= i < cards.len() ==> rank_value(#[trigger] cards[i].rank) <= rank_value(r)
            },
            _ => true,
        },
{
    let h = hand_rank_of(cards);
    lemma_max_rank_attained(cards);
    lemma_max_min_rank(cards);
    let m = max_rank_value(cards);
    let i0 = choose|i: int| 0 <= i < cards.len() && rank_value(cards[i].rank) == m;
    lemma_rank_value_roundtrip(cards[i0].rank);
    assert(cards[i0].rank == rank_of_value(m));
    lemma_value_rank(m);
    lemma_top_rank(cards, 4, 14);
    lemma_top_rank(cards, 3, 14);
    lemma_top_rank(cards, 2, 14);
    let t4 = top_rank_with_count(cards, 4, 14);
    let t3 = top_rank_with_count(cards, 3, 14);
    let t2 = top_rank_with_count(cards, 2, 14);
    if t4 >= 2 {
        lemma_value_rank(t4);
    }
    if t3 >= 2 {
        lemma_value_rank(t3);
    }
    if t2 >= 2 {
        lemma_value_rank(t2);
    }
    if pair_count_from(cards, 2) >= 1 {
        lemma_pair_exists(cards, 2);
    }
    if pair_count_from(cards, 2) == 2 {
        lemma_pairs_split(cards, 2);
        let (a, b) = choose|a: int, b: int|
            2 <= a < b <= 14 && rank_count(cards, a) == 2 && rank_count(cards, b) == 2;
        lemma_top_is_highest(cards, 2, 14, b);
        lemma_low_is_lowest(cards, 2, 2, a);
        lemma_value_rank(low_rank_with_count(cards, 2, 2));
    }
    if pair_count_from(cards, 2) == 1 {
        assert forall|v: int| v != t2 implies rank_count(cards, v) != 2 by {
            if rank_count(cards, v) == 2 {
                lemma_rank_count_bounds(cards, v);
                if v < t2 {
                    lemma_two_pairs_counted(cards, 2, v, t2);
                } else {
                    lemma_two_pairs_counted(cards, 2, t2, v);
                }
            }
        }
    }
    assert forall|v: int| (v < 2 || v > 14) implies rank_count(cards, v) == 0 by {
        lemma_rank_count_bounds(cards, v);
    }
}

proof fn lemma_low_rank(cards: Seq<Card>, k: nat, v: int)
    requires
        v >= 2,
        pair_count_from(cards, v) > 0,
        k == 2,
    ensures
        2 <= low_rank_with_count(cards, k, v) <= 14,
    decreases 15 - v,
{
    if v <= 14 && rank_count(cards, v) != k {
        lemma_low_rank(cards, k, v + 1);
    }
}

} // verus!

verus! {

/// How a rank is written: "2" to "10", then "J", "Q", "K", "A".
pub open spec fn rank_text(r: Rank) -> Seq<char> {
    match r {
        Rank::Two => "2"@,
        Rank::Three => "3"@,
        Rank::Four => "4"@,
        Rank::Five => "5"@,
        Rank::Six => "6"@,
        Rank::Seven => "7"@,
        Rank::Eight => "8"@,
        Rank::Nine => "9"@,
        Rank::Ten => "10"@,
        Rank::Jack => "J"@,
        Rank::Queen => "Q"@,
        Rank::King => "K"@,
        Rank::Ace => "A"@,
    }
}

/// How a rank is written in one character: as `rank_text`, but "T" for Ten.
pub open spec fn rank_short_text(r: Rank) -> Seq<char> {
    match r {
        Rank::Ten => "T"@,
        _ => rank_text(r),
    }
}

/// The symbol of a suit.
pub open spec fn suit_text(s: Suit) -> Seq<char> {
    match s {
        Suit::Clubs => "♣"@,
        Suit::Diamonds => "♦"@,
        Suit::Hearts => "♥"@,
        Suit::Spades => "♠"@,
    }
}

/// The name of a rank as the program spells it ("Two", ..., "Ace").
pub open spec fn rank_name(r: Rank) -> Seq<char> {
    match r {
        Rank::Two => "Two"@,
        Rank::Three => "Three"@,
        Rank::Four => "Four"@,
        Rank::Five => "Five"@,
        Rank::Six => "Six"@,
        Rank::Seven => "Seven"@,
        Rank::Eight => "Eight"@,
        Rank::Nine => "Nine"@,
        Rank::Ten => "Ten"@,
        Rank::Jack => "Jack"@,
        Rank::Queen => "Queen"@,
        Rank::King => "King"@,
        Rank::Ace => "Ace"@,
    }
}

/// A hand written as its variant and ranks, e.g. `TwoPair(King, Four)`.
pub open spec fn hand_text(h: HandRank) -> Seq<char> {
    match h {
        HandRank::HighCard(r) => "HighCard("@ + rank_name(r) + ")"@,
        HandRank::Pair(r) => "Pair("@ + rank_name(r) + ")"@,
        HandRank::TwoPair(r, s) => "TwoPair("@ + rank_name(r) + ", "@ + rank_name(s) + ")"@,
        HandRank::ThreeOfKind(r) => "ThreeOfKind("@ + rank_name(r) + ")"@,
        HandRank::Straight(r) => "Straight("@ + rank_name(r) + ")"@,
        HandRank::Flush(r) => "Flush("@ + rank_name(r) + ")"@,
        HandRank::FullHouse(r, s) => "FullHouse("@ + rank_name(r) + ", "@ + rank_name(s) + ")"@,
        HandRank::FourOfKind(r) => "FourOfKind("@ + rank_name(r) + ")"@,
        HandRank::StraightFlush(r) => "StraightFlush("@ + rank_name(r) + ")"@,
    }
}

impl Rank {
    /// The rank as written on a card.
    pub fn label(&self) -> (s: String)
        ensures
            s@ == rank_text(*self),
    {
        String::from_str(
            match self {
                Rank::Two => "2",
                Rank::Three => "3",
                Rank::Four => "4",
                Rank::Five => "5",
                Rank::Six => "6",
                Rank::Seven => "7",
                Rank::Eight => "8",
                Rank::Nine => "9",
                Rank::Ten => "10",
                Rank::Jack => "J",
                Rank::Queen => "Q",
                Rank::King => "K",
                Rank::Ace => "A",
            },
        )
    }

    /// The rank's name.
    pub fn name(&self) -> (s: String)
        ensures
            s@ == rank_name(*self),
    {
        String::from_str(
            match self {
                Rank::Two => "Two",
                Rank::Three => "Three",
                Rank::Four => "Four",
                Rank::Five => "Five",
                Rank::Six => "Six",
                Rank::Seven => "Seven",
                Rank::Eight => "Eight",
                Rank::Nine => "Nine",
                Rank::Ten => "Ten",
                Rank::Jack => "Jack",
                Rank::Queen => "Queen",
                Rank::King => "King",
                Rank::Ace => "Ace",
            },
        )
    }
}

impl Suit {
    /// The suit's symbol.
    pub fn label(&self) -> (s: String)
        ensures
            s@ == suit_text(*self),
    {
        String::from_str(
            match self {
                Suit::Clubs => "♣",
                Suit::Diamonds => "♦",
                Suit::Hearts => "♥",
                Suit::Spades => "♠",
            },
        )
    }
}

impl Card {
    /// The card written as its rank and its suit symbol, e.g. "10♥".
    pub fn label(&self) -> (s: String)
        ensures
            s@ == rank_text(self.rank) + suit_text(self.suit),
    {
        let r = self.rank.label();
        let s = self.suit.label();
        r.concat(s.as_str())
    }

    /// The card written in two characters, e.g. "T♥".
    pub fn short_label(&self) -> (s: String)
        ensures
            s@ == rank_short_text(self.rank) + suit_text(self.suit),
    {
        let r = match self.rank {
            Rank::Ten => String::from_str("T"),
            _ => self.rank.label(),
        };
        let s = self.suit.label();
        r.concat(s.as_str())
    }
}

impl HandRank {
    /// The hand written as its variant and ranks.
    pub fn text(&self) -> (s: String)
        ensures
            s@ == hand_text(*self),
    {
        match self {
            HandRank::HighCard(r) => one_rank("HighCard(", *r),
            HandRank::Pair(r) => one_rank("Pair(", *r),
            HandRank::TwoPair(r, q) => two_ranks("TwoPair(", *r, *q),
            HandRank::ThreeOfKind(r) => one_rank("ThreeOfKind(", *r),
            HandRank::Straight(r) => one_rank("Straight(", *r),
            HandRank::Flush(r) => one_rank("Flush(", *r),
            HandRank::FullHouse(r, q) => two_ranks("FullHouse(", *r, *q),
            HandRank::FourOfKind(r) => one_rank("FourOfKind(", *r),
            HandRank::StraightFlush(r) => one_rank("StraightFlush(", *r),
        }
    }
}

fn one_rank(head: &str, r: Rank) -> (s: String)
    ensures
        s@ == head@ + rank_name(r) + ")"@,
{
    let s = String::from_str(head);
    let n = r.name();
    let s = s.concat(n.as_str());
    s.concat(")")
}

fn two_ranks(head: &str, r: Rank, q: Rank) -> (s: String)
    ensures
        s@ == head@ + rank_name(r) + ", "@ + rank_name(q) + ")"@,
{
    let s = String::from_str(head);
    let n = r.name();
    let s = s.concat(n.as_str());
    let s = s.concat(", ");
    let m = q.name();
    let s = s.concat(m.as_str());
    s.concat(")")
}

} // verus!

verus! {

broadcast use vstd::seq_lib::group_to_multiset_ensures;

proof fn lemma_rank_count_remove(s: Seq<Card>, i: int, v: int)
    requires
        0 <= i < s.len(),
    ensures
        rank_count(s, v) == rank_count(s.remove(i), v) + if rank_value(s[i].rank) == v {
            1nat
        } else {
            0nat
        },
    decreases s.len(),
{
    if i == s.len() - 1 {
        assert(s.remove(i) =~= s.drop_last());
    } else {
        lemma_rank_count_remove(s.drop_last(), i, v);
        assert(s.remove(i).drop_last() =~= s.drop_last().remove(i));
        assert(s.remove(i).last() == s.last());
    }
}

proof fn lemma_rank_count_perm(a: Seq<Card>, b: Seq<Card>, v: int)
    requires
        a.to_multiset() == b.to_multiset(),
    ensures
        rank_count(a, v) == rank_count(b, v),
    decreases a.len(),
{
    if a.len() == 0 {
        assert(a.to_multiset().len() == a.len());
        assert(b.to_multiset().len() == b.len());
        assert(b.len() == 0);
    } else {
        let x = a.last();
        assert(a.drop_last().push(x) =~= a);
        assert(a.to_multiset() == a.drop_last().to_multiset().insert(x));
        assert(b.to_multiset().count(x) > 0);
        assert(b.contains(x));
        let i = choose|i: int| 0 <= i < b.len() && b[i] == x;
        assert(b.remove(i).to_multiset() == b.to_multiset().remove(x));
        assert(a.drop_last().to_multiset() =~= b.remove(i).to_multiset());
        lemma_rank_count_perm(a.drop_last(), b.remove(i), v);
        lemma_rank_count_remove(b, i, v);
    }
}

proof fn lemma_max_min_bounds(s: Seq<Card>)
    requires
        s.len() > 0,
    ensures
        forall|i: int|
            0 <= i < s.len() ==> min_rank_value(s) <= rank_value(#[trigger] s[i].rank) <= max_rank_value(s),
        exists|i: int| 0 <= i < s.len() && rank_value(s[i].rank) == max_rank_value(s),
        exists|i: int| 0 <= i < s.len() && rank_value(s[i].rank) == min_rank_value(s),
    decreases s.len(),
{
    if s.len() > 1 {
        let t = s.drop_last();
        lemma_max_min_bounds(t);
        assert forall|i: int|
            0 <= i < s.len() implies min_rank_value(s) <= rank_value(#[trigger] s[i].rank)
                <= max_rank_value(s) by {
            if i < s.len() - 1 {
                assert(s[i] == t[i]);
            }
        }
        let a = choose|i: int| 0 <= i < t.len() && rank_value(t[i].rank) == max_rank_value(t);
        let b = choose|i: int| 0 <= i < t.len() && rank_value(t[i].rank) == min_rank_value(t);
        assert(s[a] == t[a] && s[b] == t[b]);
        if rank_value(s.last().rank) > max_rank_value(t) {
            assert(rank_value(s[s.len() - 1].rank) == max_rank_value(s));
        } else {
            assert(rank_value(s[a].rank) == max_rank_value(s));
        }
        if rank_value(s.last().rank) < min_rank_value(t) {
            assert(rank_value(s[s.len() - 1].rank) == min_rank_value(s));
        } else {
            assert(rank_value(s[b].rank) == min_rank_value(s));
        }
    } else {
        assert(rank_value(s[0].rank) == max_rank_value(s));
    }
}

/// Two sequences with the same cards hold the same elements.
proof fn lemma_perm_contains(a: Seq<Card>, b: Seq<Card>, i: int)
    requires
        a.to_multiset() == b.to_multiset(),
        0 <= i < a.len(),
    ensures
        exists|j: int| 0 <= j < b.len() && b[j] == a[i],
{
    assert(a.contains(a[i]));
    assert(a.to_multiset().count(a[i]) > 0);
    assert(b.contains(a[i]));
}

/// The hand found in some cards does not depend on the order of the cards.
pub proof fn lemma_hand_ignores_order(a: Seq<Card>, b: Seq<Card>)
    requires
        a.len() > 0,
        a.to_multiset() == b.to_multiset(),
    ensures
        hand_rank_of(a) == hand_rank_of(b),
{
    assert(a.len() == a.to_multiset().len());
    assert(b.len() == b.to_multiset().len());
    assert forall|v: int| rank_count(a, v) == rank_count(b, v) by {
        lemma_rank_count_perm(a, b, v);
    }
    lemma_max_min_bounds(a);
    lemma_max_min_bounds(b);
    let ia = choose|i: int| 0 <= i < a.len() && rank_value(a[i].rank) == max_rank_value(a);
    let ib = choose|i: int| 0 <= i < b.len() && rank_value(b[i].rank) == max_rank_value(b);
    lemma_perm_contains(a, b, ia);
    lemma_perm_contains(b, a, ib);
    let ja = choose|i: int| 0 <= i < a.len() && rank_value(a[i].rank) == min_rank_value(a);
    let jb = choose|i: int| 0 <= i < b.len() && rank_value(b[i].rank) == min_rank_value(b);
    lemma_perm_contains(a, b, ja);
    lemma_perm_contains(b, a, jb);
    assert(max_rank_value(a) == max_rank_value(b));
    assert(min_rank_value(a) == min_rank_value(b));
    // one suit
    if same_suit(a) {
        lemma_perm_contains(b, a, 0);
        assert forall|i: int| 0 <= i < b.len() implies (#[trigger] b[i]).suit == b[0].suit by {
            lemma_perm_contains(b, a, i);
        }
    }
    if same_suit(b) {
        lemma_perm_contains(a, b, 0);
        assert forall|i: int| 0 <= i < a.len() implies (#[trigger] a[i]).suit == a[0].suit by {
            lemma_perm_contains(a, b, i);
        }
    }
    assert(same_suit(a) == same_suit(b));
    assert(distinct_ranks(a) == distinct_ranks(b));
    assert(is_wheel(a) == is_wheel(b));
    assert(has_rank_count(a, 4) == has_rank_count(b, 4));
    assert(has_rank_count(a, 3) == has_rank_count(b, 3));
    assert(has_rank_count(a, 2) == has_rank_count(b, 2));
    lemma_top_same(a, b, 4, 14);
    lemma_top_same(a, b, 3, 14);
    lemma_top_same(a, b, 2, 14);
    lemma_low_same(a, b, 2, 2);
    lemma_pairs_same(a, b, 2);
}

proof fn lemma_top_same(a: Seq<Card>, b: Seq<Card>, k: nat, v: int)
    requires
        forall|w: int| rank_count(a, w) == rank_count(b, w),
    ensures
        top_rank_with_count(a, k, v) == top_rank_with_count(b, k, v),
    decreases v,
{
    if v >= 2 {
        lemma_top_same(a, b, k, v - 1);
    }
}

proof fn lemma_low_same(a: Seq<Card>, b: Seq<Card>, k: nat, v: int)
    requires
        forall|w: int| rank_count(a, w) == rank_count(b, w),
    ensures
        low_rank_with_count(a, k, v) == low_rank_with_count(b, k, v),
    decreases 15 - v,
{
    if v <= 14 {
        lemma_low_same(a, b, k, v + 1);
    }
}

proof fn lemma_pairs_same(a: Seq<Card>, b: Seq<Card>, v: int)
    requires
        forall|w: int| rank_count(a, w) == rank_count(b, w),
    ensures
        pair_count_from(a, v) == pair_count_from(b, v),
    decreases 15 - v,
{
    if v <= 14 {
        lemma_pairs_same(a, b, v + 1);
    }
}

} // verus!
