//! The dealer's state machine and the game table that wraps it.
use crate::card::{
    evaluate_hand, fresh_deck, hand_key, hand_rank_lt, hand_rank_of, lemma_fresh_deck_is_complete,
    lemma_hand_key_orders_hands, Card, Deck, HandRank,
};
use crate::common::{
    copy_cards, duplicate_result, players_view, result_view, GameResult, GameResultView,
    GameState, Player, PlayerRank, PlayerRankView, PlayerState, PlayerView, Role,
};
use vstd::multiset::Multiset;
use vstd::prelude::*;

verus! {

broadcast use {
    vstd::seq_lib::group_to_multiset_ensures,
    vstd::multiset::group_multiset_axioms,
    vstd::multiset::group_multiset_properties,
};

/// The cards of all the players' hands, together.
pub open spec fn hands_multiset(ps: Seq<PlayerView>) -> Multiset<Card>
    decreases ps.len(),
{
    if ps.len() == 0 {
        Multiset::empty()
    } else {
        hands_multiset(ps.drop_last()).add(ps.last().hand.to_multiset())
    }
}

/// Number of players that have been given a role.
pub open spec fn roled_count(ps: Seq<PlayerView>) -> nat
    decreases ps.len(),
{
    if ps.len() == 0 {
        0
    } else {
        roled_count(ps.drop_last()) + if ps.last().role is Some {
            1nat
        } else {
            0nat
        }
    }
}

/// Number of cards that lie on the table during each phase.
pub open spec fn table_size(s: GameState) -> nat {
    match s {
        GameState::Turn => 3,
        GameState::River => 4,
        GameState::Shutdown => 5,
        GameState::Ended => 5,
        _ => 0,
    }
}

/// The phases before the pocket cards are dealt.
pub open spec fn before_hands(s: GameState) -> bool {
    s == GameState::PreDeal || s == GameState::Blinds || s == GameState::PreFlop
}

/// The phase that follows `s`; `Ended` follows itself.
pub open spec fn next_state(s: GameState) -> GameState {
    match s {
        GameState::PreDeal => GameState::Blinds,
        GameState::Blinds => GameState::PreFlop,
        GameState::PreFlop => GameState::Flop,
        GameState::Flop => GameState::Turn,
        GameState::Turn => GameState::River,
        GameState::River => GameState::Shutdown,
        GameState::Shutdown => GameState::Ended,
        GameState::Ended => GameState::Ended,
    }
}

/// Position of a phase in the order of play, from 0 (`PreDeal`) to 7 (`Ended`).
pub open spec fn phase_index(s: GameState) -> int {
    match s {
        GameState::PreDeal => 0,
        GameState::Blinds => 1,
        GameState::PreFlop => 2,
        GameState::Flop => 3,
        GameState::Turn => 4,
        GameState::River => 5,
        GameState::Shutdown => 6,
        GameState::Ended => 7,
    }
}

/// The phases come one after the other in the order of play, and a game that
/// has ended stays ended; seven steps take any game from `PreDeal` to `Ended`.
pub proof fn lemma_phases_advance(s: GameState)
    ensures
        s != GameState::Ended ==> phase_index(next_state(s)) == phase_index(s) + 1,
        s == GameState::Ended ==> next_state(s) == GameState::Ended,
        next_state(next_state(next_state(next_state(next_state(next_state(next_state(
            GameState::PreDeal,
        ))))))) == GameState::Ended,
{
}

/// The phase reached from `s` after `k` steps.
pub open spec fn after_steps(s: GameState, k: nat) -> GameState
    decreases k,
{
    if k == 0 {
        s
    } else {
        after_steps(next_state(s), (k - 1) as nat)
    }
}

/// However far a game has come, it has ended once it has taken as many steps
/// as there are phases left after its own; from `PreDeal` that is seven
/// steps, and six are not enough.
pub proof fn lemma_game_ends(s: GameState, k: nat)
    ensures
        k >= 7 - phase_index(s) ==> after_steps(s, k) == GameState::Ended,
        after_steps(GameState::PreDeal, 6) != GameState::Ended,
    decreases k,
{
    reveal_with_fuel(after_steps, 7);
    if k > 0 {
        lemma_game_ends(next_state(s), (k - 1) as nat);
    }
}

/// The role given to the player at position `i` when the blinds are set.
pub open spec fn blind_role(i: int) -> Role {
    if i == 0 {
        Role::SmallBlind
    } else if i == 1 {
        Role::BigBlind
    } else {
        Role::Others
    }
}

/// The hand of player `i` together with the cards on the table, ranked.
pub open spec fn player_hand(ps: Seq<PlayerView>, table: Seq<Card>, i: int) -> HandRank {
    hand_rank_of(ps[i].hand + table)
}

/// The best hand key among the first `n` players, -1 if `n` is 0.
pub open spec fn best_key(ps: Seq<PlayerView>, table: Seq<Card>, n: int) -> int
    decreases n,
{
    if n <= 0 {
        -1
    } else {
        let m = best_key(ps, table, n - 1);
        let k = hand_key(player_hand(ps, table, n - 1));
        if k > m {
            k
        } else {
            m
        }
    }
}

/// The first player at position `from` or later whose hand has key `k`; -1 if none.
pub open spec fn first_with_key(ps: Seq<PlayerView>, table: Seq<Card>, k: int, from: int) -> int
    decreases ps.len() - from,
{
    if from < 0 || from >= ps.len() {
        -1
    } else if hand_key(player_hand(ps, table, from)) == k {
        from
    } else {
        first_with_key(ps, table, k, from + 1)
    }
}

/// The rank of player `i`.
pub open spec fn rank_of_player(ps: Seq<PlayerView>, table: Seq<Card>, i: int) -> PlayerRankView {
    PlayerRankView { id: ps[i].id, rank: player_hand(ps, table, i) }
}

/// The result of a showdown: the first player holding the best hand wins,
/// unless a later player holds an equal hand, in which case those two tie.
pub open spec fn showdown(ps: Seq<PlayerView>, table: Seq<Card>) -> GameResultView {
    let k = best_key(ps, table, ps.len() as int);
    let a = first_with_key(ps, table, k, 0);
    let b = first_with_key(ps, table, k, a + 1);
    if b >= 0 {
        GameResultView::Tie(rank_of_player(ps, table, a), rank_of_player(ps, table, b))
    } else {
        GameResultView::Winner(rank_of_player(ps, table, a))
    }
}

/// A dealer as plain values.
pub struct DealerView {
    pub deck: Seq<Card>,
    pub game_state: GameState,
    pub players: Seq<PlayerView>,
    pub cards_on_table: Seq<Card>,
    pub game_result: Option<GameResultView>,
}

/// Every card in the game: in the deck, on the table and in the hands.
pub open spec fn cards_in_play(d: DealerView) -> Multiset<Card> {
    d.deck.to_multiset().add(d.cards_on_table.to_multiset()).add(hands_multiset(d.players))
}

/// No card is in the game twice.
pub open spec fn no_card_twice(m: Multiset<Card>) -> bool {
    forall|c: Card| #[trigger] m.count(c) <= 1
}

/// The dealer's invariant: the table holds as many cards as the phase says,
/// no card is in the game twice, nobody holds cards before they are dealt,
/// and there is a result exactly when the game has ended.
pub open spec fn dealer_wf(d: DealerView) -> bool {
    &&& d.cards_on_table.len() == table_size(d.game_state)
    &&& no_card_twice(cards_in_play(d))
    &&& before_hands(d.game_state) ==> forall|i: int|
        0 <= i < d.players.len() ==> (#[trigger] d.players[i]).hand.len() == 0
    &&& (d.game_result is Some) == (d.game_state == GameState::Ended)
}

/// What the dealer needs to take the next step without running short: two
/// players for the blinds, enough cards for each deal, and two players to
/// compare at the showdown.
pub open spec fn can_advance(d: DealerView) -> bool {
    match d.game_state {
        GameState::Blinds => d.players.len() >= 2,
        GameState::PreFlop => d.deck.len() >= 2 * d.players.len(),
        GameState::Flop => d.deck.len() >= 3,
        GameState::Turn => d.deck.len() >= 1 + roled_count(d.players),
        GameState::River => d.deck.len() >= 1 + roled_count(d.players),
        GameState::Shutdown => d.players.len() >= 2,
        _ => true,
    }
}

/// The players after the blinds are set: the first is the small blind, the
/// second the big blind, every other player gets the role `Others`.
pub open spec fn with_blinds(ps: Seq<PlayerView>) -> Seq<PlayerView> {
    Seq::new(ps.len(), |i: int| PlayerView { role: Some(blind_role(i)), ..ps[i] })
}

/// The players after the pocket cards are dealt from `deck`: each player in
/// turn takes two cards off the top.
pub open spec fn with_pockets(ps: Seq<PlayerView>, deck: Seq<Card>) -> Seq<PlayerView> {
    Seq::new(
        ps.len(),
        |i: int|
            PlayerView {
                hand: seq![deck[deck.len() - 1 - 2 * i], deck[deck.len() - 2 - 2 * i]],
                ..ps[i]
            },
    )
}

/// The players after the turn or the river: each player with a role, in
/// turn, takes one card off the top of `deck`.
pub open spec fn with_street_card(ps: Seq<PlayerView>, deck: Seq<Card>) -> Seq<PlayerView> {
    Seq::new(
        ps.len(),
        |i: int|
            if ps[i].role is Some {
                PlayerView {
                    hand: ps[i].hand.push(deck[deck.len() - 1 - roled_count(ps.take(i))]),
                    ..ps[i]
                }
            } else {
                ps[i]
            },
    )
}

/// One step of the dealer, from `d` to `e`, before the phase moves on.
pub open spec fn phase_step(d: DealerView, e: DealerView) -> bool {
    let n = d.deck.len();
    match d.game_state {
        GameState::PreDeal => {
            &&& e.deck.to_multiset() == d.deck.to_multiset()
            &&& e.deck.len() == n
            &&& e.players == d.players
            &&& e.cards_on_table == d.cards_on_table
            &&& e.game_result == d.game_result
        },
        GameState::Blinds => {
            &&& e.deck == d.deck
            &&& e.players == with_blinds(d.players)
            &&& e.cards_on_table == d.cards_on_table
            &&& e.game_result == d.game_result
        },
        GameState::PreFlop => {
            &&& e.deck == d.deck.take(n - 2 * d.players.len())
            &&& e.players == with_pockets(d.players, d.deck)
            &&& e.cards_on_table == d.cards_on_table
            &&& e.game_result == d.game_result
        },
        GameState::Flop => {
            &&& e.deck == d.deck.take(n - 3)
            &&& e.players == d.players
            &&& e.cards_on_table == seq![d.deck[n - 1], d.deck[n - 2], d.deck[n - 3]]
            &&& e.game_result == d.game_result
        },
        GameState::Turn | GameState::River => {
            &&& e.deck == d.deck.take(n - 1 - roled_count(d.players))
            &&& e.cards_on_table == d.cards_on_table.push(d.deck[n - 1])
            &&& e.players == with_street_card(d.players, d.deck.drop_last())
            &&& e.game_result == d.game_result
        },
        GameState::Shutdown => {
            &&& e.deck == d.deck
            &&& e.players == d.players
            &&& e.cards_on_table == d.cards_on_table
            &&& e.game_result == Some(showdown(d.players, d.cards_on_table))
        },
        GameState::Ended => {
            &&& e.deck == d.deck
            &&& e.players == d.players
            &&& e.cards_on_table == d.cards_on_table
            &&& e.game_result == d.game_result
        },
    }
}

/// What `knock_knock` does: the step of the current phase, then the next phase.
pub open spec fn advanced(d: DealerView, e: DealerView) -> bool {
    &&& phase_step(d, e)
    &&& e.game_state == next_state(d.game_state)
}

/// Every player has a role.
pub open spec fn all_roled(ps: Seq<PlayerView>) -> bool {
    forall|i: int| 0 <= i < ps.len() ==> (#[trigger] ps[i]).role is Some
}

/// The dealer `d` can take `steps` more steps, one after the other, without
/// running short whatever each step deals, and the game has then ended.
pub open spec fn plays_out(d: DealerView, steps: nat) -> bool
    decreases steps,
{
    if steps == 0 {
        d.game_state == GameState::Ended
    } else {
        &&& can_advance(d)
        &&& forall|e: DealerView| #[trigger] advanced(d, e) ==> plays_out(e, (steps - 1) as nat)
    }
}

proof fn lemma_all_roled_count(ps: Seq<PlayerView>)
    requires
        all_roled(ps),
    ensures
        roled_count(ps) == ps.len(),
    decreases ps.len(),
{
    if ps.len() > 0 {
        assert(ps.last().role is Some);
        lemma_all_roled_count(ps.drop_last());
    }
}

proof fn lemma_plays_out_from_river(d: DealerView)
    requires
        d.game_state == GameState::River,
        all_roled(d.players),
        d.players.len() >= 2,
        d.deck.len() >= 1 + d.players.len(),
    ensures
        plays_out(d, 2),
{
    lemma_all_roled_count(d.players);
    assert forall|e: DealerView| #[trigger] advanced(d, e) implies plays_out(e, 1) by {
        assert(e.players.len() == d.players.len());
        assert forall|f: DealerView| #[trigger] advanced(e, f) implies plays_out(f, 0) by {}
    }
}

proof fn lemma_plays_out_from_turn(d: DealerView)
    requires
        d.game_state == GameState::Turn,
        all_roled(d.players),
        d.players.len() >= 2,
        d.deck.len() >= 2 + 2 * d.players.len(),
    ensures
        plays_out(d, 3),
{
    lemma_all_roled_count(d.players);
    assert forall|e: DealerView| #[trigger] advanced(d, e) implies plays_out(e, 2) by {
        assert(e.players.len() == d.players.len());
        assert forall|i: int| 0 <= i < e.players.len() implies (#[trigger] e.players[i]).role is Some by {
            assert(d.players[i].role is Some);
        }
        lemma_plays_out_from_river(e);
    }
}

proof fn lemma_plays_out_from_flop(d: DealerView)
    requires
        d.game_state == GameState::Flop,
        all_roled(d.players),
        d.players.len() >= 2,
        d.deck.len() >= 5 + 2 * d.players.len(),
    ensures
        plays_out(d, 4),
{
    assert forall|e: DealerView| #[trigger] advanced(d, e) implies plays_out(e, 3) by {
        lemma_plays_out_from_turn(e);
    }
}

proof fn lemma_plays_out_from_pre_flop(d: DealerView)
    requires
        d.game_state == GameState::PreFlop,
        all_roled(d.players),
        d.players.len() >= 2,
        d.deck.len() >= 5 + 4 * d.players.len(),
    ensures
        plays_out(d, 5),
{
    assert forall|e: DealerView| #[trigger] advanced(d, e) implies plays_out(e, 4) by {
        assert(e.players.len() == d.players.len());
        assert forall|i: int| 0 <= i < e.players.len() implies (#[trigger] e.players[i]).role is Some by {
            assert(d.players[i].role is Some);
        }
        lemma_plays_out_from_flop(e);
    }
}

/// A game whose blinds are next, with at least two players and at least
/// four cards per player and five more in the deck, plays out to its end:
/// each of the six steps from the blinds to the end finds what it needs,
/// whatever the earlier steps dealt. With a full deck of 52 cards that is a
/// game of two to eleven players.
pub proof fn lemma_game_plays_out(d: DealerView)
    requires
        d.game_state == GameState::Blinds,
        d.players.len() >= 2,
        4 * d.players.len() + 5 <= d.deck.len(),
    ensures
        plays_out(d, 6),
{
    assert forall|e: DealerView| #[trigger] advanced(d, e) implies plays_out(e, 5) by {
        assert(e.players.len() == d.players.len());
        assert forall|i: int| 0 <= i < e.players.len() implies (#[trigger] e.players[i]).role is Some by {
            assert(e.players[i].role == Some(blind_role(i)));
        }
        lemma_plays_out_from_pre_flop(e);
    }
}

// ---------------------------------------------------------------- lemmas

proof fn lemma_hands_multiset_push(ps: Seq<PlayerView>, p: PlayerView)
    ensures
        hands_multiset(ps.push(p)) == hands_multiset(ps).add(p.hand.to_multiset()),
{
    assert(ps.push(p).drop_last() =~= ps);
}

proof fn lemma_players_view_push(ps: Seq<Player>, p: Player)
    ensures
        players_view(ps.push(p)) == players_view(ps).push(p@),
{
    assert(players_view(ps.push(p)) =~= players_view(ps).push(p@));
}

/// Two lists of players with the same hands hold the same cards.
proof fn lemma_hands_multiset_same_hands(a: Seq<PlayerView>, b: Seq<PlayerView>)
    requires
        a.len() == b.len(),
        forall|i: int| 0 <= i < a.len() ==> (#[trigger] a[i]).hand == b[i].hand,
    ensures
        hands_multiset(a) == hands_multiset(b),
    decreases a.len(),
{
    if a.len() > 0 {
        lemma_hands_multiset_same_hands(a.drop_last(), b.drop_last());
        assert(a.last().hand == b.last().hand);
    }
}

/// Players without cards hold nothing.
proof fn lemma_hands_multiset_empty(a: Seq<PlayerView>)
    requires
        forall|i: int| 0 <= i < a.len() ==> (#[trigger] a[i]).hand.len() == 0,
    ensures
        hands_multiset(a) == Multiset::<Card>::empty(),
    decreases a.len(),
{
    if a.len() > 0 {
        lemma_hands_multiset_empty(a.drop_last());
        assert(a.last().hand =~= Seq::<Card>::empty());
    }
}

/// Removing a player removes exactly that player's cards.
proof fn lemma_hands_multiset_remove(a: Seq<PlayerView>, i: int)
    requires
        0 <= i < a.len(),
    ensures
        hands_multiset(a.remove(i)).add(a[i].hand.to_multiset()) == hands_multiset(a),
    decreases a.len(),
{
    if i == a.len() - 1 {
        assert(a.remove(i) =~= a.drop_last());
    } else {
        lemma_hands_multiset_remove(a.drop_last(), i);
        assert(a.remove(i).drop_last() =~= a.drop_last().remove(i));
        assert(a.remove(i).last() == a.last());
    }
}

proof fn lemma_roled_take(ps: Seq<PlayerView>, i: int)
    requires
        0 <= i < ps.len(),
    ensures
        roled_count(ps.take(i + 1)) == roled_count(ps.take(i)) + if ps[i].role is Some {
            1nat
        } else {
            0nat
        },
{
    assert(ps.take(i + 1).drop_last() =~= ps.take(i));
}

proof fn lemma_roled_prefix(ps: Seq<PlayerView>, i: int, j: int)
    requires
        0 <= i <= j <= ps.len(),
    ensures
        roled_count(ps.take(i)) <= roled_count(ps.take(j)),
    decreases j - i,
{
    if i < j {
        lemma_roled_prefix(ps, i, j - 1);
        lemma_roled_take(ps, j - 1);
    }
}

proof fn lemma_deal_top(deck: Seq<Card>)
    requires
        deck.len() > 0,
    ensures
        deck.to_multiset() == deck.drop_last().to_multiset().insert(deck.last()),
{
    assert(deck.drop_last().push(deck.last()) =~= deck);
}

proof fn lemma_no_dup_counts(s: Seq<Card>)
    requires
        s.no_duplicates(),
    ensures
        no_card_twice(s.to_multiset()),
{
    s.lemma_multiset_has_no_duplicates();
    assert forall|c: Card| #[trigger] s.to_multiset().count(c) <= 1 by {
        if s.to_multiset().count(c) > 0 {
            assert(s.to_multiset().contains(c));
        }
    }
}

} // verus!

verus! {

/// The dealer: the deck, the phase of the game, the players, the cards on
/// the table and, once the game has ended, its result.
#[derive(Debug)]
pub struct Dealer {
    deck: Deck,
    pub game_state: GameState,
    players: Vec<Player>,
    pub cards_on_table: Vec<Card>,
    game_result: Option<GameResult>,
}

impl View for Dealer {
    type V = DealerView;

    closed spec fn view(&self) -> DealerView {
        DealerView {
            deck: self.deck@,
            game_state: self.game_state,
            players: players_view(self.players@),
            cards_on_table: self.cards_on_table@,
            game_result: result_view(self.game_result),
        }
    }
}

/// A copy of the player with another role.
fn with_role(p: &Player, role: Role) -> (q: Player)
    ensures
        q@ == (PlayerView { role: Some(role), ..p@ }),
{
    Player {
        id: p.id.clone(),
        role: Some(role),
        hand: copy_cards(&p.hand),
        state: p.state,
        bet: p.bet,
        balance: p.balance,
    }
}

/// A copy of the player in another state.
fn with_state(p: &Player, state: PlayerState) -> (q: Player)
    ensures
        q@ == (PlayerView { state, ..p@ }),
{
    Player {
        id: p.id.clone(),
        role: p.role,
        hand: copy_cards(&p.hand),
        state,
        bet: p.bet,
        balance: p.balance,
    }
}

impl Dealer {
    /// A dealer with a fresh deck, before the deal, with the given players
    /// (who hold no cards yet).
    pub fn new(players: Vec<Player>) -> (d: Dealer)
        requires
            forall|i: int| 0 <= i < players@.len() ==> (#[trigger] players@[i])@.hand.len() == 0,
        ensures
            d@.deck == fresh_deck(),
            d@.game_state == GameState::PreDeal,
            d@.players == players_view(players@),
            d@.cards_on_table.len() == 0,
            d@.game_result is None,
            dealer_wf(d@),
    {
        let d = Dealer {
            deck: Deck::new(),
            game_state: GameState::PreDeal,
            players,
            cards_on_table: Vec::new(),
            game_result: None,
        };
        proof {
            lemma_fresh_deck_is_complete();
            lemma_no_dup_counts(fresh_deck());
            lemma_hands_multiset_empty(d@.players);
            assert(d@.cards_on_table =~= Seq::<Card>::empty());
            assert(cards_in_play(d@) =~= fresh_deck().to_multiset());
        }
        d
    }

    /// Moves the game to its next phase.
    fn change_state(&mut self)
        ensures
            final(self)@ == (DealerView { game_state: next_state(old(self)@.game_state), ..old(self)@ }),
    {
        self.game_state = match self.game_state {
            GameState::PreDeal => GameState::Blinds,
            GameState::Blinds => GameState::PreFlop,
            GameState::PreFlop => GameState::Flop,
            GameState::Flop => GameState::Turn,
            GameState::Turn => GameState::River,
            GameState::River => GameState::Shutdown,
            GameState::Shutdown => GameState::Ended,
            GameState::Ended => GameState::Ended,
        };
    }

    /// Gives every player a role: small blind, big blind, then the others.
    fn set_blinds(&mut self)
        ensures
            final(self)@ == (DealerView { players: with_blinds(old(self)@.players), ..old(self)@ }),
    {
        let n = self.players.len();
        let mut out: Vec<Player> = Vec::new();
        let mut i: usize = 0;
        while i < n
            invariant
                n == self.players@.len(),
                i <= n,
                out@.len() == i,
                forall|j: int|
                    0 <= j < i ==> (#[trigger] out@[j])@ == (PlayerView {
                        role: Some(blind_role(j)),
                        ..self.players@[j]@
                    }),
            decreases n - i,
        {
            let role = if i == 0 {
                Role::SmallBlind
            } else if i == 1 {
                Role::BigBlind
            } else {
                Role::Others
            };
            out.push(with_role(&self.players[i], role));
            i = i + 1;
        }
        self.players = out;
        assert(players_view(self.players@) =~= with_blinds(players_view(old(self).players@)));
    }

    /// Deals two cards to each player in turn.
    fn deal_pockets(&mut self)
        requires
            old(self)@.deck.len() >= 2 * old(self)@.players.len(),
        ensures
            final(self)@ == (DealerView {
                deck: old(self)@.deck.take(old(self)@.deck.len() - 2 * old(self)@.players.len()),
                players: with_pockets(old(self)@.players, old(self)@.deck),
                ..old(self)@
            }),
            hands_multiset(final(self)@.players).add(final(self)@.deck.to_multiset())
                == old(self)@.deck.to_multiset(),
    {
        let ghost d0 = self.deck@;
        let ghost ps = old(self)@.players;
        let n = self.players.len();
        let mut out: Vec<Player> = Vec::new();
        let mut i: usize = 0;
        assert(d0.take(d0.len() as int) =~= d0);
        while i < n
            invariant
                n == self.players@.len(),
                ps == players_view(self.players@),
                self.game_state == old(self).game_state,
                self.cards_on_table@ == old(self).cards_on_table@,
                result_view(self.game_result) == result_view(old(self).game_result),
                d0.len() >= 2 * n,
                i <= n,
                self.deck@ == d0.take(d0.len() - 2 * i),
                out@.len() == i,
                forall|j: int|
                    0 <= j < i ==> (#[trigger] out@[j])@ == (PlayerView {
                        hand: seq![d0[d0.len() - 1 - 2 * j], d0[d0.len() - 2 - 2 * j]],
                        ..ps[j]
                    }),
                hands_multiset(players_view(out@)).add(self.deck@.to_multiset())
                    == d0.to_multiset(),
            decreases n - i,
        {
            let ghost before = self.deck@;
            let a = self.deck.deal();
            let b = self.deck.deal();
            proof {
                lemma_deal_top(before);
                lemma_deal_top(before.drop_last());
                assert(before.drop_last() =~= d0.take(d0.len() - 2 * i - 1));
                assert(self.deck@ =~= d0.take(d0.len() - 2 * (i + 1)));
            }
            let hand = vec![a, b];
            let p = self.players[i].with_hand(hand);
            proof {
                lemma_players_view_push(out@, p);
                lemma_hands_multiset_push(players_view(out@), p@);
                assert(p@.hand.to_multiset() =~= Multiset::<Card>::empty().insert(a).insert(b)) by {
                    assert(p@.hand =~= seq![a].push(b));
                    assert(seq![a] =~= Seq::<Card>::empty().push(a));
                }
            }
            out.push(p);
            i = i + 1;
        }
        self.players = out;
        assert(players_view(self.players@) =~= with_pockets(ps, d0));
    }
}

} // verus!

verus! {

impl Dealer {
    /// Lays the top three cards of the deck on the table.
    fn deal_flop(&mut self)
        requires
            old(self)@.deck.len() >= 3,
        ensures
            final(self)@ == (DealerView {
                deck: old(self)@.deck.take(old(self)@.deck.len() - 3),
                cards_on_table: seq![
                    old(self)@.deck[old(self)@.deck.len() - 1],
                    old(self)@.deck[old(self)@.deck.len() - 2],
                    old(self)@.deck[old(self)@.deck.len() - 3],
                ],
                ..old(self)@
            }),
            final(self)@.deck.to_multiset().add(final(self)@.cards_on_table.to_multiset())
                == old(self)@.deck.to_multiset(),
    {
        let ghost d0 = self.deck@;
        let a = self.deck.deal();
        let b = self.deck.deal();
        let c = self.deck.deal();
        proof {
            lemma_deal_top(d0);
            lemma_deal_top(d0.drop_last());
            lemma_deal_top(d0.drop_last().drop_last());
            assert(self.deck@ =~= d0.take(d0.len() - 3));
        }
        self.cards_on_table = vec![a, b, c];
        proof {
            assert(self.cards_on_table@ =~= Seq::<Card>::empty().push(a).push(b).push(c));
        }
    }

    /// Lays the top card of the deck on the table, then gives one card to
    /// each player with a role, in turn.
    fn deal_street(&mut self)
        requires
            old(self)@.deck.len() >= 1 + roled_count(old(self)@.players),
        ensures
            final(self)@ == (DealerView {
                deck: old(self)@.deck.take(
                    old(self)@.deck.len() - 1 - roled_count(old(self)@.players),
                ),
                cards_on_table: old(self)@.cards_on_table.push(
                    old(self)@.deck[old(self)@.deck.len() - 1],
                ),
                players: with_street_card(old(self)@.players, old(self)@.deck.drop_last()),
                ..old(self)@
            }),
            cards_in_play(final(self)@) == cards_in_play(old(self)@),
    {
        let ghost d0 = self.deck@;
        let ghost ps = old(self)@.players;
        let top = self.deck.deal();
        proof {
            lemma_deal_top(d0);
        }
        self.cards_on_table.push(top);
        let ghost d1 = self.deck@;
        let n = self.players.len();
        let mut out: Vec<Player> = Vec::new();
        let mut i: usize = 0;
        assert(ps.take(0) =~= Seq::<PlayerView>::empty());
        assert(d1.take(d1.len() as int) =~= d1);
        proof {
            lemma_roled_prefix(ps, 0, ps.len() as int);
            assert(ps.take(ps.len() as int) =~= ps);
        }
        while i < n
            invariant
                n == self.players@.len(),
                ps == players_view(self.players@),
                ps.len() == n,
                self.game_state == old(self).game_state,
                self.cards_on_table@ == old(self).cards_on_table@.push(top),
                result_view(self.game_result) == result_view(old(self).game_result),
                d1.len() >= roled_count(ps),
                roled_count(ps.take(n as int)) == roled_count(ps),
                i <= n,
                self.deck@ == d1.take(d1.len() - roled_count(ps.take(i as int))),
                out@.len() == i,
                forall|j: int|
                    0 <= j < i ==> (#[trigger] out@[j])@ == (if ps[j].role is Some {
                        PlayerView {
                            hand: ps[j].hand.push(d1[d1.len() - 1 - roled_count(ps.take(j))]),
                            ..ps[j]
                        }
                    } else {
                        ps[j]
                    }),
                hands_multiset(players_view(out@)).add(self.deck@.to_multiset())
                    == hands_multiset(ps.take(i as int)).add(d1.to_multiset()),
            decreases n - i,
        {
            proof {
                lemma_roled_take(ps, i as int);
                lemma_roled_prefix(ps, i + 1, n as int);
                assert(ps.take(i + 1).drop_last() =~= ps.take(i as int));
                assert(ps.take(i + 1).last() == ps[i as int]);
            }
            let p = &self.players[i];
            if p.role.is_some() {
                let ghost before = self.deck@;
                let c = self.deck.deal();
                proof {
                    lemma_deal_top(before);
                    assert(self.deck@ =~= d1.take(d1.len() - roled_count(ps.take(i + 1))));
                }
                let mut hand = copy_cards(&p.hand);
                hand.push(c);
                let q = p.with_hand(hand);
                let ghost h_out = hands_multiset(players_view(out@));
                proof {
                    lemma_players_view_push(out@, q);
                    lemma_hands_multiset_push(players_view(out@), q@);
                    assert(q@.hand.to_multiset() == p@.hand.to_multiset().insert(c));
                    assert(ps[i as int] == p@);
                    assert(h_out.add(p@.hand.to_multiset().insert(c)).add(self.deck@.to_multiset())
                        =~= h_out.add(before.to_multiset()).add(p@.hand.to_multiset()));
                    assert(hands_multiset(ps.take(i as int)).add(d1.to_multiset()).add(
                        p@.hand.to_multiset(),
                    ) =~= hands_multiset(ps.take(i + 1)).add(d1.to_multiset()));
                }
                out.push(q);
            } else {
                let q = p.duplicate();
                let ghost h_out = hands_multiset(players_view(out@));
                proof {
                    lemma_players_view_push(out@, q);
                    lemma_hands_multiset_push(players_view(out@), q@);
                    assert(self.deck@ =~= d1.take(d1.len() - roled_count(ps.take(i + 1))));
                    assert(ps[i as int] == p@);
                    assert(h_out.add(p@.hand.to_multiset()).add(self.deck@.to_multiset())
                        =~= h_out.add(self.deck@.to_multiset()).add(p@.hand.to_multiset()));
                    assert(hands_multiset(ps.take(i as int)).add(d1.to_multiset()).add(
                        p@.hand.to_multiset(),
                    ) =~= hands_multiset(ps.take(i + 1)).add(d1.to_multiset()));
                }
                out.push(q);
            }
            i = i + 1;
        }
        self.players = out;
        proof {
            assert(players_view(self.players@) =~= with_street_card(ps, d1));
            assert(d1 == d0.drop_last());
            assert(ps.take(n as int) =~= ps);
            assert(self.deck@ =~= d0.take(d0.len() - 1 - roled_count(ps)));
            let t0 = old(self)@.cards_on_table;
            assert(self@.cards_on_table.to_multiset() == t0.to_multiset().insert(top));
            assert(hands_multiset(self@.players).add(self@.deck.to_multiset()) == hands_multiset(
                ps,
            ).add(d1.to_multiset()));
            assert(d0.to_multiset() == d1.to_multiset().insert(top));
            assert(old(self)@.deck == d0);
            assert(old(self)@.players == ps);
            assert(self@.players == players_view(self.players@));
            let hp = hands_multiset(ps);
            let hn = hands_multiset(self@.players);
            let dn = self@.deck.to_multiset();
            assert(hn.add(dn) == hp.add(d1.to_multiset()));
            assert forall|x: Card| dn.count(x) + hn.count(x) == hp.count(x) + d1.to_multiset().count(x) by {
                assert(hn.add(dn).count(x) == hp.add(d1.to_multiset()).count(x));
            }
            assert(cards_in_play(self@) =~= dn.add(t0.to_multiset().insert(top)).add(hn));
            assert(cards_in_play(old(self)@) =~= d1.to_multiset().insert(top).add(t0.to_multiset()).add(hp));
            assert(dn.add(t0.to_multiset().insert(top)).add(hn) =~= d1.to_multiset().insert(top).add(t0.to_multiset()).add(hp));
        }
    }

    /// Ranks every player's hand with the cards on the table and names the
    /// winner, or the first two players sharing the best hand.
    fn evaluate_hands(&self) -> (r: GameResult)
        requires
            self@.players.len() >= 2,
            forall|i: int|
                0 <= i < self@.players.len() ==> (#[trigger] self@.players[i]).hand.len()
                    + self@.cards_on_table.len() > 0,
        ensures
            r@ == showdown(self@.players, self@.cards_on_table),
    {
        let ghost ps = self@.players;
        let ghost table = self@.cards_on_table;
        let n = self.players.len();
        let mut keys: Vec<u16> = Vec::new();
        let mut ranks: Vec<HandRank> = Vec::new();
        let mut i: usize = 0;
        while i < n
            invariant
                n == ps.len(),
                ps == self@.players,
                table == self@.cards_on_table,
                forall|k: int| 0 <= k < n ==> (#[trigger] ps[k]).hand.len() + table.len() > 0,
                i <= n,
                ranks@.len() == i,
                keys@.len() == i,
                forall|j: int| 0 <= j < i ==> #[trigger] ranks@[j] == player_hand(ps, table, j),
                forall|j: int| 0 <= j < i ==> #[trigger] keys@[j] == hand_key(player_hand(ps, table, j)),
            decreases n - i,
        {
            let mut cards = copy_cards(&self.players[i].hand);
            let mut rest = copy_cards(&self.cards_on_table);
            cards.append(&mut rest);
            assert(ps[i as int].hand.len() + table.len() > 0);
            let h = evaluate_hand(cards.as_slice());
            ranks.push(h);
            keys.push(h.strength());
            i = i + 1;
        }
        // the best key
        let mut best: u16 = keys[0];
        let mut j: usize = 1;
        assert(best_key(ps, table, 0) == -1);
        proof {
            lemma_hand_key_orders_hands(player_hand(ps, table, 0), player_hand(ps, table, 0));
        }
        while j < n
            invariant
                n == ps.len(),
                n >= 2,
                1 <= j <= n,
                keys@.len() == n,
                forall|k: int| 0 <= k < n ==> #[trigger] keys@[k] == hand_key(player_hand(ps, table, k)),
                best == best_key(ps, table, j as int),
            decreases n - j,
        {
            if keys[j] > best {
                best = keys[j];
            }
            j = j + 1;
        }
        // the first player holding it
        let mut a: usize = 0;
        proof {
            lemma_best_key_attained(ps, table, n as int);
        }
        while keys[a] != best
            invariant
                n == ps.len(),
                a < n,
                keys@.len() == n,
                forall|k: int| 0 <= k < n ==> #[trigger] keys@[k] == hand_key(player_hand(ps, table, k)),
                best == best_key(ps, table, n as int),
                first_with_key(ps, table, best as int, 0) == first_with_key(ps, table, best as int, a as int),
                exists|k: int| a <= k < n && hand_key(player_hand(ps, table, k)) == best,
            decreases n - a,
        {
            a = a + 1;
        }
        // the next one, if any
        let mut b: usize = a + 1;
        while b < n && keys[b] != best
            invariant
                n == ps.len(),
                a < b <= n,
                keys@.len() == n,
                forall|k: int| 0 <= k < n ==> #[trigger] keys@[k] == hand_key(player_hand(ps, table, k)),
                first_with_key(ps, table, best as int, a + 1) == first_with_key(ps, table, best as int, b as int),
            decreases n - b,
        {
            b = b + 1;
        }
        let found = b < n;
        let first = PlayerRank::of(self.players[a].id.as_str(), ranks[a]);
        if found {
            let second = PlayerRank::of(self.players[b].id.as_str(), ranks[b]);
            GameResult::Tie(first, second)
        } else {
            GameResult::Winner(first)
        }
    }
}

proof fn lemma_best_key_attained(ps: Seq<PlayerView>, table: Seq<Card>, n: int)
    requires
        1 <= n <= ps.len(),
    ensures
        exists|k: int| 0 <= k < n && hand_key(player_hand(ps, table, k)) == best_key(ps, table, n),
        forall|k: int| 0 <= k < n ==> hand_key(player_hand(ps, table, k)) <= best_key(ps, table, n),
    decreases n,
{
    lemma_hand_key_orders_hands(player_hand(ps, table, n - 1), player_hand(ps, table, n - 1));
    if n > 1 {
        lemma_best_key_attained(ps, table, n - 1);
        if hand_key(player_hand(ps, table, n - 1)) <= best_key(ps, table, n - 1) {
            let k = choose|k: int|
                0 <= k < n - 1 && hand_key(player_hand(ps, table, k)) == best_key(ps, table, n - 1);
            assert(0 <= k < n && hand_key(player_hand(ps, table, k)) == best_key(ps, table, n));
        } else {
            assert(hand_key(player_hand(ps, table, n - 1)) == best_key(ps, table, n));
        }
    } else {
        assert(best_key(ps, table, 0) == -1);
        assert(hand_key(player_hand(ps, table, 0)) == best_key(ps, table, 1));
    }
}


impl Dealer {
    /// Carries out the step of the current phase (shuffle, blinds, pocket
    /// cards, flop, turn, river or showdown) and moves to the next phase.
    /// No card enters or leaves the game.
    pub fn knock_knock(&mut self)
        requires
            dealer_wf(old(self)@),
            can_advance(old(self)@),
        ensures
            dealer_wf(final(self)@),
            advanced(old(self)@, final(self)@),
            cards_in_play(final(self)@) == cards_in_play(old(self)@),
    {
        let ghost d = self@;
        match self.game_state {
            GameState::PreDeal => {
                self.deck.shuffle();
                assert(cards_in_play(self@) =~= cards_in_play(d));
            },
            GameState::Blinds => {
                self.set_blinds();
                proof {
                    lemma_hands_multiset_same_hands(self@.players, d.players);
                    assert(cards_in_play(self@) =~= cards_in_play(d));
                }
            },
            GameState::PreFlop => {
                self.deal_pockets();
                proof {
                    lemma_hands_multiset_empty(d.players);
                    assert(d.cards_on_table =~= Seq::<Card>::empty());
                    assert(cards_in_play(self@) =~= cards_in_play(d));
                }
            },
            GameState::Flop => {
                self.deal_flop();
                proof {
                    assert(d.cards_on_table =~= Seq::<Card>::empty());
                    assert(cards_in_play(self@) =~= cards_in_play(d));
                }
            },
            GameState::Turn | GameState::River => {
                self.deal_street();
            },
            GameState::Shutdown => {
                let r = self.evaluate_hands();
                self.game_result = Some(r);
                assert(cards_in_play(self@) =~= cards_in_play(d));
            },
            GameState::Ended => {},
        };
        let ghost e = self@;
        self.change_state();
        proof {
            assert(cards_in_play(self@) =~= cards_in_play(e));
            if before_hands(self@.game_state) {
                assert(self@.game_state == GameState::Blinds || self@.game_state == GameState::PreFlop);
                assert forall|i: int| 0 <= i < self@.players.len() implies (
                #[trigger] self@.players[i]).hand.len() == 0 by {
                    if d.game_state == GameState::Blinds {
                        assert(self@.players[i] == (PlayerView { role: Some(blind_role(i)), ..d.players[i] }));
                    }
                }
            }
        }
    }
}


/// The first player at position `from` or later with identifier `id`; -1 if none.
pub open spec fn index_of_id(ps: Seq<PlayerView>, id: Seq<char>, from: int) -> int
    decreases ps.len() - from,
{
    if from < 0 || from >= ps.len() {
        -1
    } else if ps[from].id == id {
        from
    } else {
        index_of_id(ps, id, from + 1)
    }
}

/// Every player is ready.
pub open spec fn all_ready(ps: Seq<PlayerView>) -> bool {
    forall|i: int| 0 <= i < ps.len() ==> (#[trigger] ps[i]).state == PlayerState::READY
}

/// The dealer after player `k` takes the state `st`.
pub open spec fn with_player_state(d: DealerView, k: int, st: PlayerState) -> DealerView {
    DealerView { players: d.players.update(k, PlayerView { state: st, ..d.players[k] }), ..d }
}

/// The dealer after every player goes back to waiting.
pub open spec fn all_waiting(d: DealerView) -> DealerView {
    DealerView {
        players: Seq::new(
            d.players.len(),
            |i: int| PlayerView { state: PlayerState::WAITING, ..d.players[i] },
        ),
        ..d
    }
}

/// Setting player `id` to `st` makes every player ready, so the dealer moves on.
pub open spec fn would_advance(d: DealerView, id: Seq<char>, st: PlayerState) -> bool {
    let k = index_of_id(d.players, id, 0);
    k >= 0 && all_ready(with_player_state(d, k, st).players)
}

/// A player that has just sat down.
pub open spec fn new_player_view(id: Seq<char>) -> PlayerView {
    PlayerView {
        id,
        role: None,
        hand: Seq::empty(),
        state: PlayerState::WAITING,
        bet: None,
        balance: crate::common::STARTING_BALANCE,
    }
}

proof fn lemma_index_of_id(ps: Seq<PlayerView>, id: Seq<char>, from: int)
    requires
        0 <= from,
    ensures
        index_of_id(ps, id, from) == -1 || (from <= index_of_id(ps, id, from) < ps.len()
            && ps[index_of_id(ps, id, from)].id == id),
    decreases ps.len() - from,
{
    if from < ps.len() && ps[from].id != id {
        lemma_index_of_id(ps, id, from + 1);
    }
}

proof fn lemma_roled_same(a: Seq<PlayerView>, b: Seq<PlayerView>)
    requires
        a.len() == b.len(),
        forall|i: int| 0 <= i < a.len() ==> (#[trigger] a[i]).role == b[i].role,
    ensures
        roled_count(a) == roled_count(b),
    decreases a.len(),
{
    if a.len() > 0 {
        lemma_roled_same(a.drop_last(), b.drop_last());
        assert(a.last().role == b.last().role);
    }
}

/// Only players' states change: the cards, the roles and the validity stay.
proof fn lemma_states_only(d: DealerView, e: DealerView)
    requires
        dealer_wf(d),
        e.deck == d.deck,
        e.game_state == d.game_state,
        e.cards_on_table == d.cards_on_table,
        e.game_result == d.game_result,
        e.players.len() == d.players.len(),
        forall|i: int|
            0 <= i < d.players.len() ==> (#[trigger] e.players[i]).hand == d.players[i].hand
                && e.players[i].role == d.players[i].role,
    ensures
        dealer_wf(e),
        cards_in_play(e) == cards_in_play(d),
        can_advance(e) == can_advance(d),
{
    lemma_hands_multiset_same_hands(e.players, d.players);
    lemma_roled_same(e.players, d.players);
    assert(cards_in_play(e) =~= cards_in_play(d));
    if before_hands(e.game_state) {
        assert forall|i: int| 0 <= i < e.players.len() implies (#[trigger] e.players[i]).hand.len()
            == 0 by {
            assert(e.players[i].hand == d.players[i].hand);
        }
    }
}

impl Dealer {
    /// Where the player with identifier `id` sits, if anywhere.
    fn position_of(&self, id: &str) -> (r: Option<usize>)
        ensures
            match r {
                Some(k) => k == index_of_id(self@.players, id@, 0),
                None => index_of_id(self@.players, id@, 0) == -1,
            },
    {
        let ghost ps = self@.players;
        let n = self.players.len();
        let mut i: usize = 0;
        while i < n
            invariant
                n == ps.len(),
                ps == self@.players,
                i <= n,
                index_of_id(ps, id@, 0) == index_of_id(ps, id@, i as int),
            decreases n - i,
        {
            if crate::text::same_text(self.players[i].id.as_str(), id) {
                return Some(i);
            }
            i = i + 1;
        }
        None
    }

    /// Removes the first player with identifier `id`; does nothing if
    /// nobody has it. The cards that player held leave the game.
    pub fn remove_player(&mut self, p_id: &str)
        requires
            dealer_wf(old(self)@),
        ensures
            dealer_wf(final(self)@),
            index_of_id(old(self)@.players, p_id@, 0) >= 0 ==> final(self)@ == (DealerView {
                players: old(self)@.players.remove(index_of_id(old(self)@.players, p_id@, 0)),
                ..old(self)@
            }),
            index_of_id(old(self)@.players, p_id@, 0) < 0 ==> final(self)@ == old(self)@,
            cards_in_play(final(self)@).subset_of(cards_in_play(old(self)@)),
    {
        let ghost d = self@;
        match self.position_of(p_id) {
            Some(pos) => {
                proof {
                    lemma_index_of_id(d.players, p_id@, 0);
                }
                self.players.remove(pos);
                proof {
                    assert(players_view(self.players@) =~= d.players.remove(pos as int));
                    lemma_hands_multiset_remove(d.players, pos as int);
                    let h = d.players[pos as int].hand.to_multiset();
                    let rest = hands_multiset(self@.players);
                    assert forall|c: Card| cards_in_play(self@).count(c) <= cards_in_play(d).count(c) by {
                        assert(rest.add(h).count(c) == hands_multiset(d.players).count(c));
                    }
                    assert(cards_in_play(self@).subset_of(cards_in_play(d)));
                    if before_hands(d.game_state) {
                        assert forall|i: int| 0 <= i < self@.players.len() implies (
                        #[trigger] self@.players[i]).hand.len() == 0 by {
                            if i < pos {
                                assert(self@.players[i] == d.players[i]);
                            } else {
                                assert(self@.players[i] == d.players[i + 1]);
                            }
                        }
                    }
                }
            },
            None => {},
        }
    }

    /// Sets the state of the first player with identifier `id`. When that
    /// makes every player ready, the dealer takes the next step and every
    /// player goes back to waiting, and the answer is `true`; otherwise it is
    /// `false` (also when nobody has that identifier).
    pub fn player_change_state(&mut self, p_id: &str, state: PlayerState) -> (r: bool)
        requires
            dealer_wf(old(self)@),
            would_advance(old(self)@, p_id@, state) ==> can_advance(old(self)@),
        ensures
            dealer_wf(final(self)@),
            cards_in_play(final(self)@) == cards_in_play(old(self)@),
            r == would_advance(old(self)@, p_id@, state),
            index_of_id(old(self)@.players, p_id@, 0) < 0 ==> final(self)@ == old(self)@,
            index_of_id(old(self)@.players, p_id@, 0) >= 0 && !r ==> final(self)@
                == with_player_state(old(self)@, index_of_id(old(self)@.players, p_id@, 0), state),
            r ==> exists|e: DealerView|
                advanced(
                    with_player_state(old(self)@, index_of_id(old(self)@.players, p_id@, 0), state),
                    e,
                ) && final(self)@ == all_waiting(e),
    {
        let ghost d = self@;
        match self.position_of(p_id) {
            Some(pos) => {
                proof {
                    lemma_index_of_id(d.players, p_id@, 0);
                }
                let ghost d1 = with_player_state(d, pos as int, state);
                self.restate_one(pos, state);
                proof {
                    assert(self@ == d1);
                    lemma_states_only(d, d1);
                }
                let n = self.players.len();
                let mut ready = true;
                let mut i: usize = 0;
                while i < n
                    invariant
                        n == self@.players.len(),
                        i <= n,
                        ready == forall|j: int|
                            0 <= j < i ==> (#[trigger] self@.players[j]).state == PlayerState::READY,
                    decreases n - i,
                {
                    let st = self.players[i].state;
                    proof {
                        let ps = self@.players;
                        assert(ps[i as int].state == st);
                        if ready && st == PlayerState::READY {
                            assert forall|j: int| 0 <= j < i + 1 implies (#[trigger] ps[j]).state
                                == PlayerState::READY by {
                                if j < i {
                                    assert(0 <= j < i ==> ps[j].state == PlayerState::READY);
                                }
                            }
                        } else if !ready {
                            let j = choose|j: int| 0 <= j < i && (#[trigger] ps[j]).state != PlayerState::READY;
                            assert(0 <= j < i + 1 && ps[j].state != PlayerState::READY);
                        }
                    }
                    if st != PlayerState::READY {
                        ready = false;
                    }
                    i = i + 1;
                }
                if ready {
                    self.knock_knock();
                    let ghost e = self@;
                    self.all_back_to_waiting();
                    proof {
                        assert(self@ == all_waiting(e));
                        lemma_states_only(e, all_waiting(e));
                    }
                    true
                } else {
                    false
                }
            },
            None => false,
        }
    }

    /// Sets the state of player `k`.
    fn restate_one(&mut self, k: usize, state: PlayerState)
        requires
            k < old(self)@.players.len(),
        ensures
            final(self)@ == with_player_state(old(self)@, k as int, state),
    {
        let ghost ps = old(self)@.players;
        let n = self.players.len();
        let mut out: Vec<Player> = Vec::new();
        let mut i: usize = 0;
        while i < n
            invariant
                n == self.players@.len(),
                ps == players_view(self.players@),
                self.game_state == old(self).game_state,
                self.deck@ == old(self).deck@,
                self.cards_on_table@ == old(self).cards_on_table@,
                result_view(self.game_result) == result_view(old(self).game_result),
                i <= n,
                out@.len() == i,
                forall|j: int|
                    0 <= j < i ==> (#[trigger] out@[j])@ == (if j == k {
                        PlayerView { state, ..ps[j] }
                    } else {
                        ps[j]
                    }),
            decreases n - i,
        {
            if i == k {
                out.push(with_state(&self.players[i], state));
            } else {
                out.push(self.players[i].duplicate());
            }
            i = i + 1;
        }
        self.players = out;
        assert(players_view(self.players@) =~= ps.update(k as int, PlayerView { state, ..ps[k as int] }));
    }

    /// Every player goes back to waiting.
    fn all_back_to_waiting(&mut self)
        ensures
            final(self)@ == all_waiting(old(self)@),
    {
        let ghost ps = old(self)@.players;
        let n = self.players.len();
        let mut out: Vec<Player> = Vec::new();
        let mut i: usize = 0;
        while i < n
            invariant
                n == self.players@.len(),
                ps == players_view(self.players@),
                self.game_state == old(self).game_state,
                self.deck@ == old(self).deck@,
                self.cards_on_table@ == old(self).cards_on_table@,
                result_view(self.game_result) == result_view(old(self).game_result),
                i <= n,
                out@.len() == i,
                forall|j: int|
                    0 <= j < i ==> (#[trigger] out@[j])@ == (PlayerView {
                        state: PlayerState::WAITING,
                        ..ps[j]
                    }),
            decreases n - i,
        {
            out.push(with_state(&self.players[i], PlayerState::WAITING));
            i = i + 1;
        }
        self.players = out;
        assert(players_view(self.players@) =~= all_waiting(old(self)@).players);
    }

    /// Does the dealer have what the next step needs (see `can_advance`)?
    pub fn ready_to_advance(&self) -> (b: bool)
        ensures
            b == can_advance(self@),
    {
        let n = self.players.len();
        let left = self.deck.len();
        match self.game_state {
            GameState::Blinds => n >= 2,
            GameState::PreFlop => n <= left / 2,
            GameState::Flop => left >= 3,
            GameState::Turn | GameState::River => {
                let r = self.roled_players();
                r < left
            },
            GameState::Shutdown => n >= 2,
            _ => true,
        }
    }

    /// Number of players with a role.
    fn roled_players(&self) -> (r: usize)
        ensures
            r == roled_count(self@.players),
    {
        let ghost ps = self@.players;
        let n = self.players.len();
        let mut r: usize = 0;
        let mut i: usize = 0;
        assert(ps.take(0) =~= Seq::<PlayerView>::empty());
        while i < n
            invariant
                n == ps.len(),
                ps == self@.players,
                i <= n,
                r == roled_count(ps.take(i as int)),
                r <= i,
            decreases n - i,
        {
            proof {
                lemma_roled_take(ps, i as int);
            }
            if self.players[i].role.is_some() {
                r = r + 1;
            }
            i = i + 1;
        }
        assert(ps.take(n as int) =~= ps);
        r
    }
}


proof fn lemma_first_with_key(ps: Seq<PlayerView>, table: Seq<Card>, k: int, from: int)
    requires
        0 <= from,
    ensures
        first_with_key(ps, table, k, from) == -1 ==> forall|j: int|
            from <= j < ps.len() ==> hand_key(player_hand(ps, table, j)) != k,
        first_with_key(ps, table, k, from) != -1 ==> from <= first_with_key(ps, table, k, from)
            < ps.len() && hand_key(player_hand(ps, table, first_with_key(ps, table, k, from)))
            == k && forall|j: int|
            from <= j < first_with_key(ps, table, k, from) ==> hand_key(player_hand(ps, table, j))
                != k,
    decreases ps.len() - from,
{
    if from < ps.len() && hand_key(player_hand(ps, table, from)) != k {
        lemma_first_with_key(ps, table, k, from + 1);
    }
}

/// The showdown names the best hand: a winner holds a hand better than every
/// other player's; in a tie the two players named hold equal hands, no
/// player holds a better one, and they are the first two holding it.
pub proof fn lemma_showdown_names_best(ps: Seq<PlayerView>, table: Seq<Card>)
    requires
        ps.len() >= 1,
    ensures
        match showdown(ps, table) {
            GameResultView::Winner(w) => exists|a: int|
                0 <= a < ps.len() && w == rank_of_player(ps, table, a) && forall|j: int|
                    0 <= j < ps.len() && j != a ==> hand_rank_lt(
                        player_hand(ps, table, j),
                        w.rank,
                    ),
            GameResultView::Tie(x, y) => exists|a: int, b: int|
                0 <= a < b < ps.len() && x == rank_of_player(ps, table, a) && y == rank_of_player(
                    ps,
                    table,
                    b,
                ) && x.rank == y.rank && forall|j: int|
                    0 <= j < ps.len() ==> !hand_rank_lt(x.rank, player_hand(ps, table, j)),
        },
{
    let n = ps.len() as int;
    let k = best_key(ps, table, n);
    lemma_best_key_attained(ps, table, n);
    lemma_first_with_key(ps, table, k, 0);
    let a = first_with_key(ps, table, k, 0);
    lemma_first_with_key(ps, table, k, a + 1);
    let b = first_with_key(ps, table, k, a + 1);
    assert forall|j: int| 0 <= j < n implies hand_key(player_hand(ps, table, j)) <= k by {}
    assert forall|x: HandRank, y: HandRank| hand_key(x) < hand_key(y) <==> hand_rank_lt(x, y) by {
        lemma_hand_key_orders_hands(x, y);
    }
    if b >= 0 {
        lemma_hand_key_orders_hands(player_hand(ps, table, a), player_hand(ps, table, b));
        assert(0 <= a < b < n);
    } else {
        assert forall|j: int| 0 <= j < n && j != a implies hand_key(player_hand(ps, table, j)) < k by {
            if j < a {
            } else {
            }
        }
    }
}

/// A player as the browser sees it.
#[derive(Debug)]
pub struct PlayerDto {
    pub id: String,
    pub role: Option<Role>,
    pub state: PlayerState,
    pub hand: Vec<Card>,
}

/// A player description as plain values.
pub struct PlayerDtoView {
    pub id: Seq<char>,
    pub role: Option<Role>,
    pub state: PlayerState,
    pub hand: Seq<Card>,
}

impl View for PlayerDto {
    type V = PlayerDtoView;

    open spec fn view(&self) -> PlayerDtoView {
        PlayerDtoView { id: self.id@, role: self.role, state: self.state, hand: self.hand@ }
    }
}

/// What the browser is told about a player.
pub open spec fn dto_of(p: PlayerView) -> PlayerDtoView {
    PlayerDtoView { id: p.id, role: p.role, state: p.state, hand: p.hand }
}

/// The descriptions of a table's players.
pub open spec fn table_dtos(ps: Seq<PlayerView>) -> Seq<PlayerDtoView> {
    ps.map_values(|p: PlayerView| dto_of(p))
}

/// The descriptions of a list of players.
pub open spec fn dtos_view(v: Seq<PlayerDto>) -> Seq<PlayerDtoView> {
    v.map_values(|p: PlayerDto| p@)
}

impl PlayerDto {
    /// Describes a player.
    pub fn of(p: &Player) -> (d: PlayerDto)
        ensures
            d@ == dto_of(p@),
    {
        PlayerDto { id: p.id.clone(), role: p.role, state: p.state, hand: copy_cards(&p.hand) }
    }

    /// A copy of the description.
    pub fn duplicate(&self) -> (d: PlayerDto)
        ensures
            d@ == self@,
    {
        PlayerDto {
            id: self.id.clone(),
            role: self.role,
            state: self.state,
            hand: copy_cards(&self.hand),
        }
    }
}

/// A game table: one dealer and the players around it.
#[derive(Debug)]
pub struct GameTable {
    dealer: Dealer,
}

impl View for GameTable {
    type V = DealerView;

    closed spec fn view(&self) -> DealerView {
        self.dealer@
    }
}

impl GameTable {
    /// A new table with nobody at it: a fresh deck is shuffled and the table
    /// waits for the blinds.
    pub fn set_a_table() -> (t: GameTable)
        ensures
            dealer_wf(t@),
            t@.game_state == GameState::Blinds,
            t@.players.len() == 0,
            t@.cards_on_table.len() == 0,
            t@.game_result is None,
            t@.deck.len() == 52,
            t@.deck.to_multiset() == fresh_deck().to_multiset(),
    {
        let mut table = GameTable { dealer: Dealer::new(Vec::new()) };
        table.dealer.knock_knock();
        table
    }

    /// Seats a new player with identifier `id`.
    pub fn add_player(&mut self, id: &str)
        requires
            dealer_wf(old(self)@),
        ensures
            dealer_wf(final(self)@),
            final(self)@ == (DealerView {
                players: old(self)@.players.push(new_player_view(id@)),
                ..old(self)@
            }),
            cards_in_play(final(self)@) == cards_in_play(old(self)@),
    {
        let ghost d = self@;
        let p = Player::new(String::from_str(id));
        proof {
            lemma_players_view_push(self.dealer.players@, p);
        }
        self.dealer.players.push(p);
        proof {
            assert(p@ == new_player_view(id@)) by {
                assert(p@.hand =~= Seq::<Card>::empty());
            }
            lemma_hands_multiset_push(d.players, p@);
            assert(p@.hand.to_multiset() =~= Multiset::<Card>::empty());
            assert(cards_in_play(self@) =~= cards_in_play(d));
            if before_hands(d.game_state) {
                assert forall|i: int| 0 <= i < self@.players.len() implies (
                #[trigger] self@.players[i]).hand.len() == 0 by {
                    if i < d.players.len() {
                        assert(self@.players[i] == d.players[i]);
                    }
                }
            }
        }
    }

    /// Descriptions of the players, in seating order.
    pub fn players(&self) -> (out: Vec<PlayerDto>)
        ensures
            out@.len() == self@.players.len(),
            forall|i: int| 0 <= i < out@.len() ==> (#[trigger] out@[i])@ == dto_of(self@.players[i]),
    {
        let ghost ps = self@.players;
        let n = self.dealer.players.len();
        let mut out: Vec<PlayerDto> = Vec::new();
        let mut i: usize = 0;
        while i < n
            invariant
                n == ps.len(),
                ps == self@.players,
                i <= n,
                out@.len() == i,
                forall|j: int| 0 <= j < i ==> (#[trigger] out@[j])@ == dto_of(ps[j]),
            decreases n - i,
        {
            out.push(PlayerDto::of(&self.dealer.players[i]));
            i = i + 1;
        }
        out
    }

    /// Removes the first player with identifier `id`, if any.
    pub fn remove_player(&mut self, id: &str)
        requires
            dealer_wf(old(self)@),
        ensures
            dealer_wf(final(self)@),
            index_of_id(old(self)@.players, id@, 0) >= 0 ==> final(self)@ == (DealerView {
                players: old(self)@.players.remove(index_of_id(old(self)@.players, id@, 0)),
                ..old(self)@
            }),
            index_of_id(old(self)@.players, id@, 0) < 0 ==> final(self)@ == old(self)@,
            cards_in_play(final(self)@).subset_of(cards_in_play(old(self)@)),
    {
        self.dealer.remove_player(id)
    }

    /// Sets a player's state; see `Dealer::player_change_state`.
    pub fn player_change_state(&mut self, id: &str, state: PlayerState) -> (r: bool)
        requires
            dealer_wf(old(self)@),
            would_advance(old(self)@, id@, state) ==> can_advance(old(self)@),
        ensures
            dealer_wf(final(self)@),
            cards_in_play(final(self)@) == cards_in_play(old(self)@),
            r == would_advance(old(self)@, id@, state),
            index_of_id(old(self)@.players, id@, 0) < 0 ==> final(self)@ == old(self)@,
            index_of_id(old(self)@.players, id@, 0) >= 0 && !r ==> final(self)@
                == with_player_state(old(self)@, index_of_id(old(self)@.players, id@, 0), state),
            r ==> exists|e: DealerView|
                advanced(
                    with_player_state(old(self)@, index_of_id(old(self)@.players, id@, 0), state),
                    e,
                ) && final(self)@ == all_waiting(e),
    {
        self.dealer.player_change_state(id, state)
    }

    /// Would setting player `id` to `state` be safe, that is: if it makes
    /// everybody ready, does the dealer have what the next step needs?
    pub fn can_change_player_state(&self, id: &str, state: PlayerState) -> (b: bool)
        ensures
            b == (would_advance(self@, id@, state) ==> can_advance(self@)),
    {
        match self.dealer.position_of(id) {
            None => true,
            Some(k) => {
                proof {
                    lemma_index_of_id(self@.players, id@, 0);
                }
                let n = self.dealer.players.len();
                let ghost d1 = with_player_state(self@, k as int, state);
                let mut ready = true;
                let mut i: usize = 0;
                while i < n
                    invariant
                        n == d1.players.len(),
                        n == self@.players.len(),
                        k < n,
                        d1 == with_player_state(self@, k as int, state),
                        i <= n,
                        ready == forall|j: int|
                            0 <= j < i ==> (#[trigger] d1.players[j]).state == PlayerState::READY,
                    decreases n - i,
                {
                    let st = if i == k {
                        state
                    } else {
                        self.dealer.players[i].state
                    };
                    proof {
                        let ps = d1.players;
                        assert(ps[i as int].state == st);
                        if ready && st == PlayerState::READY {
                            assert forall|j: int| 0 <= j < i + 1 implies (#[trigger] ps[j]).state
                                == PlayerState::READY by {
                                if j < i {
                                    assert(0 <= j < i ==> ps[j].state == PlayerState::READY);
                                }
                            }
                        } else if !ready {
                            let j = choose|j: int|
                                0 <= j < i && (#[trigger] ps[j]).state != PlayerState::READY;
                            assert(0 <= j < i + 1 && ps[j].state != PlayerState::READY);
                        }
                    }
                    if st != PlayerState::READY {
                        ready = false;
                    }
                    i = i + 1;
                }
                !ready || self.dealer.ready_to_advance()
            },
        }
    }

    /// The result of the game, once it has ended.
    pub fn get_result(&self) -> (r: Option<GameResult>)
        ensures
            result_view(r) == self@.game_result,
    {
        duplicate_result(&self.dealer.game_result)
    }

    /// The phase of the game.
    pub fn game_state(&self) -> (s: GameState)
        ensures
            s == self@.game_state,
    {
        self.dealer.game_state
    }

    /// The cards on the table.
    pub fn cards_on_table(&self) -> (c: Vec<Card>)
        ensures
            c@ == self@.cards_on_table,
    {
        copy_cards(&self.dealer.cards_on_table)
    }
}

/// What the server tells the players about a table.
#[derive(Debug)]
pub struct TableDto {
    pub id: String,
    pub state: GameState,
    pub players: Vec<PlayerDto>,
    pub card_on_table: Vec<Card>,
    pub result: Option<GameResult>,
}

impl TableDto {
    /// Describes the table `table` known as `table_id`, with the given result.
    pub fn from(table_id: &str, table: &GameTable, result: Option<GameResult>) -> (t: TableDto)
        ensures
            t.id@ == table_id@,
            t.state == table@.game_state,
            t.players@.len() == table@.players.len(),
            forall|i: int| 0 <= i < t.players@.len() ==> (#[trigger] t.players@[i])@ == dto_of(table@.players[i]),
            t.card_on_table@ == table@.cards_on_table,
            t.result == result,
    {
        TableDto {
            id: String::from_str(table_id),
            players: table.players(),
            state: table.game_state(),
            card_on_table: table.cards_on_table(),
            result,
        }
    }
}


/// What `remove_player` does to a dealer `d`, giving `e`.
pub open spec fn player_removed(d: DealerView, e: DealerView, id: Seq<char>) -> bool {
    &&& index_of_id(d.players, id, 0) >= 0 ==> e == (DealerView {
        players: d.players.remove(index_of_id(d.players, id, 0)),
        ..d
    })
    &&& index_of_id(d.players, id, 0) < 0 ==> e == d
}

/// What `player_change_state(id, st)` does to a dealer `d`, giving `e` and
/// the answer `r`.
pub open spec fn state_changed(
    d: DealerView,
    e: DealerView,
    id: Seq<char>,
    st: PlayerState,
    r: bool,
) -> bool {
    let k = index_of_id(d.players, id, 0);
    &&& r == would_advance(d, id, st)
    &&& k < 0 ==> e == d
    &&& k >= 0 && !r ==> e == with_player_state(d, k, st)
    &&& r ==> exists|m: DealerView| advanced(with_player_state(d, k, st), m) && e == all_waiting(m)
}


/// A change of a player's state keeps every player in their seat: same
/// number of players, same identifiers in the same places.
pub proof fn lemma_state_changed_keeps_ids(
    d: DealerView,
    e: DealerView,
    id: Seq<char>,
    st: PlayerState,
    r: bool,
)
    requires
        state_changed(d, e, id, st, r),
    ensures
        e.players.len() == d.players.len(),
        forall|i: int| 0 <= i < e.players.len() ==> (#[trigger] e.players[i]).id == d.players[i].id,
{
    let k = index_of_id(d.players, id, 0);
    if k >= 0 {
        lemma_index_of_id(d.players, id, 0);
        let d1 = with_player_state(d, k, st);
        assert(d1.players.len() == d.players.len());
        assert forall|i: int| 0 <= i < d.players.len() implies (#[trigger] d1.players[i]).id
            == d.players[i].id by {}
        if r {
            let m = choose|m: DealerView| advanced(d1, m) && e == all_waiting(m);
            assert(m.players.len() == d1.players.len());
            assert forall|i: int| 0 <= i < m.players.len() implies (#[trigger] m.players[i]).id
                == d1.players[i].id by {}
        }
    }
}

proof fn lemma_first_index(ps: Seq<PlayerView>, id: Seq<char>, from: int, k: int)
    requires
        0 <= from <= k < ps.len(),
        ps[k].id == id,
        forall|j: int| from <= j < k ==> (#[trigger] ps[j]).id != id,
    ensures
        index_of_id(ps, id, from) == k,
    decreases k - from,
{
    if from < k {
        lemma_first_index(ps, id, from + 1, k);
    }
}

/// A change of state that does not move the game on gives the player at
/// seat `k` (the first seat holding `id`) the state `st`, whatever `st` is,
/// and changes nothing else: the other players, the deck, the table, the
/// phase and the result stay as they were.
pub proof fn lemma_state_change_is_kept(
    d: DealerView,
    e: DealerView,
    id: Seq<char>,
    st: PlayerState,
    r: bool,
    k: int,
)
    requires
        state_changed(d, e, id, st, r),
        !r,
        0 <= k < d.players.len(),
        d.players[k].id == id,
        forall|j: int| 0 <= j < k ==> (#[trigger] d.players[j]).id != id,
    ensures
        e.players.len() == d.players.len(),
        e.players[k].state == st,
        e.players[k].id == id,
        e.players[k].role == d.players[k].role,
        e.players[k].hand == d.players[k].hand,
        e.players[k].bet == d.players[k].bet,
        e.players[k].balance == d.players[k].balance,
        forall|j: int| 0 <= j < d.players.len() && j != k ==> (#[trigger] e.players[j]) == d.players[j],
        e.deck == d.deck,
        e.cards_on_table == d.cards_on_table,
        e.game_state == d.game_state,
        e.game_result == d.game_result,
{
    lemma_first_index(d.players, id, 0, k);
}

/// Setting the blinds makes the first player the small blind, the second
/// the big blind and every later player one of the others; nothing else
/// about the players changes, and the game moves to the pre-flop.
pub proof fn lemma_blinds_roles(d: DealerView, e: DealerView)
    requires
        d.game_state == GameState::Blinds,
        advanced(d, e),
    ensures
        e.game_state == GameState::PreFlop,
        e.players.len() == d.players.len(),
        d.players.len() > 0 ==> e.players[0].role == Some(Role::SmallBlind),
        d.players.len() > 1 ==> e.players[1].role == Some(Role::BigBlind),
        forall|i: int| 2 <= i < e.players.len() ==> (#[trigger] e.players[i]).role == Some(Role::Others),
        forall|i: int|
            0 <= i < e.players.len() ==> (#[trigger] e.players[i]).id == d.players[i].id
                && e.players[i].hand == d.players[i].hand && e.players[i].state == d.players[i].state
                && e.players[i].bet == d.players[i].bet && e.players[i].balance == d.players[i].balance,
        e.deck == d.deck,
        e.cards_on_table == d.cards_on_table,
{
}

/// Removing a player leaves the others in their order.
pub proof fn lemma_player_removed_ids(d: DealerView, e: DealerView, id: Seq<char>)
    requires
        player_removed(d, e, id),
    ensures
        forall|i: int| 0 <= i < e.players.len() ==> exists|j: int|
            0 <= j < d.players.len() && (#[trigger] e.players[i]).id == d.players[j].id,
{
    let k = index_of_id(d.players, id, 0);
    if k >= 0 {
        lemma_index_of_id(d.players, id, 0);
        assert forall|i: int| 0 <= i < e.players.len() implies exists|j: int|
            0 <= j < d.players.len() && (#[trigger] e.players[i]).id == d.players[j].id by {
            if i < k {
                assert(e.players[i] == d.players[i]);
            } else {
                assert(e.players[i] == d.players[i + 1]);
            }
        }
    } else {
        assert forall|i: int| 0 <= i < e.players.len() implies exists|j: int|
            0 <= j < d.players.len() && (#[trigger] e.players[i]).id == d.players[j].id by {
            assert(e.players[i] == d.players[i]);
        }
    }
}

} // verus!
