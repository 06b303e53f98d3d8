//! Types shared by the server and the browser: players, their roles and
//! states, the phases of a game and its result.
use crate::card::{Card, HandRank};
use vstd::prelude::*;

verus! {

/// The forced-bet role of a player at the table.
#[derive(Clone, Copy, Debug, PartialEq, Eq, Structural)]
pub enum Role {
    SmallBlind,
    BigBlind,
    Others,
}

/// Whether a player has declared themselves ready for the next step.
#[derive(Clone, Copy, Debug, PartialEq, Eq, Structural)]
pub enum PlayerState {
    READY,
    WAITING,
}

/// The phases of a game, in the order they are played.
#[derive(Clone, Copy, Debug, PartialEq, Eq, Structural)]
pub enum GameState {
    PreDeal,
    Blinds,
    PreFlop,
    Flop,
    Turn,
    River,
    Shutdown,
    Ended,
}

impl Default for GameState {
    fn default() -> (s: Self)
        ensures
            s == GameState::PreDeal,
    {
        GameState::PreDeal
    }
}

/// A player: identifier, role once the blinds are set, cards in hand,
/// readiness, current bet and balance.
#[derive(Debug, Clone, PartialEq)]
pub struct Player {
    pub id: String,
    pub role: Option<Role>,
    pub hand: Vec<Card>,
    pub state: PlayerState,
    pub bet: Option<i32>,
    pub balance: i32,
}

/// A player as plain values.
pub struct PlayerView {
    pub id: Seq<char>,
    pub role: Option<Role>,
    pub hand: Seq<Card>,
    pub state: PlayerState,
    pub bet: Option<i32>,
    pub balance: i32,
}

impl View for Player {
    type V = PlayerView;

    open spec fn view(&self) -> PlayerView {
        PlayerView {
            id: self.id@,
            role: self.role,
            hand: self.hand@,
            state: self.state,
            bet: self.bet,
            balance: self.balance,
        }
    }
}

/// The views of a list of players.
pub open spec fn players_view(ps: Seq<Player>) -> Seq<PlayerView> {
    ps.map_values(|p: Player| p@)
}

/// The balance every player starts with.
pub const STARTING_BALANCE: i32 = 1000;

impl Player {
    /// A new player with the given identifier: no role, no cards, waiting,
    /// no bet and the starting balance.
    pub fn new(id: String) -> (p: Player)
        ensures
            p@.id == id@,
            p.role is None,
            p.hand@.len() == 0,
            p.state == PlayerState::WAITING,
            p.bet is None,
            p.balance == STARTING_BALANCE,
    {
        Player {
            id: id,
            role: None,
            hand: Vec::new(),
            state: PlayerState::WAITING,
            bet: None,
            balance: STARTING_BALANCE,
        }
    }

    /// The name of the player's blind ("SmallBlind" or "BigBlind"), or "-".
    pub fn role_str(&self) -> (s: String)
        ensures
            s@ == role_text(self.role),
    {
        match self.role {
            Some(Role::BigBlind) => String::from_str("BigBlind"),
            Some(Role::SmallBlind) => String::from_str("SmallBlind"),
            _ => String::from_str("-"),
        }
    }

    /// A copy of the player with another hand.
    pub fn with_hand(&self, hand: Vec<Card>) -> (p: Player)
        ensures
            p@ == (PlayerView { hand: hand@, ..self@ }),
    {
        Player {
            id: self.id.clone(),
            role: self.role,
            hand,
            state: self.state,
            bet: self.bet,
            balance: self.balance,
        }
    }

    /// A copy of the player.
    pub fn duplicate(&self) -> (p: Player)
        ensures
            p@ == self@,
    {
        self.with_hand(copy_cards(&self.hand))
    }
}

/// How `Player::role_str` names a role.
pub open spec fn role_text(role: Option<Role>) -> Seq<char> {
    match role {
        Some(Role::BigBlind) => "BigBlind"@,
        Some(Role::SmallBlind) => "SmallBlind"@,
        _ => "-"@,
    }
}

/// A copy of a list of cards.
pub fn copy_cards(cards: &Vec<Card>) -> (out: Vec<Card>)
    ensures
        out@ == cards@,
{
    let mut out: Vec<Card> = Vec::new();
    let mut i: usize = 0;
    while i < cards.len()
        invariant
            i <= cards@.len(),
            out@ == cards@.take(i as int),
        decreases cards@.len() - i,
    {
        out.push(cards[i]);
        i = i + 1;
        assert(out@ =~= cards@.take(i as int));
    }
    assert(cards@.take(i as int) =~= cards@);
    out
}

/// The hand a player holds at the end of a game.
#[derive(Debug)]
pub struct PlayerRank {
    pub id: String,
    pub rank: HandRank,
}

/// A player's rank as plain values.
pub struct PlayerRankView {
    pub id: Seq<char>,
    pub rank: HandRank,
}

impl View for PlayerRank {
    type V = PlayerRankView;

    open spec fn view(&self) -> PlayerRankView {
        PlayerRankView { id: self.id@, rank: self.rank }
    }
}

impl PlayerRank {
    /// The rank of the player with identifier `id`.
    pub fn of(id: &str, rank: HandRank) -> (r: PlayerRank)
        ensures
            r.id@ == id@,
            r.rank == rank,
    {
        PlayerRank { id: String::from_str(id), rank }
    }

    /// A copy of the player's rank.
    pub fn duplicate(&self) -> (r: PlayerRank)
        ensures
            r@ == self@,
    {
        PlayerRank { id: self.id.clone(), rank: self.rank }
    }
}

/// The outcome of a game: one winner, or the first two players that share
/// the best hand.
#[derive(Debug)]
pub enum GameResult {
    Winner(PlayerRank),
    Tie(PlayerRank, PlayerRank),
}

/// A game's result as plain values.
pub enum GameResultView {
    Winner(PlayerRankView),
    Tie(PlayerRankView, PlayerRankView),
}

impl View for GameResult {
    type V = GameResultView;

    open spec fn view(&self) -> GameResultView {
        match self {
            GameResult::Winner(w) => GameResultView::Winner(w@),
            GameResult::Tie(a, b) => GameResultView::Tie(a@, b@),
        }
    }
}

/// The view of an optional result.
pub open spec fn result_view(r: Option<GameResult>) -> Option<GameResultView> {
    match r {
        Some(g) => Some(g@),
        None => None,
    }
}

impl GameResult {
    /// A copy of the result.
    pub fn duplicate(&self) -> (r: GameResult)
        ensures
            r@ == self@,
    {
        match self {
            GameResult::Winner(w) => GameResult::Winner(w.duplicate()),
            GameResult::Tie(a, b) => GameResult::Tie(a.duplicate(), b.duplicate()),
        }
    }
}

/// Copies an optional result.
pub fn duplicate_result(r: &Option<GameResult>) -> (out: Option<GameResult>)
    ensures
        result_view(out) == result_view(*r),
{
    match r {
        Some(g) => Some(g.duplicate()),
        None => None,
    }
}

/// What the browser is told about a table.
#[derive(Debug)]
pub struct TableDto {
    pub id: String,
    pub state: GameState,
    pub players: Vec<Player>,
    pub card_on_table: Vec<Card>,
    pub result: Option<GameResult>,
}

impl TableDto {
    /// Gathers the parts of a table's description.
    pub fn from(
        id: String,
        players: Vec<Player>,
        state: GameState,
        card_on_table: Vec<Card>,
        result: Option<GameResult>,
    ) -> (t: TableDto)
        ensures
            t == (TableDto { id, state, players, card_on_table, result }),
    {
        TableDto { id, state, players, card_on_table, result }
    }
}

/// What the browser keeps of the game it takes part in.
#[derive(PartialEq, Clone, Debug, Default)]
pub struct ContextHolder {
    pub game_state: GameState,
    pub table_id: String,
    pub user_id: String,
    pub players: Vec<Player>,
    pub cards_on_table: Vec<Card>,
}

} // verus!
