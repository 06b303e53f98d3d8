//! What the browser decides: how it reads the server's messages, which
//! buttons it shows in each phase, how it colours a suit, and which players
//! it lists.
use crate::common::{GameState, Player, PlayerView};
use crate::protocol::framed;
use crate::text::{same_text, split_at_sep, split_text, texts_view};
use vstd::prelude::*;

verus! {

/// A message from the server, sorted by its opening word; the text kept is
/// the piece after the first "::".
#[derive(Debug)]
pub enum ServerMessage {
    TableId(String),
    UserId(String),
    Players(String),
    Game(String),
    AllTables(String),
    Cards(String),
    Other,
}

/// A server message as plain values.
pub enum ServerMessageView {
    TableId(Seq<char>),
    UserId(Seq<char>),
    Players(Seq<char>),
    Game(Seq<char>),
    AllTables(Seq<char>),
    Cards(Seq<char>),
    Other,
}

impl View for ServerMessage {
    type V = ServerMessageView;

    open spec fn view(&self) -> ServerMessageView {
        match self {
            ServerMessage::TableId(s) => ServerMessageView::TableId(s@),
            ServerMessage::UserId(s) => ServerMessageView::UserId(s@),
            ServerMessage::Players(s) => ServerMessageView::Players(s@),
            ServerMessage::Game(s) => ServerMessageView::Game(s@),
            ServerMessage::AllTables(s) => ServerMessageView::AllTables(s@),
            ServerMessage::Cards(s) => ServerMessageView::Cards(s@),
            ServerMessage::Other => ServerMessageView::Other,
        }
    }
}

/// Does `s` begin with `p`?
pub open spec fn begins_with(s: Seq<char>, p: Seq<char>) -> bool {
    p.len() <= s.len() && s.subrange(0, p.len() as int) == p
}

/// Does the message begin with one of the words the browser acts on?
pub open spec fn has_known_prefix(s: Seq<char>) -> bool {
    ||| begins_with(s, "table_id"@)
    ||| begins_with(s, "user_id"@)
    ||| begins_with(s, "players"@)
    ||| begins_with(s, "game"@)
    ||| begins_with(s, "all_tables"@)
    ||| begins_with(s, "table::"@)
}

/// A message the browser can read: if it begins with a known word, it has
/// a piece after the first "::".
pub open spec fn readable(s: Seq<char>) -> bool {
    has_known_prefix(s) ==> split_at_sep(s, "::"@).len() >= 2
}

/// How the browser reads a message: by its opening word, keeping the piece
/// after the first "::".
pub open spec fn read_message(s: Seq<char>) -> ServerMessageView {
    let body = split_at_sep(s, "::"@)[1];
    if begins_with(s, "table_id"@) {
        ServerMessageView::TableId(body)
    } else if begins_with(s, "user_id"@) {
        ServerMessageView::UserId(body)
    } else if begins_with(s, "players"@) {
        ServerMessageView::Players(body)
    } else if begins_with(s, "game"@) {
        ServerMessageView::Game(body)
    } else if begins_with(s, "all_tables"@) {
        ServerMessageView::AllTables(body)
    } else if begins_with(s, "table::"@) {
        ServerMessageView::Cards(body)
    } else {
        ServerMessageView::Other
    }
}

/// Does `s` begin with `p`?
pub fn starts_with_text(s: &str, p: &str) -> (b: bool)
    ensures
        b == begins_with(s@, p@),
{
    let n = p.unicode_len();
    if n > s.unicode_len() {
        return false;
    }
    let head = s.substring_char(0, n);
    same_text(head, p)
}

fn known_prefix(msg: &str) -> (b: bool)
    ensures
        b == has_known_prefix(msg@),
{
    starts_with_text(msg, "table_id") || starts_with_text(msg, "user_id")
        || starts_with_text(msg, "players") || starts_with_text(msg, "game")
        || starts_with_text(msg, "all_tables") || starts_with_text(msg, "table::")
}

/// Can the browser read the message (see `readable`)?
pub fn is_readable(msg: &str) -> (b: bool)
    ensures
        b == readable(msg@),
{
    proof {
        reveal_strlit("::");
    }
    if !known_prefix(msg) {
        return true;
    }
    let parts = split_text(msg, "::");
    assert(texts_view(parts@).len() == parts@.len());
    parts.len() >= 2
}

/// Reads a message from the server.
pub fn read_server_message(msg: &str) -> (r: ServerMessage)
    requires
        readable(msg@),
    ensures
        r@ == read_message(msg@),
{
    proof {
        reveal_strlit("::");
    }
    if !known_prefix(msg) {
        return ServerMessage::Other;
    }
    let mut parts = split_text(msg, "::");
    assert(texts_view(parts@).len() == parts@.len());
    assert(texts_view(parts@)[1] == parts@[1]@);
    let body = parts.swap_remove(1);
    if starts_with_text(msg, "table_id") {
        ServerMessage::TableId(body)
    } else if starts_with_text(msg, "user_id") {
        ServerMessage::UserId(body)
    } else if starts_with_text(msg, "players") {
        ServerMessage::Players(body)
    } else if starts_with_text(msg, "game") {
        ServerMessage::Game(body)
    } else if starts_with_text(msg, "all_tables") {
        ServerMessage::AllTables(body)
    } else {
        ServerMessage::Cards(body)
    }
}

/// The request that seats the user at table `table_id`.
pub fn join_request(table_id: &str) -> (s: String)
    ensures
        s@ == framed("add_player_to_table"@, table_id@),
{
    crate::protocol::frame("add_player_to_table", table_id)
}

/// Are the all-in and raise buttons shown? Not before the flop.
pub fn shows_bet_buttons(state: GameState) -> (b: bool)
    ensures
        b == !(state == GameState::PreDeal || state == GameState::Blinds || state
            == GameState::PreFlop),
{
    match state {
        GameState::PreDeal | GameState::Blinds | GameState::PreFlop => false,
        _ => true,
    }
}

/// Are the ready and fold buttons shown? Until the game has ended.
pub fn shows_ready_buttons(state: GameState) -> (b: bool)
    ensures
        b == (state != GameState::Ended),
{
    match state {
        GameState::Ended => false,
        _ => true,
    }
}

/// The style of a card by its suit symbol: red for hearts and diamonds,
/// black for clubs and spades, a blank card for anything else.
pub open spec fn suit_style_of(suit: Seq<char>) -> (Seq<char>, Seq<char>) {
    if suit == "♥"@ || suit == "♦"@ {
        ("card"@, "red"@)
    } else if suit == "♣"@ || suit == "♠"@ {
        ("card"@, "black"@)
    } else {
        ("mock"@, ""@)
    }
}

/// The class and colour in which a card with this suit symbol is drawn.
pub fn suit_style(suit: &str) -> (r: (String, String))
    ensures
        (r.0@, r.1@) == suit_style_of(suit@),
{
    if same_text(suit, "♥") || same_text(suit, "♦") {
        (String::from_str("card"), String::from_str("red"))
    } else if same_text(suit, "♣") || same_text(suit, "♠") {
        (String::from_str("card"), String::from_str("black"))
    } else {
        (String::from_str("mock"), String::from_str(""))
    }
}

/// The first player with identifier `id`, if any.
pub fn find_user(players: &Vec<Player>, id: &str) -> (r: Option<usize>)
    ensures
        match r {
            Some(i) => i < players@.len() && players@[i as int]@.id == id@ && forall|j: int|
                0 <= j < i ==> (#[trigger] players@[j])@.id != id@,
            None => forall|j: int| 0 <= j < players@.len() ==> (#[trigger] players@[j])@.id != id@,
        },
{
    let n = players.len();
    let mut i: usize = 0;
    while i < n
        invariant
            n == players@.len(),
            i <= n,
            forall|j: int| 0 <= j < i ==> (#[trigger] players@[j])@.id != id@,
        decreases n - i,
    {
        if same_text(players[i].id.as_str(), id) {
            return Some(i);
        }
        i = i + 1;
    }
    None
}

/// The positions of the players other than the user, in order.
pub fn other_players(players: &Vec<Player>, id: &str) -> (r: Vec<usize>)
    ensures
        r@ == Seq::new(players@.len(), |j: int| j).filter(|j: int| players@[j]@.id != id@).map_values(
            |j: int| j as usize,
        ),
{
    let n = players.len();
    let ghost pick = |j: int| players@[j]@.id != id@;
    let ghost idx = Seq::new(players@.len(), |j: int| j);
    let mut r: Vec<usize> = Vec::new();
    let mut i: usize = 0;
    while i < n
        invariant
            n == players@.len(),
            i <= n,
            idx == Seq::new(players@.len(), |j: int| j),
            pick == (|j: int| players@[j]@.id != id@),
            r@ == idx.take(i as int).filter(pick).map_values(|j: int| j as usize),
        decreases n - i,
    {
        proof {
            reveal_with_fuel(Seq::<int>::filter, 1);
            assert(idx.take(i + 1).drop_last() =~= idx.take(i as int));
            assert(idx.take(i + 1).last() == i as int);
        }
        if !same_text(players[i].id.as_str(), id) {
            r.push(i);
            assert(r@ =~= idx.take(i + 1).filter(pick).map_values(|j: int| j as usize));
        } else {
            assert(r@ =~= idx.take(i + 1).filter(pick).map_values(|j: int| j as usize));
        }
        i = i + 1;
    }
    assert(idx.take(n as int) =~= idx);
    r
}

} // verus!
