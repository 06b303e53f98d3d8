//! The text protocol between the browser and the server: requests are
//! words separated by `::`, answers are a tag, `::` and a body.
use crate::card::Card;
use crate::common::{GameResult, GameResultView, GameState};
use crate::table::{dtos_view, PlayerDto, PlayerDtoView};
use crate::text::{lacks_char, lemma_split_joined, same_text, split_at_sep, split_text, texts_view};
use vstd::prelude::*;

verus! {

/// A request from a browser.
#[derive(Debug)]
pub enum RequestWrapper {
    SetATable,
    AddPlayerToTable(String),
    Ready,
    AllTables,
    Unknown(String),
}

/// A request as plain values.
pub enum RequestView {
    SetATable,
    AddPlayerToTable(Seq<char>),
    Ready,
    AllTables,
    Unknown(Seq<char>),
}

impl View for RequestWrapper {
    type V = RequestView;

    open spec fn view(&self) -> RequestView {
        match self {
            RequestWrapper::SetATable => RequestView::SetATable,
            RequestWrapper::AddPlayerToTable(t) => RequestView::AddPlayerToTable(t@),
            RequestWrapper::Ready => RequestView::Ready,
            RequestWrapper::AllTables => RequestView::AllTables,
            RequestWrapper::Unknown(m) => RequestView::Unknown(m@),
        }
    }
}

/// How a message is read: split at `::`; one word is `set_a_table`,
/// `ready` or `all_tables`; two words are `add_player_to_table` and a table
/// identifier; anything else is unknown and kept whole.
pub open spec fn parse_request(s: Seq<char>) -> RequestView {
    let parts = split_at_sep(s, "::"@);
    if parts.len() == 1 {
        if parts[0] == "set_a_table"@ {
            RequestView::SetATable
        } else if parts[0] == "ready"@ {
            RequestView::Ready
        } else if parts[0] == "all_tables"@ {
            RequestView::AllTables
        } else {
            RequestView::Unknown(s)
        }
    } else if parts.len() == 2 {
        if parts[0] == "add_player_to_table"@ {
            RequestView::AddPlayerToTable(parts[1])
        } else {
            RequestView::Unknown(s)
        }
    } else {
        RequestView::Unknown(s)
    }
}

impl RequestWrapper {
    /// Reads a request from the text of a message.
    pub fn from(value: &str) -> (r: RequestWrapper)
        ensures
            r@ == parse_request(value@),
    {
        proof {
            reveal_strlit("::");
        }
        let mut parts = split_text(value, "::");
        let ghost pv = texts_view(parts@);
        assert(pv.len() == parts@.len());
        if parts.len() == 1 {
            assert(pv[0] == parts@[0]@);
            let w = parts[0].as_str();
            if same_text(w, "set_a_table") {
                RequestWrapper::SetATable
            } else if same_text(w, "ready") {
                RequestWrapper::Ready
            } else if same_text(w, "all_tables") {
                RequestWrapper::AllTables
            } else {
                RequestWrapper::Unknown(String::from_str(value))
            }
        } else if parts.len() == 2 {
            assert(pv[0] == parts@[0]@);
            assert(pv[1] == parts@[1]@);
            if same_text(parts[0].as_str(), "add_player_to_table") {
                let id = parts.swap_remove(1);
                RequestWrapper::AddPlayerToTable(id)
            } else {
                RequestWrapper::Unknown(String::from_str(value))
            }
        } else {
            RequestWrapper::Unknown(String::from_str(value))
        }
    }
}

/// An answer from the server.
#[derive(Debug)]
pub enum ResponseWrapper {
    TableId(String),
    UserId(String),
    Players(Vec<PlayerDto>),
    PlayerDisconnected(String),
    CardsOnTable(Vec<Card>),
    GameStatusChanged(GameState),
    GameFinished(GameResult),
    AllTables(Vec<String>),
    Unknown(String),
}

/// An answer as plain values.
pub enum ResponseView {
    TableId(Seq<char>),
    UserId(Seq<char>),
    Players(Seq<PlayerDtoView>),
    PlayerDisconnected(Seq<char>),
    CardsOnTable(Seq<Card>),
    GameStatusChanged(GameState),
    GameFinished(GameResultView),
    AllTables(Seq<Seq<char>>),
    Unknown(Seq<char>),
}

impl View for ResponseWrapper {
    type V = ResponseView;

    open spec fn view(&self) -> ResponseView {
        match self {
            ResponseWrapper::TableId(s) => ResponseView::TableId(s@),
            ResponseWrapper::UserId(s) => ResponseView::UserId(s@),
            ResponseWrapper::Players(v) => ResponseView::Players(dtos_view(v@)),
            ResponseWrapper::PlayerDisconnected(s) => ResponseView::PlayerDisconnected(s@),
            ResponseWrapper::CardsOnTable(v) => ResponseView::CardsOnTable(v@),
            ResponseWrapper::GameStatusChanged(g) => ResponseView::GameStatusChanged(*g),
            ResponseWrapper::GameFinished(r) => ResponseView::GameFinished(r@),
            ResponseWrapper::AllTables(v) => ResponseView::AllTables(texts_view(v@)),
            ResponseWrapper::Unknown(s) => ResponseView::Unknown(s@),
        }
    }
}

/// The tag that opens the text of an answer.
pub open spec fn response_tag(r: ResponseView) -> Seq<char> {
    match r {
        ResponseView::TableId(_) => "table_id"@,
        ResponseView::UserId(_) => "user_id"@,
        ResponseView::Players(_) => "players"@,
        ResponseView::PlayerDisconnected(_) => "player_disconnected"@,
        ResponseView::CardsOnTable(_) => "table"@,
        ResponseView::GameStatusChanged(_) => "game"@,
        ResponseView::GameFinished(_) => "end"@,
        ResponseView::AllTables(_) => "all_tables"@,
        ResponseView::Unknown(_) => "unknown"@,
    }
}

/// The text of an answer carrying `body`: the tag, `::`, the body.
pub open spec fn framed(tag: Seq<char>, body: Seq<char>) -> Seq<char> {
    tag + "::"@ + body
}

/// Puts a tag and a body together as the text of an answer.
pub fn frame(tag: &str, body: &str) -> (s: String)
    ensures
        s@ == framed(tag@, body@),
{
    let s = String::from_str(tag);
    let s = s.concat("::");
    s.concat(body)
}

impl ResponseWrapper {
    /// The tag of the answer.
    pub fn tag(&self) -> (t: String)
        ensures
            t@ == response_tag(self@),
    {
        match self {
            ResponseWrapper::TableId(_) => String::from_str("table_id"),
            ResponseWrapper::UserId(_) => String::from_str("user_id"),
            ResponseWrapper::Players(_) => String::from_str("players"),
            ResponseWrapper::PlayerDisconnected(_) => String::from_str("player_disconnected"),
            ResponseWrapper::CardsOnTable(_) => String::from_str("table"),
            ResponseWrapper::GameStatusChanged(_) => String::from_str("game"),
            ResponseWrapper::GameFinished(_) => String::from_str("end"),
            ResponseWrapper::AllTables(_) => String::from_str("all_tables"),
            ResponseWrapper::Unknown(_) => String::from_str("unknown"),
        }
    }

    /// The whole text of an answer whose body is text already (a table or
    /// player identifier, or an unknown message); `None` for the answers
    /// whose body is written as JSON or in debug form.
    pub fn plain_text(&self) -> (s: Option<String>)
        ensures
            match self@ {
                ResponseView::TableId(b) => s matches Some(t) && t@ == framed("table_id"@, b),
                ResponseView::UserId(b) => s matches Some(t) && t@ == framed("user_id"@, b),
                ResponseView::PlayerDisconnected(b) => s matches Some(t) && t@ == framed(
                    "player_disconnected"@,
                    b,
                ),
                ResponseView::Unknown(b) => s matches Some(t) && t@ == framed("unknown"@, b),
                _ => s is None,
            },
    {
        match self {
            ResponseWrapper::TableId(id) => Some(frame("table_id", id.as_str())),
            ResponseWrapper::UserId(id) => Some(frame("user_id", id.as_str())),
            ResponseWrapper::PlayerDisconnected(id) => Some(
                frame("player_disconnected", id.as_str()),
            ),
            ResponseWrapper::Unknown(m) => Some(frame("unknown", m.as_str())),
            _ => None,
        }
    }

    /// The text sent in place of an answer whose body could not be written
    /// as JSON: `error in <tag>!`.
    pub fn failure_text(&self) -> (s: String)
        ensures
            s@ == "error in "@ + response_tag(self@) + "!"@,
    {
        let t = self.tag();
        let s = String::from_str("error in ");
        let s = s.concat(t.as_str());
        s.concat("!")
    }
}

/// What the browser answers to an event: nothing, whatever the event.
pub fn on_call(event_type: &str) -> (r: Option<Vec<String>>)
    ensures
        r is None,
{
    None
}


/// What the server writes, the browser reads back: an answer framed from a
/// tag and a body that hold no ':' splits at "::" into exactly that tag and
/// that body, so the second piece is the body.
pub proof fn lemma_answer_reads_back(tag: Seq<char>, body: Seq<char>)
    requires
        lacks_char(tag, ':'),
        lacks_char(body, ':'),
    ensures
        split_at_sep(framed(tag, body), "::"@) == seq![tag, body],
{
    reveal_strlit("::");
    assert(framed(tag, body) == tag + "::"@ + body);
    lemma_split_joined(tag, "::"@, body);
}

/// The request the browser writes to join a table is read back as a request
/// to join that table, for any table identifier without ':'.
pub proof fn lemma_join_request_reads_back(table_id: Seq<char>)
    requires
        lacks_char(table_id, ':'),
    ensures
        parse_request(framed("add_player_to_table"@, table_id)) == RequestView::AddPlayerToTable(
            table_id,
        ),
{
    reveal_strlit("add_player_to_table");
    reveal_strlit("::");
    let tag = "add_player_to_table"@;
    assert(lacks_char(tag, ':'));
    lemma_answer_reads_back(tag, table_id);
}

} // verus!
