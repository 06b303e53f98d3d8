use pocker_back::client::{
    find_user, is_readable, join_request, other_players, read_server_message, shows_bet_buttons,
    shows_ready_buttons, starts_with_text, suit_style, ServerMessage,
};
use pocker_back::common::{GameState, Player};
use pocker_back::protocol::{frame, RequestWrapper};

#[test]
fn reading_server_messages() {
    assert!(matches!(read_server_message("table_id::abc"), ServerMessage::TableId(t) if t == "abc"));
    assert!(matches!(read_server_message("user_id::u1"), ServerMessage::UserId(t) if t == "u1"));
    assert!(matches!(read_server_message("players::[]"), ServerMessage::Players(t) if t == "[]"));
    assert!(matches!(read_server_message("game::\"Flop\""), ServerMessage::Game(t) if t == "\"Flop\""));
    assert!(matches!(read_server_message("all_tables::[\"a\"]"), ServerMessage::AllTables(t) if t == "[\"a\"]"));
    assert!(matches!(read_server_message("table::[]"), ServerMessage::Cards(t) if t == "[]"));
    assert!(matches!(read_server_message("end::{}"), ServerMessage::Other));
    assert!(matches!(read_server_message("unknown::x"), ServerMessage::Other));
}

#[test]
fn only_the_second_piece_is_kept() {
    assert!(matches!(read_server_message("table_id::a::b"), ServerMessage::TableId(t) if t == "a"));
}

#[test]
fn unreadable_messages() {
    assert!(!is_readable("table_id"));
    assert!(!is_readable("players"));
    assert!(is_readable("whatever"));
    assert!(is_readable("table_id::x"));
}

#[test]
fn what_the_server_writes_the_browser_reads() {
    let text = frame("table_id", "0123456789ab");
    assert!(matches!(read_server_message(&text), ServerMessage::TableId(t) if t == "0123456789ab"));
    assert_eq!(text.split("::").collect::<Vec<_>>(), vec!["table_id", "0123456789ab"]);
}

#[test]
fn the_join_request_reads_back() {
    let req = join_request("0123456789ab");
    assert_eq!(req, "add_player_to_table::0123456789ab");
    assert!(matches!(RequestWrapper::from(&req), RequestWrapper::AddPlayerToTable(t) if t == "0123456789ab"));
}

#[test]
fn prefixes() {
    assert!(starts_with_text("abc", "ab"));
    assert!(starts_with_text("abc", ""));
    assert!(!starts_with_text("ab", "abc"));
    assert!(!starts_with_text("xbc", "ab"));
}

#[test]
fn buttons_by_phase() {
    assert!(!shows_bet_buttons(GameState::PreDeal));
    assert!(!shows_bet_buttons(GameState::Blinds));
    assert!(!shows_bet_buttons(GameState::PreFlop));
    assert!(shows_bet_buttons(GameState::Flop));
    assert!(shows_bet_buttons(GameState::Ended));
    assert!(shows_ready_buttons(GameState::River));
    assert!(!shows_ready_buttons(GameState::Ended));
}

#[test]
fn suit_colours() {
    assert_eq!(suit_style("♥"), ("card".to_string(), "red".to_string()));
    assert_eq!(suit_style("♦"), ("card".to_string(), "red".to_string()));
    assert_eq!(suit_style("♣"), ("card".to_string(), "black".to_string()));
    assert_eq!(suit_style("♠"), ("card".to_string(), "black".to_string()));
    assert_eq!(suit_style("?"), ("mock".to_string(), "".to_string()));
}

#[test]
fn finding_the_user() {
    let ps = vec![
        Player::new("a".to_string()),
        Player::new("me".to_string()),
        Player::new("b".to_string()),
    ];
    assert_eq!(find_user(&ps, "me"), Some(1));
    assert_eq!(find_user(&ps, "zz"), None);
    assert_eq!(other_players(&ps, "me"), vec![0, 2]);
    assert_eq!(other_players(&ps, "zz"), vec![0, 1, 2]);
    assert!(other_players(&[].to_vec(), "me").is_empty());
}
