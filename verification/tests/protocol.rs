use pocker_back::protocol::{frame, on_call, RequestWrapper, ResponseWrapper};

#[test]
fn it_works() {}

#[test]
fn single_word_requests() {
    assert!(matches!(RequestWrapper::from("set_a_table"), RequestWrapper::SetATable));
    assert!(matches!(RequestWrapper::from("ready"), RequestWrapper::Ready));
    assert!(matches!(RequestWrapper::from("all_tables"), RequestWrapper::AllTables));
    match RequestWrapper::from("READY") {
        RequestWrapper::Unknown(m) => assert_eq!(m, "READY"),
        other => panic!("{:?}", other),
    }
}

#[test]
fn add_player_request() {
    match RequestWrapper::from("add_player_to_table::abc123") {
        RequestWrapper::AddPlayerToTable(t) => assert_eq!(t, "abc123"),
        other => panic!("{:?}", other),
    }
    match RequestWrapper::from("add_player_to_table::") {
        RequestWrapper::AddPlayerToTable(t) => assert_eq!(t, ""),
        other => panic!("{:?}", other),
    }
}

#[test]
fn malformed_requests_are_unknown() {
    for m in ["ready::x", "a::b::c", "::", "join_to_table::t1", ""] {
        match RequestWrapper::from(m) {
            RequestWrapper::Unknown(u) => assert_eq!(u, m),
            other => panic!("{} gave {:?}", m, other),
        }
    }
    match RequestWrapper::from(":::") {
        RequestWrapper::Unknown(u) => assert_eq!(u, ":::"),
        other => panic!("{:?}", other),
    }
}

#[test]
fn answers_are_framed() {
    assert_eq!(frame("game", "\"Flop\""), "game::\"Flop\"");
    assert_eq!(
        ResponseWrapper::TableId("t1".to_string()).plain_text(),
        Some("table_id::t1".to_string())
    );
    assert_eq!(
        ResponseWrapper::UserId("u1".to_string()).plain_text(),
        Some("user_id::u1".to_string())
    );
    assert_eq!(
        ResponseWrapper::PlayerDisconnected("u1".to_string()).plain_text(),
        Some("player_disconnected::u1".to_string())
    );
    assert_eq!(
        ResponseWrapper::Unknown("x".to_string()).plain_text(),
        Some("unknown::x".to_string())
    );
    assert_eq!(ResponseWrapper::Players(vec![]).plain_text(), None);
    assert_eq!(ResponseWrapper::Players(vec![]).tag(), "players");
    assert_eq!(ResponseWrapper::AllTables(vec![]).tag(), "all_tables");
    assert_eq!(ResponseWrapper::CardsOnTable(vec![]).tag(), "table");
    assert_eq!(ResponseWrapper::Players(vec![]).failure_text(), "error in players!");
}

#[test]
fn browser_events_get_no_answer() {
    assert!(on_call("deal").is_none());
    assert!(on_call("anything").is_none());
}
