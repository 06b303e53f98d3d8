use pocker_back::manager::{BatchMsg, DispatcherCmd, FatMsg, Manager};
use pocker_back::protocol::ResponseWrapper;

fn send(m: &mut Manager, from: u64, text: &str) -> Vec<BatchMsg> {
    let fat = FatMsg::new(from, text.to_string());
    assert!(m.can_process(&fat));
    m.process(fat)
}

#[test]
fn open_a_table_and_sit_down() {
    let mut m = Manager::new();
    let out = send(&mut m, 1, "set_a_table");
    assert_eq!(out.len(), 1);
    assert_eq!(out[0].to, vec![1]);
    let table_id = match &out[0].msg {
        ResponseWrapper::TableId(t) => t.clone(),
        other => panic!("{:?}", other),
    };
    assert_eq!(table_id.len(), 12);

    let out = send(&mut m, 1, &format!("add_player_to_table::{}", table_id));
    assert_eq!(out.len(), 2);
    let p1 = match &out[0].msg {
        ResponseWrapper::UserId(p) => p.clone(),
        other => panic!("{:?}", other),
    };
    assert_eq!(out[1].to, vec![1]);

    let out = send(&mut m, 2, &format!("add_player_to_table::{}", table_id));
    assert_eq!(out[0].to, vec![2]);
    assert_eq!(out[1].to, vec![1, 2]);
    match &out[1].msg {
        ResponseWrapper::Players(ps) => {
            assert_eq!(ps.len(), 2);
            assert_eq!(ps[0].id, p1);
        }
        other => panic!("{:?}", other),
    }

    let out = send(&mut m, 3, "all_tables");
    match &out[0].msg {
        ResponseWrapper::AllTables(ts) => assert_eq!(ts, &vec![table_id.clone()]),
        other => panic!("{:?}", other),
    }
}

#[test]
fn ready_moves_the_game_on() {
    let mut m = Manager::new();
    let out = send(&mut m, 1, "set_a_table");
    let t = match &out[0].msg {
        ResponseWrapper::TableId(t) => t.clone(),
        _ => unreachable!(),
    };
    send(&mut m, 1, &format!("add_player_to_table::{}", t));
    send(&mut m, 2, &format!("add_player_to_table::{}", t));

    let out = send(&mut m, 1, "ready");
    assert_eq!(out.len(), 1);
    assert_eq!(out[0].to, vec![1, 2]);

    let out = send(&mut m, 2, "ready");
    assert_eq!(out.len(), 2);
    assert!(matches!(out[1].msg, ResponseWrapper::GameStatusChanged(pocker_back::common::GameState::PreFlop)));

    send(&mut m, 1, "ready");
    let out = send(&mut m, 2, "ready");
    assert_eq!(out.len(), 3);
    // the flop phase begins with an empty table
    match &out[2].msg {
        ResponseWrapper::CardsOnTable(cs) => assert_eq!(cs.len(), 0),
        other => panic!("{:?}", other),
    }
    send(&mut m, 1, "ready");
    let out = send(&mut m, 2, "ready");
    match &out[2].msg {
        ResponseWrapper::CardsOnTable(cs) => assert_eq!(cs.len(), 3),
        other => panic!("{:?}", other),
    }
    for _ in 0..2 {
        send(&mut m, 1, "ready");
        send(&mut m, 2, "ready");
    }
    send(&mut m, 1, "ready");
    let out = send(&mut m, 2, "ready");
    assert!(matches!(out.last().unwrap().msg, ResponseWrapper::GameFinished(_)));
}

#[test]
fn strangers_get_unknown() {
    let mut m = Manager::new();
    let out = send(&mut m, 9, "ready");
    match &out[0].msg {
        ResponseWrapper::Unknown(u) => assert_eq!(u, "ready"),
        other => panic!("{:?}", other),
    }
    let out = send(&mut m, 9, "hello");
    assert_eq!(out[0].to, vec![9]);
    assert!(matches!(&out[0].msg, ResponseWrapper::Unknown(u) if u == "hello"));
    let bad = FatMsg::new(9, "add_player_to_table::nope".to_string());
    assert!(!m.can_process(&bad));
    assert!(!m.can_process(&FatMsg::from_mngr("set_a_table".to_string())));
}

#[test]
fn leaving_tells_the_others() {
    let mut m = Manager::new();
    let out = send(&mut m, 1, "set_a_table");
    let t = match &out[0].msg {
        ResponseWrapper::TableId(t) => t.clone(),
        _ => unreachable!(),
    };
    let out = send(&mut m, 1, &format!("add_player_to_table::{}", t));
    let p1 = match &out[0].msg {
        ResponseWrapper::UserId(p) => p.clone(),
        _ => unreachable!(),
    };
    send(&mut m, 2, &format!("add_player_to_table::{}", t));
    assert!(m.can_handle(DispatcherCmd::PlayerLeft(1)));
    let out = m.dispatcher_cmd(DispatcherCmd::PlayerLeft(1));
    assert_eq!(out.len(), 1);
    assert_eq!(out[0].to, vec![2]);
    assert!(matches!(&out[0].msg, ResponseWrapper::PlayerDisconnected(p) if *p == p1));
    assert!(m.dispatcher_cmd(DispatcherCmd::PlayerLeft(1)).is_empty());
    assert!(m.dispatcher_cmd(DispatcherCmd::PlayerLeft(77)).is_empty());
}
