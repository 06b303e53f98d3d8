use pocker_back::casino::{
    add_player_to_table, all_tables, can_change_state, first_group, generate_long_id,
    generate_short_id, last_group,
    get_table_players, has_table, is_seated, player_change_state, player_disconnected,
    set_a_table, Casino,
};
use pocker_back::common::{GameState, PlayerState};

fn is_hex(s: &str) -> bool {
    s.chars().all(|c| c.is_ascii_digit() || ('a'..='f').contains(&c))
}

#[test]
fn set_a_table_then_add_some_players() {
    let mut casino = Casino::new();
    let table_id = set_a_table(&mut casino);

    let player1_id = add_player_to_table(&mut casino, &table_id).unwrap();
    let player2_id = add_player_to_table(&mut casino, &table_id).unwrap();

    let players: Vec<String> = get_table_players(&casino, &table_id)
        .unwrap()
        .iter()
        .map(|p| p.id.clone())
        .collect();

    assert_eq!(table_id.len(), 12);
    assert_eq!(player1_id.len(), 8);
    assert_eq!(players, vec![player1_id, player2_id]);
}

#[test]
fn identifiers_are_hexadecimal() {
    let s = generate_short_id();
    let l = generate_long_id();
    assert_eq!(s.len(), 8);
    assert_eq!(l.len(), 12);
    assert!(is_hex(&s));
    assert!(is_hex(&l));
}

#[test]
fn unknown_table_is_an_error() {
    let mut casino = Casino::new();
    assert_eq!(add_player_to_table(&mut casino, "nope"), Err(()));
    assert!(get_table_players(&casino, "nope").is_err());
    assert!(!has_table(&casino, "nope"));
    assert!(all_tables(&casino).is_empty());
}

#[test]
fn all_tables_in_opening_order() {
    let mut casino = Casino::new();
    let a = set_a_table(&mut casino);
    let b = set_a_table(&mut casino);
    assert_eq!(all_tables(&casino), vec![a.clone(), b.clone()]);
    assert!(has_table(&casino, &a));
}

#[test]
fn a_player_leaves() {
    let mut casino = Casino::new();
    let t = set_a_table(&mut casino);
    let p1 = add_player_to_table(&mut casino, &t).unwrap();
    let p2 = add_player_to_table(&mut casino, &t).unwrap();
    assert!(is_seated(&casino, &p1));
    let left = player_disconnected(&mut casino, &p1);
    assert_eq!(left.len(), 1);
    assert_eq!(left[0].id, p2);
    assert!(!is_seated(&casino, &p1));
    assert_eq!(get_table_players(&casino, &t).unwrap().len(), 1);
}

#[test]
fn players_get_ready() {
    let mut casino = Casino::new();
    let t = set_a_table(&mut casino);
    let p1 = add_player_to_table(&mut casino, &t).unwrap();
    let p2 = add_player_to_table(&mut casino, &t).unwrap();
    assert!(can_change_state(&casino, &p1, PlayerState::READY));
    let (dto, changed) = player_change_state(&mut casino, &p1, PlayerState::READY);
    assert!(!changed);
    assert_eq!(dto.id, t);
    assert_eq!(dto.state, GameState::Blinds);
    assert_eq!(dto.players[0].state, PlayerState::READY);
    let (dto, changed) = player_change_state(&mut casino, &p2, PlayerState::READY);
    assert!(changed);
    assert_eq!(dto.state, GameState::PreFlop);
    assert!(dto.players.iter().all(|p| p.state == PlayerState::WAITING));
    assert!(dto.result.is_none());
}

#[test]
fn a_lone_player_cannot_start() {
    let mut casino = Casino::new();
    let t = set_a_table(&mut casino);
    let p1 = add_player_to_table(&mut casino, &t).unwrap();
    assert!(!can_change_state(&casino, &p1, PlayerState::READY));
    assert!(!can_change_state(&casino, "stranger", PlayerState::READY));
}

#[test]
fn groups_of_a_uuid_text() {
    let u = "67e55044-10b1-426f-9247-bb680e5fe0c8";
    assert_eq!(first_group(u), "67e55044");
    assert_eq!(last_group(u), "bb680e5fe0c8");
}
