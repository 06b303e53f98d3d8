use pocker_back::card::{evaluate_hand, Card, Rank, Suit};
use pocker_back::common::{
    ContextHolder, GameResult, GameState, Player, PlayerRank, PlayerState, Role,
    STARTING_BALANCE,
};
use pocker_back::table::{Dealer, GameTable, TableDto};
use std::collections::HashSet;

fn table_with(ids: &[&str]) -> GameTable {
    let mut t = GameTable::set_a_table();
    for id in ids {
        t.add_player(id);
    }
    t
}

fn everybody_ready(t: &mut GameTable, ids: &[&str]) -> bool {
    let mut moved = false;
    for id in ids {
        assert!(t.can_change_player_state(id, PlayerState::READY));
        moved = t.player_change_state(id, PlayerState::READY);
    }
    moved
}

#[test]
fn a_new_table_waits_for_blinds() {
    let t = GameTable::set_a_table();
    assert_eq!(t.game_state(), GameState::Blinds);
    assert!(t.players().is_empty());
    assert!(t.cards_on_table().is_empty());
    assert!(t.get_result().is_none());
}

#[test]
fn players_are_listed_in_seating_order() {
    let t = table_with(&["ann", "bob", "cid"]);
    let ids: Vec<String> = t.players().iter().map(|p| p.id.clone()).collect();
    assert_eq!(ids, vec!["ann", "bob", "cid"]);
    let p = &t.players()[1];
    assert_eq!(p.role, None);
    assert_eq!(p.state, PlayerState::WAITING);
    assert!(p.hand.is_empty());
}

#[test]
fn removing_a_player() {
    let mut t = table_with(&["ann", "bob", "cid"]);
    t.remove_player("bob");
    let ids: Vec<String> = t.players().iter().map(|p| p.id.clone()).collect();
    assert_eq!(ids, vec!["ann", "cid"]);
    t.remove_player("nobody");
    assert_eq!(t.players().len(), 2);
}

#[test]
fn unknown_player_changes_nothing() {
    let mut t = table_with(&["ann", "bob"]);
    assert!(!t.player_change_state("zed", PlayerState::READY));
    assert_eq!(t.game_state(), GameState::Blinds);
}

#[test]
fn not_everybody_ready_means_no_step() {
    let mut t = table_with(&["ann", "bob"]);
    assert!(!t.player_change_state("ann", PlayerState::READY));
    assert_eq!(t.players()[0].state, PlayerState::READY);
    assert_eq!(t.game_state(), GameState::Blinds);
}

#[test]
fn one_player_cannot_start_the_blinds() {
    let t = table_with(&["ann"]);
    assert!(!t.can_change_player_state("ann", PlayerState::READY));
    assert!(t.can_change_player_state("ann", PlayerState::WAITING));
}

#[test]
fn a_whole_game() {
    let ids = ["ann", "bob", "cid"];
    let mut t = table_with(&ids);

    assert!(everybody_ready(&mut t, &ids));
    assert_eq!(t.game_state(), GameState::PreFlop);
    let ps = t.players();
    assert_eq!(ps[0].role, Some(Role::SmallBlind));
    assert_eq!(ps[1].role, Some(Role::BigBlind));
    assert_eq!(ps[2].role, Some(Role::Others));
    assert!(ps.iter().all(|p| p.state == PlayerState::WAITING));

    assert!(everybody_ready(&mut t, &ids));
    assert_eq!(t.game_state(), GameState::Flop);
    assert!(t.players().iter().all(|p| p.hand.len() == 2));

    assert!(everybody_ready(&mut t, &ids));
    assert_eq!(t.game_state(), GameState::Turn);
    assert_eq!(t.cards_on_table().len(), 3);

    assert!(everybody_ready(&mut t, &ids));
    assert_eq!(t.game_state(), GameState::River);
    assert_eq!(t.cards_on_table().len(), 4);
    assert!(t.players().iter().all(|p| p.hand.len() == 3));

    assert!(everybody_ready(&mut t, &ids));
    assert_eq!(t.game_state(), GameState::Shutdown);
    assert_eq!(t.cards_on_table().len(), 5);
    assert!(t.players().iter().all(|p| p.hand.len() == 4));
    assert!(t.get_result().is_none());

    // no card is in two places
    let mut seen: HashSet<Card> = HashSet::new();
    for c in t.cards_on_table() {
        assert!(seen.insert(c));
    }
    for p in t.players() {
        for c in p.hand {
            assert!(seen.insert(c));
        }
    }
    assert_eq!(seen.len(), 5 + 3 * 4);

    let table_cards = t.cards_on_table();
    let strengths: Vec<(String, u16)> = t
        .players()
        .iter()
        .map(|p| {
            let mut all = p.hand.clone();
            all.extend(table_cards.iter().cloned());
            (p.id.clone(), evaluate_hand(&all).strength())
        })
        .collect();
    let best = strengths.iter().map(|s| s.1).max().unwrap();

    assert!(everybody_ready(&mut t, &ids));
    assert_eq!(t.game_state(), GameState::Ended);
    match t.get_result() {
        Some(GameResult::Winner(w)) => {
            assert_eq!(w.rank.strength(), best);
            assert_eq!(strengths.iter().filter(|s| s.1 == best).count(), 1);
        }
        Some(GameResult::Tie(a, b)) => {
            assert_eq!(a.rank.strength(), best);
            let holders: Vec<&String> =
                strengths.iter().filter(|s| s.1 == best).map(|s| &s.0).collect();
            assert_eq!(holders[0], &a.id);
            assert_eq!(holders[1], &b.id);
        }
        None => panic!("the game has ended"),
    }
    match t.get_result() {
        Some(GameResult::Winner(w)) => assert!(ids.contains(&w.id.as_str())),
        Some(GameResult::Tie(a, b)) => {
            assert_eq!(a.rank, b.rank);
            assert_ne!(a.id, b.id);
        }
        None => panic!("the game has ended"),
    }

    // an ended game stays ended
    assert!(everybody_ready(&mut t, &ids));
    assert_eq!(t.game_state(), GameState::Ended);
    assert!(t.get_result().is_some());
}

#[test]
fn the_dealer_steps_through_the_phases() {
    let mut d = Dealer::new(vec![Player::new("x".to_string()), Player::new("y".to_string())]);
    assert_eq!(d.game_state, GameState::PreDeal);
    let expected = [
        GameState::Blinds,
        GameState::PreFlop,
        GameState::Flop,
        GameState::Turn,
        GameState::River,
        GameState::Shutdown,
        GameState::Ended,
        GameState::Ended,
    ];
    for s in expected.iter() {
        assert!(d.ready_to_advance());
        d.knock_knock();
        assert_eq!(d.game_state, *s);
    }
    assert_eq!(d.cards_on_table.len(), 5);
}

#[test]
fn player_defaults() {
    let p = Player::new("p1".to_string());
    assert_eq!(p.id, "p1");
    assert_eq!(p.balance, STARTING_BALANCE);
    assert_eq!(p.balance, 1000);
    assert_eq!(p.bet, None);
    assert_eq!(p.role_str(), "-");
    let mut q = Player::new("p2".to_string());
    q.role = Some(Role::SmallBlind);
    assert_eq!(q.role_str(), "SmallBlind");
    q.role = Some(Role::BigBlind);
    assert_eq!(q.role_str(), "BigBlind");
    q.role = Some(Role::Others);
    assert_eq!(q.role_str(), "-");
}

#[test]
fn default_game_state_is_before_the_deal() {
    assert_eq!(GameState::default(), GameState::PreDeal);
    let ctx = ContextHolder::default();
    assert_eq!(ctx.game_state, GameState::PreDeal);
    assert!(ctx.players.is_empty());
}

#[test]
fn player_rank_of() {
    let r = PlayerRank::of("abc", pocker_back::card::HandRank::Pair(Rank::Two));
    assert_eq!(r.id, "abc");
    assert_eq!(r.rank, pocker_back::card::HandRank::Pair(Rank::Two));
}

#[test]
fn table_description() {
    let mut t = table_with(&["ann", "bob"]);
    everybody_ready(&mut t, &["ann", "bob"]);
    let dto = TableDto::from("tbl", &t, None);
    assert_eq!(dto.id, "tbl");
    assert_eq!(dto.state, GameState::PreFlop);
    assert_eq!(dto.players.len(), 2);
    assert!(dto.card_on_table.is_empty());
    assert!(dto.result.is_none());
    let common = pocker_back::common::TableDto::from(
        "t".to_string(),
        vec![Player::new("a".to_string())],
        GameState::Flop,
        vec![Card { rank: Rank::Two, suit: Suit::Clubs }],
        None,
    );
    assert_eq!(common.id, "t");
    assert_eq!(common.state, GameState::Flop);
    assert_eq!(common.players.len(), 1);
}

#[test]
fn eleven_players_play_a_whole_game() {
    let ids = ["p1", "p2", "p3", "p4", "p5", "p6", "p7", "p8", "p9", "p10", "p11"];
    let mut t = table_with(&ids);
    for _ in 0..6 {
        assert!(everybody_ready(&mut t, &ids));
    }
    assert_eq!(t.game_state(), GameState::Ended);
    assert_eq!(t.cards_on_table().len(), 5);
    assert!(t.players().iter().all(|p| p.hand.len() == 4));
    assert!(t.get_result().is_some());
}
