//! The server's decisions: what to do with each message from a browser and
//! with each connection that closes, and whom to answer. Connections are
//! known by a number; the casino is owned by the manager.
use crate::casino::{
    add_player_to_table, all_tables, casino_wf, change_state_allowed, insert_text, key_index,
    left_behind, lemma_key_index_found, lemma_key_index_missing, lemma_key_index_range,
    lemma_remove_keeps_distinct, locate, player_disconnected, player_left, player_seated,
    player_state_set, set_a_table, table_of_player, table_opened, Casino, CasinoView,
};
use crate::common::{GameState, PlayerState, PlayerView};
use crate::protocol::{parse_request, RequestWrapper, ResponseView, ResponseWrapper};
use crate::table::{
    dto_of, dtos_view, lemma_player_removed_ids, table_dtos, lemma_state_changed_keeps_ids, PlayerDto,
    PlayerDtoView, TableDto,
};
use crate::text::texts_view;
use vstd::prelude::*;

verus! {

/// A message from a connection (or from the server itself when `from` is
/// `None`).
#[derive(Debug, Clone)]
pub struct FatMsg {
    pub from: Option<u64>,
    pub msg: String,
}

impl FatMsg {
    /// A message that came from the server.
    pub fn from_mngr(msg: String) -> (f: FatMsg)
        ensures
            f.from is None,
            f.msg == msg,
    {
        FatMsg { from: None, msg }
    }

    /// A message that came from connection `addr`.
    pub fn new(addr: u64, msg: String) -> (f: FatMsg)
        ensures
            f.from == Some(addr),
            f.msg == msg,
    {
        FatMsg { from: Some(addr), msg }
    }
}

/// An answer and the connections it goes to.
#[derive(Debug)]
pub struct BatchMsg {
    pub to: Vec<u64>,
    pub msg: ResponseWrapper,
}

/// An answer and its receivers, as plain values.
pub struct BatchView {
    pub to: Seq<u64>,
    pub msg: ResponseView,
}

impl View for BatchMsg {
    type V = BatchView;

    open spec fn view(&self) -> BatchView {
        BatchView { to: self.to@, msg: self.msg@ }
    }
}

/// The views of a list of answers.
pub open spec fn batches_view(v: Seq<BatchMsg>) -> Seq<BatchView> {
    v.map_values(|b: BatchMsg| b@)
}

impl BatchMsg {
    /// The answer `msg` for the connections `to`.
    pub fn new(to: Vec<u64>, msg: ResponseWrapper) -> (b: BatchMsg)
        ensures
            b@ == (BatchView { to: to@, msg: msg@ }),
    {
        BatchMsg { to, msg }
    }
}

/// What the connection layer tells the manager.
#[derive(Debug, Clone, Copy)]
pub enum DispatcherCmd {
    PlayerLeft(u64),
}

/// Passes a player's change of state on to the casino.
#[derive(Debug)]
pub struct StateManager;

impl StateManager {
    pub fn new() -> (s: StateManager) {
        StateManager
    }

    /// Sets the state of `player_id`; see `casino::player_change_state`.
    pub fn process(&mut self, casino: &mut Casino, player_id: &str, state: PlayerState) -> (r: (
        TableDto,
        bool,
    ))
        requires
            casino_wf(old(casino)@),
            change_state_allowed(old(casino)@, player_id@, state),
        ensures
            casino_wf(final(casino)@),
            player_state_set(old(casino)@, final(casino)@, player_id@, state, r.1),
            crate::casino::describes(
                r.0,
                old(casino)@.seat_tables[key_index(old(casino)@.seat_players, player_id@)],
                final(casino)@.tables[table_of_player(old(casino)@, player_id@)],
            ),
    {
        crate::casino::player_change_state(casino, player_id, state)
    }
}

/// The manager: the casino, the connection of each player, and the player
/// of each connection.
pub struct Manager {
    casino: Casino,
    player_ids: Vec<String>,
    player_peers: Vec<u64>,
    peers: Vec<u64>,
    peer_players: Vec<String>,
    state_manager: StateManager,
}

/// The manager as plain values: player `player_ids[i]` is reached through
/// connection `player_peers[i]`; connection `peers[j]` belongs to player
/// `peer_players[j]`.
pub struct ManagerView {
    pub casino: CasinoView,
    pub player_ids: Seq<Seq<char>>,
    pub player_peers: Seq<u64>,
    pub peers: Seq<u64>,
    pub peer_players: Seq<Seq<char>>,
}

impl View for Manager {
    type V = ManagerView;

    closed spec fn view(&self) -> ManagerView {
        ManagerView {
            casino: self.casino@,
            player_ids: texts_view(self.player_ids@),
            player_peers: self.player_peers@,
            peers: self.peers@,
            peer_players: texts_view(self.peer_players@),
        }
    }
}

/// The manager's invariant: the casino is valid, no player and no
/// connection is listed twice, and every player at a table has a connection.
pub open spec fn manager_wf(m: ManagerView) -> bool {
    &&& casino_wf(m.casino)
    &&& m.player_ids.len() == m.player_peers.len()
    &&& m.player_ids.no_duplicates()
    &&& m.peers.len() == m.peer_players.len()
    &&& m.peers.no_duplicates()
    &&& forall|k: int, i: int|
        0 <= k < m.casino.tables.len() && 0 <= i < m.casino.tables[k].players.len()
            ==> m.player_ids.contains(#[trigger] m.casino.tables[k].players[i].id)
}

/// The connections of the given players, in order.
pub open spec fn addresses_of(m: ManagerView, ps: Seq<PlayerDtoView>) -> Seq<u64> {
    Seq::new(ps.len(), |i: int| m.player_peers[key_index(m.player_ids, ps[i].id)])
}

/// An answer for one connection.
pub open spec fn to_one(peer: u64, msg: ResponseView) -> BatchView {
    BatchView { to: seq![peer], msg }
}

/// When a message can be handled without failing: it has a sender, a
/// request to join names a table that exists, and a "ready" comes from a
/// seated player whose table can take the next step if it must.
pub open spec fn process_allowed(m: ManagerView, from: Option<u64>, msg: Seq<char>) -> bool {
    &&& from is Some
    &&& match parse_request(msg) {
        crate::protocol::RequestView::AddPlayerToTable(t) => key_index(m.casino.table_ids, t) >= 0,
        crate::protocol::RequestView::Ready => key_index(m.peers, from->0) >= 0
            ==> change_state_allowed(
            m.casino,
            m.peer_players[key_index(m.peers, from->0)],
            PlayerState::READY,
        ),
        _ => true,
    }
}

/// The answers after a "ready": the players' descriptions, then, if the
/// game moved on, its new phase, then the cards on the table after the flop,
/// the turn or the river, or the result once the game has ended.
pub open spec fn ready_answers(
    m: ManagerView,
    t: crate::table::DealerView,
    changed: bool,
) -> Seq<BatchView> {
    let ps = table_dtos(t.players);
    let to = addresses_of(m, ps);
    let first = seq![BatchView { to, msg: ResponseView::Players(ps) }];
    if !changed {
        first
    } else {
        let second = first.push(
            BatchView { to, msg: ResponseView::GameStatusChanged(t.game_state) },
        );
        match t.game_state {
            GameState::Flop | GameState::Turn | GameState::River => second.push(
                BatchView { to, msg: ResponseView::CardsOnTable(t.cards_on_table) },
            ),
            GameState::Ended => second.push(
                BatchView { to, msg: ResponseView::GameFinished(t.game_result->0) },
            ),
            _ => second,
        }
    }
}

/// What `process` does with message `msg` from connection `from`: takes
/// the manager from `m` to `e` and answers `out`.
pub open spec fn process_effect(
    m: ManagerView,
    e: ManagerView,
    from: u64,
    msg: Seq<char>,
    out: Seq<BatchView>,
) -> bool {
    match parse_request(msg) {
        crate::protocol::RequestView::SetATable => {
            &&& out.len() == 1
            &&& out[0].to == seq![from]
            &&& out[0].msg matches ResponseView::TableId(id) && table_opened(m.casino, e.casino, id)
            &&& e == (ManagerView { casino: e.casino, ..m })
        },
        crate::protocol::RequestView::AddPlayerToTable(t) => {
            &&& out.len() == 2
            &&& out[0].to == seq![from]
            &&& out[0].msg matches ResponseView::UserId(pid) && {
                &&& player_seated(m.casino, e.casino, t, pid)
                &&& e.player_ids == crate::casino::keys_after_insert(m.player_ids, pid)
                &&& e.player_peers == crate::casino::values_after_insert(
                    m.player_ids,
                    m.player_peers,
                    pid,
                    from,
                )
                &&& e.peers == crate::casino::keys_after_insert(m.peers, from)
                &&& e.peer_players == crate::casino::values_after_insert(
                    m.peers,
                    m.peer_players,
                    from,
                    pid,
                )
                &&& out[1] == (BatchView {
                    to: addresses_of(
                        e,
                        table_dtos(e.casino.tables[key_index(m.casino.table_ids, t)].players),
                    ),
                    msg: ResponseView::Players(
                        table_dtos(e.casino.tables[key_index(m.casino.table_ids, t)].players),
                    ),
                })
            }
        },
        crate::protocol::RequestView::Ready => {
            let j = key_index(m.peers, from);
            if j < 0 {
                &&& out == seq![to_one(from, ResponseView::Unknown(msg))]
                &&& e == m
            } else {
                let pid = m.peer_players[j];
                let k = table_of_player(m.casino, pid);
                let changed = crate::table::would_advance(
                    m.casino.tables[k],
                    pid,
                    PlayerState::READY,
                );
                &&& player_state_set(m.casino, e.casino, pid, PlayerState::READY, changed)
                &&& e == (ManagerView { casino: e.casino, ..m })
                &&& out == ready_answers(e, e.casino.tables[k], changed)
            }
        },
        crate::protocol::RequestView::AllTables => {
            &&& out == seq![to_one(from, ResponseView::AllTables(m.casino.table_ids))]
            &&& e == m
        },
        crate::protocol::RequestView::Unknown(u) => {
            &&& out == seq![to_one(from, ResponseView::Unknown(u))]
            &&& e == m
        },
    }
}


/// Where connection `key` is among `keys`, if anywhere.
fn find_peer(keys: &Vec<u64>, key: u64) -> (r: Option<usize>)
    requires
        keys@.no_duplicates(),
    ensures
        match r {
            Some(i) => i == key_index(keys@, key),
            None => key_index(keys@, key) == -1,
        },
        key_index(keys@, key) < keys@.len(),
{
    proof {
        lemma_key_index_range(keys@, key);
    }
    let n = keys.len();
    let mut i: usize = 0;
    while i < n
        invariant
            n == keys@.len(),
            keys@.no_duplicates(),
            i <= n,
            forall|j: int| 0 <= j < i ==> keys@[j] != key,
        decreases n - i,
    {
        if keys[i] == key {
            proof {
                lemma_key_index_found(keys@, key, i as int);
            }
            return Some(i);
        }
        i = i + 1;
    }
    proof {
        lemma_key_index_missing(keys@, key);
    }
    None
}

/// Gives player `key` the connection `v`.
fn insert_player_peer(keys: &mut Vec<String>, vals: &mut Vec<u64>, key: String, v: u64)
    requires
        texts_view(old(keys)@).no_duplicates(),
        old(keys)@.len() == old(vals)@.len(),
    ensures
        texts_view(final(keys)@) == crate::casino::keys_after_insert(texts_view(old(keys)@), key@),
        final(vals)@ == crate::casino::values_after_insert(
            texts_view(old(keys)@),
            old(vals)@,
            key@,
            v,
        ),
        texts_view(final(keys)@).no_duplicates(),
        final(keys)@.len() == final(vals)@.len(),
{
    let ghost k0 = texts_view(keys@);
    match locate(keys, key.as_str()) {
        Some(i) => {
            vals.set(i, v);
        },
        None => {
            let ghost kv = key@;
            keys.push(key);
            vals.push(v);
            assert(texts_view(keys@) =~= k0.push(kv));
            proof {
                assert forall|a: int, b: int|
                    0 <= a < b < texts_view(keys@).len() implies texts_view(keys@)[a] != texts_view(
                    keys@,
                )[b] by {
                    if b == k0.len() {
                        assert(k0[a] != kv);
                    } else {
                        assert(k0[a] != k0[b]);
                    }
                }
            }
        },
    }
}

/// Gives connection `key` the player `v`.
fn insert_peer_player(keys: &mut Vec<u64>, vals: &mut Vec<String>, key: u64, v: String)
    requires
        old(keys)@.no_duplicates(),
        old(keys)@.len() == old(vals)@.len(),
    ensures
        final(keys)@ == crate::casino::keys_after_insert(old(keys)@, key),
        texts_view(final(vals)@) == crate::casino::values_after_insert(
            old(keys)@,
            texts_view(old(vals)@),
            key,
            v@,
        ),
        final(keys)@.no_duplicates(),
        final(keys)@.len() == final(vals)@.len(),
{
    let ghost k0 = keys@;
    let ghost v0 = texts_view(vals@);
    match find_peer(keys, key) {
        Some(i) => {
            vals.set(i, v);
            assert(texts_view(vals@) =~= v0.update(i as int, v@));
        },
        None => {
            let ghost vv = v@;
            keys.push(key);
            vals.push(v);
            assert(texts_view(vals@) =~= v0.push(vv));
            proof {
                assert forall|a: int, b: int| 0 <= a < b < keys@.len() implies keys@[a] != keys@[b] by {
                    if b == k0.len() {
                        assert(k0[a] != key);
                    } else {
                        assert(k0[a] != k0[b]);
                    }
                }
            }
        },
    }
}

/// A copy of a list of connections.
fn copy_peers(v: &Vec<u64>) -> (out: Vec<u64>)
    ensures
        out@ == v@,
{
    let mut out: Vec<u64> = Vec::new();
    let mut i: usize = 0;
    while i < v.len()
        invariant
            i <= v@.len(),
            out@ == v@.take(i as int),
        decreases v@.len() - i,
    {
        out.push(v[i]);
        i = i + 1;
        assert(out@ =~= v@.take(i as int));
    }
    assert(v@.take(i as int) =~= v@);
    out
}

impl Manager {
    /// A manager with an empty casino and no connections.
    pub fn new() -> (m: Manager)
        ensures
            manager_wf(m@),
            m@.casino.table_ids.len() == 0,
            m@.player_ids.len() == 0,
            m@.peers.len() == 0,
    {
        let m = Manager {
            casino: Casino::new(),
            player_ids: Vec::new(),
            player_peers: Vec::new(),
            peers: Vec::new(),
            peer_players: Vec::new(),
            state_manager: StateManager::new(),
        };
        assert(m@.player_ids =~= Seq::<Seq<char>>::empty());
        assert(m@.peer_players =~= Seq::<Seq<char>>::empty());
        m
    }

    /// The connections of the given players.
    fn players_to_address(&self, players: &Vec<PlayerDto>) -> (out: Vec<u64>)
        requires
            manager_wf(self@),
            forall|i: int| 0 <= i < players@.len() ==> self@.player_ids.contains(#[trigger] players@[i].id@),
        ensures
            out@ == addresses_of(self@, dtos_view(players@)),
    {
        let n = players.len();
        let ghost ps = dtos_view(players@);
        let mut out: Vec<u64> = Vec::new();
        let mut i: usize = 0;
        while i < n
            invariant
                n == players@.len(),
                ps == dtos_view(players@),
                manager_wf(self@),
                forall|j: int| 0 <= j < players@.len() ==> self@.player_ids.contains(#[trigger] players@[j].id@),
                i <= n,
                out@ == addresses_of(self@, ps).take(i as int),
            decreases n - i,
        {
            let ghost id = players@[i as int].id@;
            assert(self@.player_ids.contains(id));
            let k = match locate(&self.player_ids, players[i].id.as_str()) {
                Some(k) => k,
                None => {
                    proof {
                        let w = choose|w: int| 0 <= w < self@.player_ids.len() && self@.player_ids[w] == id;
                        lemma_key_index_found(self@.player_ids, id, w);
                    }
                    0
                },
            };
            out.push(self.player_peers[k]);
            i = i + 1;
            assert(out@ =~= addresses_of(self@, ps).take(i as int));
        }
        assert(addresses_of(self@, ps).take(n as int) =~= addresses_of(self@, ps));
        out
    }
}


proof fn lemma_insert_contains<K>(keys: Seq<K>, key: K, x: K)
    requires
        keys.contains(x) || x == key,
    ensures
        crate::casino::keys_after_insert(keys, key).contains(x),
{
    lemma_key_index_range(keys, key);
    if !keys.contains(x) {
        if key_index(keys, key) >= 0 {
            assert(keys[key_index(keys, key)] == x);
        } else {
            assert(keys.push(key)[keys.len() as int] == x);
        }
    } else {
        let w = choose|w: int| 0 <= w < keys.len() && keys[w] == x;
        if key_index(keys, key) < 0 {
            assert(keys.push(key)[w] == x);
        }
    }
}

impl Manager {
    /// Opens a table and tells the sender its identifier.
    fn open_table(&mut self, from: u64) -> (out: Vec<BatchMsg>)
        requires
            manager_wf(old(self)@),
        ensures
            manager_wf(final(self)@),
            batches_view(out@).len() == 1,
            batches_view(out@)[0].to == seq![from],
            batches_view(out@)[0].msg matches ResponseView::TableId(id) && table_opened(
                old(self)@.casino,
                final(self)@.casino,
                id,
            ),
            final(self)@ == (ManagerView { casino: final(self)@.casino, ..old(self)@ }),
    {
        let ghost m = self@;
        let id = set_a_table(&mut self.casino);
        proof {
            let c = m.casino;
            let e = self@.casino;
            let t = choose|t: crate::table::DealerView|
                crate::casino::is_new_table(t) && e.tables == crate::casino::values_after_insert(
                    c.table_ids,
                    c.tables,
                    id@,
                    t,
                );
            lemma_key_index_range(c.table_ids, id@);
            assert forall|k: int, i: int|
                0 <= k < e.tables.len() && 0 <= i < e.tables[k].players.len() implies self@.player_ids.contains(
                #[trigger] e.tables[k].players[i].id,
            ) by {
                if k < c.tables.len() && e.tables[k] != t {
                    assert(e.tables[k] == c.tables[k]);
                }
            }
        }
        let out = vec![BatchMsg::new(vec![from], ResponseWrapper::TableId(id))];
        assert(batches_view(out@)[0] == out@[0]@);
        out
    }

    /// Seats a new player for connection `from` at table `table_id`, tells
    /// the sender the player's identifier and everybody at the table who is
    /// there.
    fn seat_player(&mut self, from: u64, table_id: String) -> (out: Vec<BatchMsg>)
        requires
            manager_wf(old(self)@),
            key_index(old(self)@.casino.table_ids, table_id@) >= 0,
        ensures
            manager_wf(final(self)@),
            batches_view(out@).len() == 2,
            batches_view(out@)[0].to == seq![from],
            batches_view(out@)[0].msg matches ResponseView::UserId(pid) && {
                let m = old(self)@;
                let e = final(self)@;
                let t = table_id@;
                &&& crate::casino::player_seated(m.casino, e.casino, t, pid)
                &&& e.player_ids == crate::casino::keys_after_insert(m.player_ids, pid)
                &&& e.player_peers == crate::casino::values_after_insert(
                    m.player_ids,
                    m.player_peers,
                    pid,
                    from,
                )
                &&& e.peers == crate::casino::keys_after_insert(m.peers, from)
                &&& e.peer_players == crate::casino::values_after_insert(
                    m.peers,
                    m.peer_players,
                    from,
                    pid,
                )
                &&& batches_view(out@)[1] == (BatchView {
                    to: addresses_of(
                        e,
                        table_dtos(e.casino.tables[key_index(m.casino.table_ids, t)].players),
                    ),
                    msg: ResponseView::Players(
                        table_dtos(e.casino.tables[key_index(m.casino.table_ids, t)].players),
                    ),
                })
            },
    {
        let ghost m = self@;
        let player_id = match add_player_to_table(&mut self.casino, table_id.as_str()) {
            Ok(p) => p,
            Err(_) => {
                proof {
                    assert(false);
                }
                String::new()
            },
        };
        let ghost k = key_index(m.casino.table_ids, table_id@);
        let players = match crate::casino::get_table_players(&self.casino, table_id.as_str()) {
            Ok(v) => v,
            Err(_) => {
                proof {
                    assert(false);
                }
                Vec::new()
            },
        };
        insert_player_peer(&mut self.player_ids, &mut self.player_peers, player_id.clone(), from);
        insert_peer_player(&mut self.peers, &mut self.peer_players, from, player_id.clone());
        let ghost e = self@;
        proof {
            let c = m.casino;
            let ec = e.casino;
            assert(ec.tables[k] == crate::table::DealerView {
                players: c.tables[k].players.push(crate::table::new_player_view(player_id@)),
                ..c.tables[k]
            });
            assert forall|kk: int, i: int|
                0 <= kk < ec.tables.len() && 0 <= i < ec.tables[kk].players.len() implies e.player_ids.contains(
                #[trigger] ec.tables[kk].players[i].id,
            ) by {
                let x = ec.tables[kk].players[i].id;
                if kk == k && i == c.tables[k].players.len() {
                    lemma_insert_contains(m.player_ids, player_id@, x);
                } else {
                    if kk == k {
                        assert(ec.tables[kk].players[i] == c.tables[k].players[i]);
                    } else {
                        assert(ec.tables[kk] == c.tables[kk]);
                    }
                    assert(m.player_ids.contains(x));
                    lemma_insert_contains(m.player_ids, player_id@, x);
                }
            }
            assert(dtos_view(players@) =~= table_dtos(ec.tables[k].players));
            assert forall|i: int| 0 <= i < players@.len() implies e.player_ids.contains(
                #[trigger] players@[i].id@,
            ) by {
                assert(players@[i]@ == dto_of(ec.tables[k].players[i]));
            }
        }
        let receivers = self.players_to_address(&players);
        let out = vec![
            BatchMsg::new(vec![from], ResponseWrapper::UserId(player_id)),
            BatchMsg::new(receivers, ResponseWrapper::Players(players)),
        ];
        assert(batches_view(out@)[0] == out@[0]@);
        assert(batches_view(out@)[1] == out@[1]@);
        out
    }
}


/// One answer for one connection.
fn reply(from: u64, msg: ResponseWrapper) -> (out: Vec<BatchMsg>)
    ensures
        batches_view(out@) == seq![to_one(from, msg@)],
{
    let to = vec![from];
    assert(to@ =~= seq![from]);
    let b = BatchMsg::new(to, msg);
    let out = vec![b];
    assert(batches_view(out@) =~= seq![to_one(from, msg@)]);
    out
}

impl Manager {
    /// The player of connection `from` is ready; see `ready_answers`.
    fn player_ready(&mut self, from: u64, msg: &String) -> (out: Vec<BatchMsg>)
        requires
            manager_wf(old(self)@),
            key_index(old(self)@.peers, from) >= 0 ==> change_state_allowed(
                old(self)@.casino,
                old(self)@.peer_players[key_index(old(self)@.peers, from)],
                PlayerState::READY,
            ),
        ensures
            manager_wf(final(self)@),
            ({
                let m = old(self)@;
                let e = final(self)@;
                let j = key_index(m.peers, from);
                if j < 0 {
                    &&& batches_view(out@) == seq![to_one(from, ResponseView::Unknown(msg@))]
                    &&& e == m
                } else {
                    let pid = m.peer_players[j];
                    let k = table_of_player(m.casino, pid);
                    let changed = crate::table::would_advance(
                        m.casino.tables[k],
                        pid,
                        PlayerState::READY,
                    );
                    &&& player_state_set(m.casino, e.casino, pid, PlayerState::READY, changed)
                    &&& e == (ManagerView { casino: e.casino, ..m })
                    &&& batches_view(out@) == ready_answers(e, e.casino.tables[k], changed)
                }
            }),
    {
        let ghost m = self@;
        match find_peer(&self.peers, from) {
            Some(j) => {
                let player_id = self.peer_players[j].clone();
                proof {
                    assert(player_id@ == m.peer_players[j as int]);
                }
                let (table, changed) = self.state_manager.process(
                    &mut self.casino,
                    player_id.as_str(),
                    PlayerState::READY,
                );
                let ghost e = self@;
                let ghost k = table_of_player(m.casino, player_id@);
                let ghost t = e.casino.tables[k];
                proof {
                    assert(m.casino.seat_tables[key_index(m.casino.seat_players, player_id@)]
                        == m.casino.seat_tables[key_index(m.casino.seat_players, player_id@)]);
                    assert(crate::casino::describes(
                        table,
                        m.casino.seat_tables[key_index(m.casino.seat_players, player_id@)],
                        t,
                    ));
                    assert(dtos_view(table.players@) == table_dtos(t.players));
                    assert(dtos_view(table.players@).len() == table.players@.len());
                    assert(table_dtos(t.players).len() == t.players.len());
                    lemma_state_changed_keeps_ids(
                        m.casino.tables[k],
                        t,
                        player_id@,
                        PlayerState::READY,
                        changed,
                    );
                    assert forall|kk: int, i: int|
                        0 <= kk < e.casino.tables.len() && 0 <= i < e.casino.tables[kk].players.len()
                            implies e.player_ids.contains(#[trigger] e.casino.tables[kk].players[i].id) by {
                        if kk == k {
                            assert(t.players[i].id == m.casino.tables[k].players[i].id);
                        } else {
                            assert(e.casino.tables[kk] == m.casino.tables[kk]);
                        }
                    }
                    assert forall|i: int| 0 <= i < table.players@.len() implies e.player_ids.contains(
                        #[trigger] table.players@[i].id@,
                    ) by {
                        assert(dtos_view(table.players@)[i] == table.players@[i]@);
                        assert(table_dtos(t.players)[i] == dto_of(t.players[i]));
                        assert(table.players@[i]@ == dto_of(t.players[i]));
                    }
                }
                let receivers = self.players_to_address(&table.players);
                let TableDto { id: _, state, players, card_on_table, result } = table;
                proof {
                    assert(dtos_view(players@) == table_dtos(t.players));
                }
                let ghost to = receivers@;
                let mut batches = vec![
                    BatchMsg::new(copy_peers(&receivers), ResponseWrapper::Players(players)),
                ];
                if changed {
                    batches.push(
                        BatchMsg::new(copy_peers(&receivers), ResponseWrapper::GameStatusChanged(state)),
                    );
                    match state {
                        GameState::Flop | GameState::Turn | GameState::River => {
                            batches.push(
                                BatchMsg::new(
                                    copy_peers(&receivers),
                                    ResponseWrapper::CardsOnTable(card_on_table),
                                ),
                            );
                        },
                        GameState::Ended => {
                            let r = match result {
                                Some(r) => r,
                                None => {
                                    proof {
                                        assert(false);
                                    }
                                    return batches;
                                },
                            };
                            batches.push(
                                BatchMsg::new(copy_peers(&receivers), ResponseWrapper::GameFinished(r)),
                            );
                        },
                        _ => {},
                    }
                }
                proof {
                    assert(batches_view(batches@) =~= ready_answers(e, t, changed));
                }
                batches
            },
            None => {
                reply(from, ResponseWrapper::Unknown(msg.clone()))
            },
        }
    }

    /// Handles a message from a browser and returns the answers to send.
    pub fn process(&mut self, fat: FatMsg) -> (out: Vec<BatchMsg>)
        requires
            manager_wf(old(self)@),
            process_allowed(old(self)@, fat.from, fat.msg@),
        ensures
            manager_wf(final(self)@),
            process_effect(old(self)@, final(self)@, fat.from->0, fat.msg@, batches_view(out@)),
    {
        let from = match fat.from {
            Some(a) => a,
            None => {
                proof {
                    assert(false);
                }
                0
            },
        };
        match RequestWrapper::from(fat.msg.as_str()) {
            RequestWrapper::SetATable => self.open_table(from),
            RequestWrapper::AddPlayerToTable(table_id) => self.seat_player(from, table_id),
            RequestWrapper::Ready => self.player_ready(from, &fat.msg),
            RequestWrapper::AllTables => {
                let ids = all_tables(&self.casino);
                reply(from, ResponseWrapper::AllTables(ids))
            },
            RequestWrapper::Unknown(msg) => {
                reply(from, ResponseWrapper::Unknown(msg))
            },
        }
    }
}


/// When a closed connection can be handled without failing: if it had a
/// player, that player still has a seat.
pub open spec fn cmd_allowed(m: ManagerView, cmd: DispatcherCmd) -> bool {
    match cmd {
        DispatcherCmd::PlayerLeft(a) => key_index(m.peers, a) >= 0 ==> key_index(
            m.casino.seat_players,
            m.peer_players[key_index(m.peers, a)],
        ) >= 0,
    }
}

impl Manager {
    /// Handles a closed connection: its player leaves the table, and the
    /// players still there are told who left. Nothing happens for a
    /// connection that has no player.
    pub fn dispatcher_cmd(&mut self, cmd: DispatcherCmd) -> (out: Vec<BatchMsg>)
        requires
            manager_wf(old(self)@),
            cmd_allowed(old(self)@, cmd),
        ensures
            manager_wf(final(self)@),
            match cmd {
                DispatcherCmd::PlayerLeft(a) => {
                    let m = old(self)@;
                    let e = final(self)@;
                    let j = key_index(m.peers, a);
                    if j < 0 {
                        out@.len() == 0 && e == m
                    } else {
                        let pid = m.peer_players[j];
                        &&& e.peers == m.peers.remove(j)
                        &&& e.peer_players == m.peer_players.remove(j)
                        &&& e.player_ids == m.player_ids
                        &&& e.player_peers == m.player_peers
                        &&& player_left(m.casino, e.casino, pid)
                        &&& batches_view(out@) == seq![
                            BatchView {
                                to: addresses_of(e, left_behind(m.casino, e.casino, pid)),
                                msg: ResponseView::PlayerDisconnected(pid),
                            },
                        ]
                    }
                },
            },
    {
        let ghost m = self@;
        match cmd {
            DispatcherCmd::PlayerLeft(addr) => {
                match find_peer(&self.peers, addr) {
                    Some(j) => {
                        self.peers.remove(j);
                        let player_id = self.peer_players.remove(j);
                        proof {
                            assert(player_id@ == m.peer_players[j as int]);
                            assert(texts_view(self.peer_players@) =~= m.peer_players.remove(j as int));
                            lemma_remove_keeps_distinct(m.peers, j as int);
                        }
                        let players = player_disconnected(&mut self.casino, player_id.as_str());
                        let ghost e = self@;
                        proof {
                            let c = m.casino;
                            let ec = e.casino;
                            let s = key_index(c.seat_players, player_id@);
                            let k = key_index(c.table_ids, c.seat_tables[s]);
                            lemma_key_index_range(c.table_ids, c.seat_tables[s]);
                            if k >= 0 {
                                lemma_player_removed_ids(c.tables[k], ec.tables[k], player_id@);
                            }
                            assert forall|kk: int, i: int|
                                0 <= kk < ec.tables.len() && 0 <= i < ec.tables[kk].players.len()
                                    implies e.player_ids.contains(#[trigger] ec.tables[kk].players[i].id) by {
                                if k >= 0 && kk == k {
                                    let jj = choose|jj: int|
                                        0 <= jj < c.tables[k].players.len() && ec.tables[kk].players[i].id
                                            == c.tables[k].players[jj].id;
                                    assert(m.player_ids.contains(c.tables[k].players[jj].id));
                                } else {
                                    assert(ec.tables[kk] == c.tables[kk]);
                                }
                            }
                            assert forall|i: int| 0 <= i < players@.len() implies e.player_ids.contains(
                                #[trigger] players@[i].id@,
                            ) by {
                                assert(dtos_view(players@)[i] == players@[i]@);
                                assert(table_dtos(ec.tables[k].players)[i] == dto_of(ec.tables[k].players[i]));
                            }
                        }
                        let receivers = self.players_to_address(&players);
                        let b = BatchMsg::new(receivers, ResponseWrapper::PlayerDisconnected(player_id));
                        let out = vec![b];
                        proof {
                            assert(batches_view(out@) =~= seq![b@]);
                        }
                        out
                    },
                    None => Vec::new(),
                }
            },
        }
    }
}


impl Manager {
    /// Would `process` be safe for this message (see `process_allowed`)?
    pub fn can_process(&self, fat: &FatMsg) -> (b: bool)
        requires
            manager_wf(self@),
        ensures
            b == process_allowed(self@, fat.from, fat.msg@),
    {
        let from = match fat.from {
            Some(a) => a,
            None => {
                return false;
            },
        };
        match RequestWrapper::from(fat.msg.as_str()) {
            RequestWrapper::AddPlayerToTable(t) => crate::casino::has_table(&self.casino, t.as_str()),
            RequestWrapper::Ready => match find_peer(&self.peers, from) {
                Some(j) => {
                    proof {
                        assert(texts_view(self.peer_players@)[j as int] == self.peer_players@[j as int]@);
                    }
                    crate::casino::can_change_state(
                        &self.casino,
                        self.peer_players[j].as_str(),
                        PlayerState::READY,
                    )
                },
                None => true,
            },
            _ => true,
        }
    }

    /// Would `dispatcher_cmd` be safe for this event (see `cmd_allowed`)?
    pub fn can_handle(&self, cmd: DispatcherCmd) -> (b: bool)
        requires
            manager_wf(self@),
        ensures
            b == cmd_allowed(self@, cmd),
    {
        match cmd {
            DispatcherCmd::PlayerLeft(a) => match find_peer(&self.peers, a) {
                Some(j) => {
                    proof {
                        assert(texts_view(self.peer_players@)[j as int] == self.peer_players@[j as int]@);
                    }
                    crate::casino::is_seated(&self.casino, self.peer_players[j].as_str())
                },
                None => true,
            },
        }
    }
}

/// When a "ready" moves a table on to the flop, the turn or the river, the
/// answers include the cards now on that table, sent to the connection of
/// every player at it, in seating order.
pub proof fn lemma_ready_sends_table_cards(
    m: ManagerView,
    e: ManagerView,
    from: u64,
    msg: Seq<char>,
    out: Seq<BatchView>,
    k: int,
)
    requires
        process_effect(m, e, from, msg, out),
        parse_request(msg) == crate::protocol::RequestView::Ready,
        key_index(m.peers, from) >= 0,
        k == table_of_player(m.casino, m.peer_players[key_index(m.peers, from)]),
        e.casino.tables[k].game_state != m.casino.tables[k].game_state,
        e.casino.tables[k].game_state == GameState::Flop || e.casino.tables[k].game_state
            == GameState::Turn || e.casino.tables[k].game_state == GameState::River,
    ensures
        exists|i: int|
            0 <= i < out.len() && (#[trigger] out[i]).msg == ResponseView::CardsOnTable(
                e.casino.tables[k].cards_on_table,
            ) && out[i].to == addresses_of(e, table_dtos(e.casino.tables[k].players))
                && out[i].to.len() == e.casino.tables[k].players.len(),
{
    let pid = m.peer_players[key_index(m.peers, from)];
    let d = m.casino.tables[k];
    let changed = crate::table::would_advance(d, pid, PlayerState::READY);
    assert(out == ready_answers(e, e.casino.tables[k], changed));
    assert(changed);
    assert(out[2].msg == ResponseView::CardsOnTable(e.casino.tables[k].cards_on_table));
}

} // verus!
