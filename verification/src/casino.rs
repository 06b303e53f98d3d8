//! The casino: every table by its identifier, and the table each player
//! sits at. The server holds one casino behind a lock; these functions are
//! what it does with it.
use crate::common::PlayerState;
use crate::common::result_view;
use crate::table::{
    can_advance, dealer_wf, dto_of, dtos_view, new_player_view, player_removed, state_changed,
    table_dtos, would_advance, DealerView, GameTable, PlayerDto, PlayerDtoView, TableDto,
};
use crate::text::{split_at_sep, split_text, texts_view};
use vstd::prelude::*;

verus! {

/// The tables and the seats, as plain values. `table_ids[i]` names
/// `tables[i]`; player `seat_players[i]` sits at the table named
/// `seat_tables[i]`.
pub struct CasinoView {
    pub table_ids: Seq<Seq<char>>,
    pub tables: Seq<DealerView>,
    pub seat_players: Seq<Seq<char>>,
    pub seat_tables: Seq<Seq<char>>,
}

/// Every table and every seat, kept in the order they were made.
pub struct Casino {
    table_ids: Vec<String>,
    tables: Vec<GameTable>,
    seat_players: Vec<String>,
    seat_tables: Vec<String>,
}

impl View for Casino {
    type V = CasinoView;

    closed spec fn view(&self) -> CasinoView {
        CasinoView {
            table_ids: texts_view(self.table_ids@),
            tables: self.tables@.map_values(|t: GameTable| t@),
            seat_players: texts_view(self.seat_players@),
            seat_tables: texts_view(self.seat_tables@),
        }
    }
}

/// Position of `key` among `keys`; -1 if it is not there.
pub open spec fn key_index<K>(keys: Seq<K>, key: K) -> int {
    if exists|i: int| 0 <= i < keys.len() && keys[i] == key {
        choose|i: int| 0 <= i < keys.len() && keys[i] == key
    } else {
        -1
    }
}

/// The casino's invariant: no table identifier and no player identifier
/// occurs twice, each table and each seat has its partner, and every table
/// is a valid dealer.
pub open spec fn casino_wf(c: CasinoView) -> bool {
    &&& c.table_ids.len() == c.tables.len()
    &&& c.seat_players.len() == c.seat_tables.len()
    &&& c.table_ids.no_duplicates()
    &&& c.seat_players.no_duplicates()
    &&& forall|i: int| 0 <= i < c.tables.len() ==> dealer_wf(#[trigger] c.tables[i])
    &&& forall|i: int| 0 <= i < c.seat_tables.len() ==> c.table_ids.contains(#[trigger] c.seat_tables[i])
}

/// The keys after `key` is given a value: unchanged if it was there,
/// `key` added at the end otherwise.
pub open spec fn keys_after_insert<K>(keys: Seq<K>, key: K) -> Seq<K> {
    if key_index(keys, key) >= 0 {
        keys
    } else {
        keys.push(key)
    }
}

/// The values after `key` is given the value `v`.
pub open spec fn values_after_insert<K, V>(keys: Seq<K>, vals: Seq<V>, key: K, v: V) -> Seq<V> {
    if key_index(keys, key) >= 0 {
        vals.update(key_index(keys, key), v)
    } else {
        vals.push(v)
    }
}

/// Is `t` a table as `GameTable::set_a_table` makes it?
pub open spec fn is_new_table(t: DealerView) -> bool {
    &&& dealer_wf(t)
    &&& t.game_state == crate::common::GameState::Blinds
    &&& t.players.len() == 0
    &&& t.cards_on_table.len() == 0
    &&& t.game_result is None
    &&& t.deck.len() == 52
    &&& t.deck.to_multiset() == crate::card::fresh_deck().to_multiset()
}

/// A lower-case hexadecimal digit.
pub open spec fn is_hex_digit(c: char) -> bool {
    ('0' <= c && c <= '9') || ('a' <= c && c <= 'f')
}

/// The text of a UUID in its hyphenated form: 36 characters, hyphens at
/// positions 8, 13, 18 and 23, lower-case hexadecimal digits elsewhere.
pub open spec fn uuid_shape(s: Seq<char>) -> bool {
    &&& s.len() == 36
    &&& forall|i: int|
        0 <= i < 36 ==> if i == 8 || i == 13 || i == 18 || i == 23 {
            s[i] == '-'
        } else {
            is_hex_digit(#[trigger] s[i])
        }
}

/// An identifier made of `n` lower-case hexadecimal digits.
pub open spec fn is_hex_id(s: Seq<char>, n: nat) -> bool {
    s.len() == n && forall|i: int| 0 <= i < n ==> is_hex_digit(#[trigger] s[i])
}

/// Calls `uuid::Uuid::new_v4` and writes the UUID with `to_string`, whose
/// `Display` is the lower-case hyphenated form (`fmt::LowerHex` of
/// `as_hyphenated`). The digits are random and are not stated.
#[verifier::external_body]
fn uuid_v4_text() -> (s: String)
    ensures
        uuid_shape(s@),
{
    uuid::Uuid::new_v4().to_string()
}

proof fn lemma_split_first(s: Seq<char>, k: int)
    requires
        0 <= k < s.len(),
        s[k] == '-',
        forall|j: int| 0 <= j < k ==> s[j] != '-',
    ensures
        split_at_sep(s, "-"@) == seq![s.subrange(0, k)] + split_at_sep(
            s.subrange(k + 1, s.len() as int),
            "-"@,
        ),
{
    reveal_strlit("-");
    let sep = "-"@;
    assert forall|j: int| 0 <= j < k implies !crate::text::occurs_at(s, sep, j) by {
        assert(s.subrange(j, j + 1)[0] == s[j]);
    }
    assert(s.subrange(k, k + 1) =~= sep);
    lemma_find_first(s, sep, 0, k);
}

proof fn lemma_find_first(s: Seq<char>, sep: Seq<char>, i: int, k: int)
    requires
        0 <= i <= k,
        sep.len() == 1,
        k + 1 <= s.len(),
        crate::text::occurs_at(s, sep, k),
        forall|j: int| 0 <= j < k ==> !crate::text::occurs_at(s, sep, j),
    ensures
        crate::text::find_from(s, sep, i) == k,
    decreases k - i,
{
    if i < k {
        lemma_find_first(s, sep, i + 1, k);
    }
}

proof fn lemma_split_none(s: Seq<char>)
    requires
        forall|j: int| 0 <= j < s.len() ==> s[j] != '-',
    ensures
        split_at_sep(s, "-"@) == seq![s],
{
    reveal_strlit("-");
    let sep = "-"@;
    assert(sep =~= seq!['-']);
    lemma_find_none_dash(s, sep, 0);
}

proof fn lemma_find_none_dash(s: Seq<char>, sep: Seq<char>, i: int)
    requires
        0 <= i,
        sep == seq!['-'],
        forall|j: int| 0 <= j < s.len() ==> s[j] != '-',
    ensures
        crate::text::find_from(s, sep, i) == -1,
    decreases s.len() - i,
{
    if i + 1 <= s.len() {
        assert(s.subrange(i, i + 1)[0] == s[i]);
        lemma_find_none_dash(s, sep, i + 1);
    }
}

/// The pieces of a UUID text between its hyphens.
proof fn lemma_split_uuid(u: Seq<char>)
    requires
        uuid_shape(u),
    ensures
        split_at_sep(u, "-"@) == seq![
            u.subrange(0, 8),
            u.subrange(9, 13),
            u.subrange(14, 18),
            u.subrange(19, 23),
            u.subrange(24, 36),
        ],
{
    assert forall|i: int| 0 <= i < 36 && i != 8 && i != 13 && i != 18 && i != 23 implies u[i] != '-' by {
        assert(is_hex_digit(u[i]));
    }
    let s1 = u.subrange(9, 36);
    let s2 = s1.subrange(5, 27);
    let s3 = s2.subrange(5, 22);
    let s4 = s3.subrange(5, 17);
    lemma_split_first(u, 8);
    assert(u.subrange(9, u.len() as int) =~= s1);
    lemma_split_first(s1, 4);
    assert(s1.subrange(5, s1.len() as int) =~= s2);
    lemma_split_first(s2, 4);
    assert(s2.subrange(5, s2.len() as int) =~= s3);
    lemma_split_first(s3, 4);
    assert(s3.subrange(5, s3.len() as int) =~= s4);
    lemma_split_none(s4);
    assert(s1.subrange(0, 4) =~= u.subrange(9, 13));
    assert(s2.subrange(0, 4) =~= u.subrange(14, 18));
    assert(s3.subrange(0, 4) =~= u.subrange(19, 23));
    assert(s4 =~= u.subrange(24, 36));
    assert(split_at_sep(u, "-"@) =~= seq![
        u.subrange(0, 8),
        u.subrange(9, 13),
        u.subrange(14, 18),
        u.subrange(19, 23),
        u.subrange(24, 36),
    ]);
}

/// The first group of a UUID text: its first eight hexadecimal digits.
pub fn first_group(u: &str) -> (s: String)
    requires
        uuid_shape(u@),
    ensures
        s@ == u@.subrange(0, 8),
{
    proof {
        reveal_strlit("-");
        lemma_split_uuid(u@);
    }
    let mut parts = split_text(u, "-");
    assert(texts_view(parts@).len() == parts@.len());
    assert(texts_view(parts@)[0] == parts@[0]@);
    assert(parts@.len() == 5 && parts@[0]@ == u@.subrange(0, 8));
    parts.swap_remove(0)
}

/// The last group of a UUID text: its last twelve hexadecimal digits.
pub fn last_group(u: &str) -> (s: String)
    requires
        uuid_shape(u@),
    ensures
        s@ == u@.subrange(24, 36),
{
    proof {
        reveal_strlit("-");
        lemma_split_uuid(u@);
    }
    let mut parts = split_text(u, "-");
    assert(texts_view(parts@).len() == parts@.len());
    assert(texts_view(parts@)[4] == parts@[4]@);
    assert(parts@.len() == 5 && parts@[4]@ == u@.subrange(24, 36));
    parts.swap_remove(4)
}

/// A short identifier for a player: the first group of a random UUID.
pub fn generate_short_id() -> (id: String)
    ensures
        exists|u: Seq<char>| uuid_shape(u) && id@ == u.subrange(0, 8),
        is_hex_id(id@, 8),
{
    let u = uuid_v4_text();
    let first = first_group(u.as_str());
    proof {
        assert forall|i: int| 0 <= i < 8 implies is_hex_digit(#[trigger] first@[i]) by {
            assert(first@[i] == u@[i]);
        }
    }
    first
}

/// A long identifier for a table: the last group of a random UUID.
pub fn generate_long_id() -> (id: String)
    ensures
        exists|u: Seq<char>| uuid_shape(u) && id@ == u.subrange(24, 36),
        is_hex_id(id@, 12),
{
    let u = uuid_v4_text();
    let last = last_group(u.as_str());
    proof {
        assert forall|i: int| 0 <= i < 12 implies is_hex_digit(#[trigger] last@[i]) by {
            assert(last@[i] == u@[24 + i]);
        }
    }
    last
}


/// Where `key` is among `keys`, if anywhere.
fn find_key(keys: &Vec<String>, key: &str) -> (r: Option<usize>)
    ensures
        match r {
            Some(i) => i < keys@.len() && keys@[i as int]@ == key@,
            None => forall|j: int| 0 <= j < keys@.len() ==> (#[trigger] keys@[j])@ != key@,
        },
{
    let n = keys.len();
    let mut i: usize = 0;
    while i < n
        invariant
            n == keys@.len(),
            i <= n,
            forall|j: int| 0 <= j < i ==> (#[trigger] keys@[j])@ != key@,
        decreases n - i,
    {
        if crate::text::same_text(keys[i].as_str(), key) {
            return Some(i);
        }
        i = i + 1;
    }
    None
}

pub proof fn lemma_key_index_found<K>(keys: Seq<K>, key: K, i: int)
    requires
        keys.no_duplicates(),
        0 <= i < keys.len(),
        keys[i] == key,
    ensures
        key_index(keys, key) == i,
{
}

pub proof fn lemma_key_index_missing<K>(keys: Seq<K>, key: K)
    requires
        forall|j: int| 0 <= j < keys.len() ==> keys[j] != key,
    ensures
        key_index(keys, key) == -1,
{
}

pub proof fn lemma_key_index_range<K>(keys: Seq<K>, key: K)
    ensures
        key_index(keys, key) == -1 || (0 <= key_index(keys, key) < keys.len() && keys[key_index(
            keys,
            key,
        )] == key),
{
}

/// Finds `key` and relates the answer to `key_index`.
pub fn locate(keys: &Vec<String>, key: &str) -> (r: Option<usize>)
    requires
        texts_view(keys@).no_duplicates(),
    ensures
        match r {
            Some(i) => i == key_index(texts_view(keys@), key@),
            None => key_index(texts_view(keys@), key@) == -1,
        },
        key_index(texts_view(keys@), key@) < keys@.len(),
{
    let r = find_key(keys, key);
    proof {
        let kv = texts_view(keys@);
        lemma_key_index_range(kv, key@);
        match r {
            Some(i) => {
                assert(kv[i as int] == keys@[i as int]@);
                lemma_key_index_found(kv, key@, i as int);
            },
            None => {
                assert forall|j: int| 0 <= j < kv.len() implies kv[j] != key@ by {
                    assert(kv[j] == keys@[j]@);
                }
                lemma_key_index_missing(kv, key@);
            },
        }
    }
    r
}

/// Gives `key` the value `v`: replaces its value if it is there, adds it at
/// the end otherwise.
pub fn insert_text(keys: &mut Vec<String>, vals: &mut Vec<String>, key: String, v: String)
    requires
        texts_view(old(keys)@).no_duplicates(),
        old(keys)@.len() == old(vals)@.len(),
    ensures
        texts_view(final(keys)@) == keys_after_insert(texts_view(old(keys)@), key@),
        texts_view(final(vals)@) == values_after_insert(
            texts_view(old(keys)@),
            texts_view(old(vals)@),
            key@,
            v@,
        ),
        texts_view(final(keys)@).no_duplicates(),
        final(keys)@.len() == final(vals)@.len(),
{
    let ghost k0 = texts_view(keys@);
    let ghost v0 = texts_view(vals@);
    match locate(keys, key.as_str()) {
        Some(i) => {
            vals.set(i, v);
            assert(texts_view(vals@) =~= v0.update(i as int, v@));
        },
        None => {
            let ghost kv = key@;
            keys.push(key);
            vals.push(v);
            assert(texts_view(keys@) =~= k0.push(kv));
            assert(texts_view(vals@) =~= v0.push(v@));
            proof {
                assert forall|a: int, b: int|
                    0 <= a < b < texts_view(keys@).len() implies texts_view(keys@)[a] != texts_view(
                    keys@,
                )[b] by {
                    if b == k0.len() {
                        assert(k0[a] != kv);
                    } else {
                        assert(k0[a] != k0[b]);
                    }
                }
            }
        },
    }
}

/// `set_a_table` took casino `c` to `e` and named the new table `id`.
pub open spec fn table_opened(c: CasinoView, e: CasinoView, id: Seq<char>) -> bool {
    &&& is_hex_id(id, 12)
    &&& e.table_ids == keys_after_insert(c.table_ids, id)
    &&& exists|t: DealerView|
        is_new_table(t) && e.tables == values_after_insert(c.table_ids, c.tables, id, t)
    &&& e.seat_players == c.seat_players
    &&& e.seat_tables == c.seat_tables
}

/// `add_player_to_table` took casino `c` to `e`, seating player `pid` at the
/// existing table `table_id`.
pub open spec fn player_seated(c: CasinoView, e: CasinoView, table_id: Seq<char>, pid: Seq<char>) -> bool {
    let k = key_index(c.table_ids, table_id);
    &&& k >= 0
    &&& is_hex_id(pid, 8)
    &&& e == (CasinoView {
        tables: c.tables.update(
            k,
            DealerView { players: c.tables[k].players.push(new_player_view(pid)), ..c.tables[k] },
        ),
        seat_players: keys_after_insert(c.seat_players, pid),
        seat_tables: values_after_insert(c.seat_players, c.seat_tables, pid, table_id),
        ..c
    })
}

/// `player_disconnected` took casino `c` to `e` when player `pid` left.
pub open spec fn player_left(c: CasinoView, e: CasinoView, pid: Seq<char>) -> bool {
    let s = key_index(c.seat_players, pid);
    let k = key_index(c.table_ids, c.seat_tables[s]);
    &&& s >= 0
    &&& e.seat_players == c.seat_players.remove(s)
    &&& e.seat_tables == c.seat_tables.remove(s)
    &&& e.table_ids == c.table_ids
    &&& k < 0 ==> e.tables == c.tables
    &&& k >= 0 ==> player_removed(c.tables[k], e.tables[k], pid) && e.tables == c.tables.update(
        k,
        e.tables[k],
    )
}

/// The players still at the table of a player who left, as `e` has them.
pub open spec fn left_behind(c: CasinoView, e: CasinoView, pid: Seq<char>) -> Seq<PlayerDtoView> {
    let s = key_index(c.seat_players, pid);
    let k = key_index(c.table_ids, c.seat_tables[s]);
    if k < 0 {
        Seq::empty()
    } else {
        table_dtos(e.tables[k].players)
    }
}

/// `player_change_state` took casino `c` to `e`, setting player `pid` to
/// `st`, with answer `changed`.
pub open spec fn player_state_set(
    c: CasinoView,
    e: CasinoView,
    pid: Seq<char>,
    st: PlayerState,
    changed: bool,
) -> bool {
    let k = table_of_player(c, pid);
    &&& k >= 0
    &&& e.table_ids == c.table_ids
    &&& e.seat_players == c.seat_players
    &&& e.seat_tables == c.seat_tables
    &&& e.tables == c.tables.update(k, e.tables[k])
    &&& state_changed(c.tables[k], e.tables[k], pid, st, changed)
}

/// `t` describes the table `d` known as `id`.
pub open spec fn describes(t: TableDto, id: Seq<char>, d: DealerView) -> bool {
    &&& t.id@ == id
    &&& t.state == d.game_state
    &&& dtos_view(t.players@) == table_dtos(d.players)
    &&& t.card_on_table@ == d.cards_on_table
    &&& result_view(t.result) == d.game_result
}

impl Casino {
    /// A casino with no tables and nobody seated.
    pub fn new() -> (c: Casino)
        ensures
            casino_wf(c@),
            c@.table_ids.len() == 0,
            c@.seat_players.len() == 0,
    {
        let c = Casino {
            table_ids: Vec::new(),
            tables: Vec::new(),
            seat_players: Vec::new(),
            seat_tables: Vec::new(),
        };
        assert(c@.table_ids =~= Seq::<Seq<char>>::empty());
        assert(c@.seat_players =~= Seq::<Seq<char>>::empty());
        c
    }
}

/// Opens a new table under a new long identifier and returns the identifier.
pub fn set_a_table(casino: &mut Casino) -> (table_id: String)
    requires
        casino_wf(old(casino)@),
    ensures
        casino_wf(final(casino)@),
        table_opened(old(casino)@, final(casino)@, table_id@),
{
    let ghost c0 = casino@;
    let table_id = generate_long_id();
    let table = GameTable::set_a_table();
    let ghost t = table@;
    match locate(&casino.table_ids, table_id.as_str()) {
        Some(i) => {
            casino.tables.set(i, table);
            proof {
                assert(casino@.tables =~= c0.tables.update(i as int, t));
            }
        },
        None => {
            casino.table_ids.push(table_id.clone());
            casino.tables.push(table);
            proof {
                assert(casino@.tables =~= c0.tables.push(t));
                assert(casino@.table_ids =~= c0.table_ids.push(table_id@));
                assert forall|i: int| 0 <= i < casino@.seat_tables.len() implies casino@.table_ids.contains(
                    #[trigger] casino@.seat_tables[i],
                ) by {
                    let x = casino@.seat_tables[i];
                    assert(c0.table_ids.contains(x));
                    let j = choose|j: int| 0 <= j < c0.table_ids.len() && c0.table_ids[j] == x;
                    assert(casino@.table_ids[j] == x);
                }
                assert forall|a: int, b: int|
                    0 <= a < b < casino@.table_ids.len() implies casino@.table_ids[a]
                    != casino@.table_ids[b] by {
                    if b == c0.table_ids.len() {
                        assert(c0.table_ids[a] != table_id@);
                    } else {
                        assert(c0.table_ids[a] != c0.table_ids[b]);
                    }
                }
            }
        },
    }
    proof {
        assert(is_new_table(t));
        assert forall|i: int| 0 <= i < casino@.tables.len() implies dealer_wf(
            #[trigger] casino@.tables[i],
        ) by {
            if i < c0.tables.len() && casino@.tables[i] != t {
                assert(casino@.tables[i] == c0.tables[i]);
            }
        }
    }
    table_id
}

/// Seats a new player at table `table_id` and returns the player's short
/// identifier; `Err` if there is no such table.
pub fn add_player_to_table(casino: &mut Casino, table_id: &str) -> (r: Result<String, ()>)
    requires
        casino_wf(old(casino)@),
    ensures
        casino_wf(final(casino)@),
        key_index(old(casino)@.table_ids, table_id@) < 0 ==> r is Err && final(casino)@ == old(
            casino,
        )@,
        key_index(old(casino)@.table_ids, table_id@) >= 0 ==> (r matches Ok(pid) && player_seated(
            old(casino)@,
            final(casino)@,
            table_id@,
            pid@,
        )),
{
    let ghost c0 = casino@;
    match locate(&casino.table_ids, table_id) {
        Some(k) => {
            let player_id = generate_short_id();
            let mut table = casino.tables.remove(k);
            proof {
                assert(c0.tables[k as int] == table@);
            }
            table.add_player(player_id.as_str());
            let ghost t = table@;
            casino.tables.insert(k, table);
            proof {
                assert(casino@.tables =~= c0.tables.update(k as int, t));
            }
            insert_text(
                &mut casino.seat_players,
                &mut casino.seat_tables,
                player_id.clone(),
                String::from_str(table_id),
            );
            proof {
                assert forall|i: int| 0 <= i < casino@.tables.len() implies dealer_wf(
                    #[trigger] casino@.tables[i],
                ) by {
                    if i != k {
                        assert(casino@.tables[i] == c0.tables[i]);
                    }
                }
                assert(casino@ == (CasinoView {
                    tables: c0.tables.update(
                        k as int,
                        DealerView {
                            players: c0.tables[k as int].players.push(new_player_view(player_id@)),
                            ..c0.tables[k as int]
                        },
                    ),
                    seat_players: keys_after_insert(c0.seat_players, player_id@),
                    seat_tables: values_after_insert(
                        c0.seat_players,
                        c0.seat_tables,
                        player_id@,
                        table_id@,
                    ),
                    ..c0
                }));
            }
            Ok(player_id)
        },
        None => Err(()),
    }
}

/// Descriptions of the players at table `table_id`; `Err` if there is no
/// such table.
pub fn get_table_players(casino: &Casino, table_id: &str) -> (r: Result<Vec<PlayerDto>, ()>)
    requires
        casino_wf(casino@),
    ensures
        ({
            let k = key_index(casino@.table_ids, table_id@);
            &&& k < 0 ==> r is Err
            &&& k >= 0 ==> (r matches Ok(v) && v@.len() == casino@.tables[k].players.len() && forall|
                i: int,
            |
                0 <= i < v@.len() ==> (#[trigger] v@[i])@ == dto_of(casino@.tables[k].players[i]))
        }),
{
    match locate(&casino.table_ids, table_id) {
        Some(k) => {
            proof {
                assert(casino@.tables[k as int] == casino.tables@[k as int]@);
            }
            Ok(casino.tables[k].players())
        },
        None => Err(()),
    }
}

/// The identifiers of all the tables.
pub fn all_tables(casino: &Casino) -> (ids: Vec<String>)
    ensures
        texts_view(ids@) == casino@.table_ids,
{
    let n = casino.table_ids.len();
    let mut ids: Vec<String> = Vec::new();
    let mut i: usize = 0;
    while i < n
        invariant
            n == casino.table_ids@.len(),
            i <= n,
            texts_view(ids@) == texts_view(casino.table_ids@).take(i as int),
        decreases n - i,
    {
        let t = casino.table_ids[i].clone();
        let ghost before = texts_view(ids@);
        ids.push(t);
        assert(texts_view(ids@) =~= before.push(t@));
        assert(texts_view(casino.table_ids@)[i as int] == casino.table_ids@[i as int]@);
        i = i + 1;
        assert(texts_view(ids@) =~= texts_view(casino.table_ids@).take(i as int));
    }
    assert(texts_view(casino.table_ids@).take(n as int) =~= texts_view(casino.table_ids@));
    ids
}


pub proof fn lemma_remove_keeps_distinct<K>(keys: Seq<K>, i: int)
    requires
        keys.no_duplicates(),
        0 <= i < keys.len(),
    ensures
        keys.remove(i).no_duplicates(),
{
    let r = keys.remove(i);
    assert forall|a: int, b: int| 0 <= a < b < r.len() implies r[a] != r[b] by {
        let a0 = if a < i { a } else { a + 1 };
        let b0 = if b < i { b } else { b + 1 };
        assert(r[a] == keys[a0] && r[b] == keys[b0]);
    }
}

/// The table of the player `player_id`, found through the seats: its
/// position among the tables, or -1.
pub open spec fn table_of_player(c: CasinoView, player_id: Seq<char>) -> int {
    let s = key_index(c.seat_players, player_id);
    if s < 0 {
        -1
    } else {
        key_index(c.table_ids, c.seat_tables[s])
    }
}

/// The player is seated, the table is there, and if the change makes
/// everybody ready, the table has what the next step needs.
pub open spec fn change_state_allowed(c: CasinoView, player_id: Seq<char>, st: PlayerState) -> bool {
    let k = table_of_player(c, player_id);
    &&& key_index(c.seat_players, player_id) >= 0
    &&& k >= 0
    &&& would_advance(c.tables[k], player_id, st) ==> can_advance(c.tables[k])
}

/// A player has left: the seat goes, and the player leaves the table.
/// Returns descriptions of the players still at that table (none if the
/// table is gone).
pub fn player_disconnected(casino: &mut Casino, player_id: &str) -> (out: Vec<PlayerDto>)
    requires
        casino_wf(old(casino)@),
        key_index(old(casino)@.seat_players, player_id@) >= 0,
    ensures
        casino_wf(final(casino)@),
        player_left(old(casino)@, final(casino)@, player_id@),
        dtos_view(out@) == left_behind(old(casino)@, final(casino)@, player_id@),
{
    let ghost c0 = casino@;
    let s = match locate(&casino.seat_players, player_id) {
        Some(s) => s,
        None => {
            proof {
                assert(false);
            }
            0
        },
    };
    casino.seat_players.remove(s);
    let table_id = casino.seat_tables.remove(s);
    proof {
        assert(casino@.seat_players =~= c0.seat_players.remove(s as int));
        assert(casino@.seat_tables =~= c0.seat_tables.remove(s as int));
        assert(table_id@ == c0.seat_tables[s as int]);
        lemma_remove_keeps_distinct(c0.seat_players, s as int);
    }
    match locate(&casino.table_ids, table_id.as_str()) {
        Some(k) => {
            let mut table = casino.tables.remove(k);
            proof {
                assert(c0.tables[k as int] == table@);
            }
            table.remove_player(player_id);
            let out = table.players();
            let ghost t = table@;
            casino.tables.insert(k, table);
            proof {
                assert(casino@.tables =~= c0.tables.update(k as int, t));
                assert forall|i: int| 0 <= i < casino@.tables.len() implies dealer_wf(
                    #[trigger] casino@.tables[i],
                ) by {
                    if i != k {
                        assert(casino@.tables[i] == c0.tables[i]);
                    }
                }
            }
            out
        },
        None => Vec::new(),
    }
}

/// Is `change_state_allowed` true?
pub fn can_change_state(casino: &Casino, player_id: &str, state: PlayerState) -> (b: bool)
    requires
        casino_wf(casino@),
    ensures
        b == change_state_allowed(casino@, player_id@, state),
{
    match locate(&casino.seat_players, player_id) {
        Some(s) => {
            proof {
                assert(casino@.seat_tables[s as int] == casino.seat_tables@[s as int]@);
            }
            match locate(&casino.table_ids, casino.seat_tables[s].as_str()) {
                Some(k) => {
                    proof {
                        assert(casino@.tables[k as int] == casino.tables@[k as int]@);
                    }
                    casino.tables[k].can_change_player_state(player_id, state)
                },
                None => false,
            }
        },
        None => false,
    }
}

/// Sets the state of player `player_id` at the player's table (see
/// `GameTable::player_change_state`); returns the table's description after
/// the change and whether the game moved on.
pub fn player_change_state(casino: &mut Casino, player_id: &str, new_state: PlayerState) -> (r: (
    TableDto,
    bool,
))
    requires
        casino_wf(old(casino)@),
        change_state_allowed(old(casino)@, player_id@, new_state),
    ensures
        casino_wf(final(casino)@),
        player_state_set(old(casino)@, final(casino)@, player_id@, new_state, r.1),
        describes(
            r.0,
            old(casino)@.seat_tables[key_index(old(casino)@.seat_players, player_id@)],
            final(casino)@.tables[table_of_player(old(casino)@, player_id@)],
        ),
{
    let ghost c0 = casino@;
    let s = match locate(&casino.seat_players, player_id) {
        Some(s) => s,
        None => {
            proof {
                assert(false);
            }
            0
        },
    };
    let table_id = casino.seat_tables[s].clone();
    proof {
        assert(table_id@ == c0.seat_tables[s as int]);
    }
    let k = match locate(&casino.table_ids, table_id.as_str()) {
        Some(k) => k,
        None => {
            proof {
                assert(false);
            }
            0
        },
    };
    let mut table = casino.tables.remove(k);
    proof {
        assert(c0.tables[k as int] == table@);
    }
    let changed = table.player_change_state(player_id, new_state);
    let result = table.get_result();
    let dto = TableDto::from(table_id.as_str(), &table, result);
    let ghost t = table@;
    assert(dtos_view(dto.players@) =~= table_dtos(t.players));
    casino.tables.insert(k, table);
    proof {
        assert(casino@.tables =~= c0.tables.update(k as int, t));
        assert forall|i: int| 0 <= i < casino@.tables.len() implies dealer_wf(
            #[trigger] casino@.tables[i],
        ) by {
            if i != k {
                assert(casino@.tables[i] == c0.tables[i]);
            }
        }
    }
    (dto, changed)
}


/// Is there a table called `table_id`?
pub fn has_table(casino: &Casino, table_id: &str) -> (b: bool)
    requires
        casino_wf(casino@),
    ensures
        b == (key_index(casino@.table_ids, table_id@) >= 0),
{
    locate(&casino.table_ids, table_id).is_some()
}

/// Does player `player_id` have a seat?
pub fn is_seated(casino: &Casino, player_id: &str) -> (b: bool)
    requires
        casino_wf(casino@),
    ensures
        b == (key_index(casino@.seat_players, player_id@) >= 0),
{
    locate(&casino.seat_players, player_id).is_some()
}


proof fn lemma_inserted_key_found<K, V>(keys: Seq<K>, vals: Seq<V>, key: K, v: V)
    requires
        keys.len() == vals.len(),
    ensures
        key_index(keys_after_insert(keys, key), key) >= 0,
        values_after_insert(keys, vals, key, v)[key_index(keys_after_insert(keys, key), key)]
            == v || !keys_after_insert(keys, key).no_duplicates(),
{
    lemma_key_index_range(keys, key);
    let nk = keys_after_insert(keys, key);
    if key_index(keys, key) < 0 {
        assert(nk[keys.len() as int] == key);
        lemma_key_index_range(nk, key);
        if nk.no_duplicates() {
            lemma_key_index_found(nk, key, keys.len() as int);
        }
    } else {
        lemma_key_index_range(nk, key);
    }
}

/// A table that was opened can be found under the identifier given out.
pub proof fn lemma_opened_table_is_found(c: CasinoView, e: CasinoView, id: Seq<char>)
    requires
        casino_wf(c),
        casino_wf(e),
        table_opened(c, e, id),
    ensures
        key_index(e.table_ids, id) >= 0,
        is_new_table(e.tables[key_index(e.table_ids, id)]),
{
    let t = choose|t: DealerView|
        is_new_table(t) && e.tables == values_after_insert(c.table_ids, c.tables, id, t);
    lemma_key_index_range(c.table_ids, id);
    if key_index(c.table_ids, id) >= 0 {
        lemma_key_index_found(e.table_ids, id, key_index(c.table_ids, id));
        assert(e.tables[key_index(c.table_ids, id)] == t);
    } else {
        assert(e.table_ids[c.table_ids.len() as int] == id);
        lemma_key_index_found(e.table_ids, id, c.table_ids.len() as int);
        assert(e.tables[c.tables.len() as int] == t);
    }
}

/// A player who was given a seat is listed last at the table, after the
/// players who were there, and the seat points to that table.
pub proof fn lemma_seated_player_is_listed(c: CasinoView, e: CasinoView, table_id: Seq<char>, pid: Seq<char>)
    requires
        casino_wf(c),
        casino_wf(e),
        player_seated(c, e, table_id, pid),
    ensures
        ({
            let k = key_index(c.table_ids, table_id);
            let ps = e.tables[k].players;
            &&& ps.len() == c.tables[k].players.len() + 1
            &&& ps.drop_last() == c.tables[k].players
            &&& ps.last().id == pid
            &&& key_index(e.seat_players, pid) >= 0
            &&& e.seat_tables[key_index(e.seat_players, pid)] == table_id
        }),
{
    let k = key_index(c.table_ids, table_id);
    assert(e.tables[k].players.drop_last() =~= c.tables[k].players);
    lemma_inserted_key_found(c.seat_players, c.seat_tables, pid, table_id);
}

} // verus!
