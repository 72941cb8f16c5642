//! The durable store: an embedded, transactional key-value engine
//! holding room messages under lexicographically sortable composite
//! keys, per-room sequence counters, user records, presence entries and
//! persisted rate counters.

use vstd::prelude::*;
use redb::ReadableDatabase;
use redb::ReadableTable;
use crate::record::MessageRecord;
use crate::record::decode_record;
use crate::record::enc_rec;
use crate::record::encode_record;
use crate::record::key_spec;
use crate::record::lemma_enc_injective;
use crate::record::make_key;
use crate::record::rec_eqv;
use crate::record::valid_rec;
use crate::clock::now_ms;
use crate::text::string_of;
use crate::text::vec_char_eq;
use crate::text::vec_chars;

verus! {

/// How a store operation fails: an engine error, or a per-room
/// sequence counter that cannot be increased further.
#[derive(Clone, Copy, Debug, PartialEq, Eq, Structural)]
pub enum StoreError {
    Storage,
    SeqExhausted,
}

#[verifier::external_type_specification]
#[verifier::external_body]
pub struct ExDatabase(redb::Database);

/// The contents of the text-valued table `name` of `db`.
pub uninterp spec fn str_table(db: redb::Database, name: Seq<char>) -> Map<Seq<char>, Seq<char>>;

/// The contents of the `u64`-valued table `name` of `db`.
pub uninterp spec fn u64_table(db: redb::Database, name: Seq<char>) -> Map<Seq<char>, u64>;

/// The contents of the `i64`-valued table `name` of `db`.
pub uninterp spec fn i64_table(db: redb::Database, name: Seq<char>) -> Map<Seq<char>, i64>;

/// The durable store, backed by one database file.
pub struct Storage {
    db: redb::Database,
}

impl Storage {
    /// The message table: composite key to stored record text.
    pub closed spec fn msgs(self) -> Map<Seq<char>, Seq<char>> {
        str_table(self.db, "messages"@)
    }

    /// The per-room sequence counters.
    pub closed spec fn seqs(self) -> Map<Seq<char>, u64> {
        u64_table(self.db, "seqs"@)
    }

    /// The user records, as stored text.
    pub closed spec fn users(self) -> Map<Seq<char>, Seq<char>> {
        str_table(self.db, "users"@)
    }

    /// The presence entries: user to last-seen time (unix seconds).
    pub closed spec fn presence(self) -> Map<Seq<char>, i64> {
        i64_table(self.db, "presence"@)
    }

    /// The persisted audit counters.
    pub closed spec fn rates(self) -> Map<Seq<char>, u64> {
        u64_table(self.db, "rate"@)
    }

    /// The sequence counter of `room`; zero for an unseen room.
    pub open spec fn room_seq(self, room: Seq<char>) -> u64 {
        seq_count(self.seqs(), room)
    }

    /// A message-table entry is well formed when its value is the
    /// stored text of a valid record and its key is that record's
    /// composite key.
    pub open spec fn valid_entry(k: Seq<char>, v: Seq<char>) -> bool {
        exists|rc: MessageRecord|
            valid_rec(rc) && enc_rec(rc) == v && k == key_spec(rc.room@, rc.server_ts, rc.seq)
    }

    /// Every message-table entry is well formed.
    pub open spec fn wf(self) -> bool {
        forall|k: Seq<char>|
            #[trigger] self.msgs().contains_key(k) ==> Self::valid_entry(k, self.msgs()[k])
    }
}

/// The sequence counter of `room` in counter table `m`; zero for an
/// unseen room.
pub open spec fn seq_count(m: Map<Seq<char>, u64>, room: Seq<char>) -> u64 {
    if m.contains_key(room) {
        m[room]
    } else {
        0
    }
}

/// The record whose stored text is `v` (meaningful for well-formed
/// entries; unique up to field content by injectivity of the encoding).
pub open spec fn rec_of(v: Seq<char>) -> MessageRecord {
    choose|rc: MessageRecord| valid_rec(rc) && enc_rec(rc) == v
}

/// Some entry of `m` holds exactly the text `s`.
pub open spec fn in_table(m: Map<Seq<char>, Seq<char>>, s: Seq<char>) -> bool {
    exists|k: Seq<char>| #[trigger] m.contains_key(k) && m[k] == s
}

/// Some element of `vs` is the text `s`.
pub open spec fn seq_has_str(vs: Seq<String>, s: Seq<char>) -> bool {
    exists|i: int| 0 <= i < vs.len() && #[trigger] vs[i]@ == s
}

/// Some element of `vs` has first component `k`.
pub open spec fn seq_has_key_i64(vs: Seq<(String, i64)>, k: Seq<char>) -> bool {
    exists|i: int| 0 <= i < vs.len() && #[trigger] vs[i].0@ == k
}

/// Some element of `vs` has first component `k`.
pub open spec fn seq_has_key_u64(vs: Seq<(String, u64)>, k: Seq<char>) -> bool {
    exists|i: int| 0 <= i < vs.len() && #[trigger] vs[i].0@ == k
}

/// Message order: by timestamp, ties broken by sequence number.
pub open spec fn rec_lt(a: MessageRecord, b: MessageRecord) -> bool {
    a.server_ts < b.server_ts || (a.server_ts == b.server_ts && a.seq < b.seq)
}

/// Strictly ascending by `(server_ts, seq)`.
pub open spec fn sorted_recs(s: Seq<MessageRecord>) -> bool {
    forall|i: int, j: int| 0 <= i < j < s.len() ==> rec_lt(#[trigger] s[i], #[trigger] s[j])
}

/// A record a scan of `room` selects: right room, and strictly after
/// `after_ts` when that is given.
pub open spec fn rec_matches(rc: MessageRecord, room: Seq<char>, after_ts: Option<i64>) -> bool {
    rc.room@ == room && match after_ts {
        Some(t) => rc.server_ts > t,
        None => true,
    }
}

/// `rc` is stored in `m`: the entry at its composite key holds its
/// stored text.
pub open spec fn stored_in(m: Map<Seq<char>, Seq<char>>, rc: MessageRecord) -> bool {
    &&& m.contains_key(key_spec(rc.room@, rc.server_ts, rc.seq))
    &&& m[key_spec(rc.room@, rc.server_ts, rc.seq)] == enc_rec(rc)
}

/// Some element of `vs` has stored text `v`.
pub open spec fn seq_has_rec(vs: Seq<MessageRecord>, v: Seq<char>) -> bool {
    exists|i: int| 0 <= i < vs.len() && enc_rec(#[trigger] vs[i]) == v
}

/// Some entry among the first `j` of `ls` has the composite key of
/// `rc`.
pub open spec fn key_processed(ls: Seq<(String, String)>, j: int, rc: MessageRecord) -> bool {
    exists|q: int| 0 <= q < j && #[trigger] ls[q].0@ == key_spec(rc.room@, rc.server_ts, rc.seq)
}

/// One retention pass with cutoff `cutoff`: exactly the messages with
/// `server_ts >= cutoff` survive, unchanged.
pub open spec fn swept(
    pre: Map<Seq<char>, Seq<char>>,
    post: Map<Seq<char>, Seq<char>>,
    cutoff: i64,
) -> bool {
    &&& forall|k: Seq<char>| #[trigger]
        post.contains_key(k) ==> pre.contains_key(k) && post[k] == pre[k]
    &&& forall|k: Seq<char>| #[trigger]
        pre.contains_key(k) ==> (post.contains_key(k) <==> rec_of(pre[k]).server_ts >= cutoff)
}

/// The cutoff of a retention pass taken at clock reading `now`
/// (milliseconds): `keep_days` days earlier, clamped at the type's
/// lower bound.
pub open spec fn sweep_cutoff(now: i64, keep_days: u64) -> i64 {
    let c = now - keep_days * 86400000;
    if c < i64::MIN {
        i64::MIN
    } else {
        c as i64
    }
}

/// A sweep with a cutoff above every stored timestamp empties the
/// message table.
pub proof fn lemma_sweep_all(
    pre: Map<Seq<char>, Seq<char>>,
    post: Map<Seq<char>, Seq<char>>,
    cutoff: i64,
)
    requires
        swept(pre, post, cutoff),
        forall|k: Seq<char>| #[trigger] pre.contains_key(k) ==> rec_of(pre[k]).server_ts < cutoff,
    ensures
        post == Map::<Seq<char>, Seq<char>>::empty(),
{
    assert(post =~= Map::<Seq<char>, Seq<char>>::empty());
}

/// A second sweep with the same cutoff deletes nothing new.
pub proof fn lemma_sweep_idempotent(
    pre: Map<Seq<char>, Seq<char>>,
    mid: Map<Seq<char>, Seq<char>>,
    post: Map<Seq<char>, Seq<char>>,
    cutoff: i64,
)
    requires
        swept(pre, mid, cutoff),
        swept(mid, post, cutoff),
    ensures
        post == mid,
{
    assert(post =~= mid);
}

/// Under well-formedness, a record decoded from a stored value is the
/// record of that value: the entry's key is its composite key, and it
/// agrees with `rec_of` field for field.
proof fn lemma_entry_decoded(m: Map<Seq<char>, Seq<char>>, k: Seq<char>, rc: MessageRecord)
    requires
        m.contains_key(k),
        Storage::valid_entry(k, m[k]),
        valid_rec(rc),
        enc_rec(rc) == m[k],
    ensures
        k == key_spec(rc.room@, rc.server_ts, rc.seq),
        rec_eqv(rc, rec_of(m[k])),
{
    let rc2 = choose|r2: MessageRecord|
        valid_rec(r2) && enc_rec(r2) == m[k] && k == key_spec(r2.room@, r2.server_ts, r2.seq);
    lemma_enc_injective(rc, rc2);
    let rc3 = rec_of(m[k]);
    assert(valid_rec(rc3) && enc_rec(rc3) == m[k]) by {
        assert(valid_rec(rc) && enc_rec(rc) == m[k]);
    }
    lemma_enc_injective(rc, rc3);
}


/// Round trip through the store: a record written under its composite
/// key is read back, from its own entry, as an equal record, field for
/// field.
pub proof fn lemma_append_round_trip(
    pre: Map<Seq<char>, Seq<char>>,
    post: Map<Seq<char>, Seq<char>>,
    rec: MessageRecord,
)
    requires
        valid_rec(rec),
        post == pre.insert(key_spec(rec.room@, rec.server_ts, rec.seq), enc_rec(rec)),
    ensures
        post.contains_key(key_spec(rec.room@, rec.server_ts, rec.seq)),
        rec_eqv(rec_of(post[key_spec(rec.room@, rec.server_ts, rec.seq)]), rec),
{
    let k = key_spec(rec.room@, rec.server_ts, rec.seq);
    assert(post[k] == enc_rec(rec));
    let rc = rec_of(enc_rec(rec));
    assert(valid_rec(rc) && enc_rec(rc) == enc_rec(rec)) by {
        assert(valid_rec(rec) && enc_rec(rec) == enc_rec(rec));
    }
    lemma_enc_injective(rc, rec);
}

/// Inserting the record of the next matching entry at its sorted
/// position keeps every invariant of the scan's collection pass.
proof fn lemma_scan_insert(
    pre: Seq<MessageRecord>,
    out: Seq<MessageRecord>,
    rec: MessageRecord,
    p: int,
    room: Seq<char>,
    after_ts: Option<i64>,
    m: Map<Seq<char>, Seq<char>>,
    list: Seq<(String, String)>,
    j: int,
)
    requires
        out == pre.insert(p, rec),
        0 <= p <= pre.len(),
        forall|q: int| 0 <= q < p ==> rec_lt(#[trigger] pre[q], rec),
        p < pre.len() ==> rec_lt(rec, pre[p]),
        sorted_recs(pre),
        forall|i: int|
            0 <= i < pre.len() ==> valid_rec(#[trigger] pre[i]) && rec_matches(
                pre[i],
                room,
                after_ts,
            ) && stored_in(m, pre[i]),
        valid_rec(rec),
        rec_matches(rec, room, after_ts),
        stored_in(m, rec),
        forall|i: int| 0 <= i < pre.len() ==> key_processed(list, j, #[trigger] pre[i]),
        0 <= j < list.len(),
        list[j].0@ == key_spec(rec.room@, rec.server_ts, rec.seq),
        forall|q: int|
            0 <= q < j && rec_matches(rec_of(#[trigger] list[q].1@), room, after_ts)
                ==> seq_has_rec(pre, list[q].1@),
        enc_rec(rec) == list[j].1@,
    ensures
        forall|i: int|
            0 <= i < out.len() ==> valid_rec(#[trigger] out[i]) && rec_matches(
                out[i],
                room,
                after_ts,
            ) && stored_in(m, out[i]),
        sorted_recs(out),
        forall|i: int| 0 <= i < out.len() ==> key_processed(list, j + 1, #[trigger] out[i]),
        forall|q: int|
            0 <= q < j + 1 && rec_matches(rec_of(#[trigger] list[q].1@), room, after_ts)
                ==> seq_has_rec(out, list[q].1@),
{
    assert forall|i: int| 0 <= i < out.len() implies valid_rec(#[trigger] out[i]) && rec_matches(
        out[i],
        room,
        after_ts,
    ) && stored_in(m, out[i]) by {
        if i < p {
            assert(out[i] == pre[i]);
        } else if i == p {
            assert(out[i] == rec);
        } else {
            assert(out[i] == pre[i - 1]);
        }
    }
    assert forall|a: int, b: int| 0 <= a < b < out.len() implies rec_lt(
        #[trigger] out[a],
        #[trigger] out[b],
    ) by {
        if a < p && b < p {
            assert(out[a] == pre[a] && out[b] == pre[b]);
        } else if a < p && b == p {
            assert(out[a] == pre[a]);
            assert(rec_lt(pre[a], rec));
        } else if a < p && b > p {
            assert(out[a] == pre[a] && out[b] == pre[b - 1]);
            if a == b - 1 {
                assert(rec_lt(pre[a], rec));
                assert(rec_lt(rec, pre[p]));
            }
        } else if a == p && b > p {
            assert(out[a] == rec && out[b] == pre[b - 1]);
            assert(rec_lt(rec, pre[p]));
        } else {
            assert(out[a] == pre[a - 1] && out[b] == pre[b - 1]);
        }
    }
    assert forall|i: int| 0 <= i < out.len() implies key_processed(
        list,
        j + 1,
        #[trigger] out[i],
    ) by {
        if i == p {
            assert(list[j].0@ == key_spec(rec.room@, rec.server_ts, rec.seq));
        } else {
            let el = if i < p {
                pre[i]
            } else {
                pre[i - 1]
            };
            assert(key_processed(list, j, el));
            let q = choose|q: int|
                0 <= q < j && #[trigger] list[q].0@ == key_spec(el.room@, el.server_ts, el.seq);
            assert(out[i] == el);
        }
    }
    assert forall|q: int|
        0 <= q < j + 1 && rec_matches(
            rec_of(#[trigger] list[q].1@),
            room,
            after_ts,
        ) implies seq_has_rec(out, list[q].1@) by {
        if q == j {
            assert(enc_rec(out[p]) == list[j].1@);
        } else {
            let i = choose|i: int| 0 <= i < pre.len() && enc_rec(#[trigger] pre[i]) == list[q].1@;
            if i < p {
                assert(enc_rec(out[i]) == list[q].1@);
            } else {
                assert(enc_rec(out[i + 1]) == list[q].1@);
            }
        }
    }
}

/// The five table names are non-empty (redb refuses an empty name),
/// and the two text-valued and the two `u64`-valued names are
/// distinct, so writes to one never reach the other.
pub proof fn lemma_table_names()
    ensures
        "messages"@.len() > 0,
        "seqs"@.len() > 0,
        "users"@.len() > 0,
        "presence"@.len() > 0,
        "rate"@.len() > 0,
        "messages"@ != "users"@,
        "seqs"@ != "rate"@,
{
    reveal_strlit("messages");
    reveal_strlit("users");
    reveal_strlit("seqs");
    reveal_strlit("presence");
    reveal_strlit("rate");
    assert("messages"@.len() == 8);
    assert("users"@.len() == 5);
    assert("seqs"@[0] == 's');
    assert("rate"@[0] == 'r');
}

impl Storage {
    /// Relies on redb `Database::create`: opens the database file at
    /// `path`, creating it when missing.
    #[verifier::external_body]
    fn db_open(path: &str) -> (r: Result<Storage, StoreError>)
        ensures
            r matches Err(e) ==> e == StoreError::Storage,
    {
        match redb::Database::create(path) {
            Ok(db) => Ok(Storage { db }),
            Err(_) => Err(StoreError::Storage),
        }
    }

    /// Relies on redb `Builder::create_with_backend` with the
    /// `InMemoryBackend`: a database holding nothing, gone when
    /// dropped. A fresh backend has no tables at all, so every table
    /// of every type starts empty.
    #[verifier::external_body]
    fn db_open_in_memory() -> (r: Result<Storage, StoreError>)
        ensures
            match r {
                Ok(s) => (forall|n: Seq<char>| #[trigger] str_table(s.db, n) == Map::<
                    Seq<char>,
                    Seq<char>,
                >::empty()) && (forall|n: Seq<char>| #[trigger] u64_table(s.db, n) == Map::<
                    Seq<char>,
                    u64,
                >::empty()) && (forall|n: Seq<char>| #[trigger] i64_table(s.db, n) == Map::<
                    Seq<char>,
                    i64,
                >::empty()),
                Err(e) => e == StoreError::Storage,
            },
    {
        match redb::Database::builder().create_with_backend(redb::backends::InMemoryBackend::new())
        {
            Ok(db) => Ok(Storage { db }),
            Err(_) => Err(StoreError::Storage),
        }
    }

    /// Relies on redb `ReadTransaction::open_table` and `Table::get`:
    /// returns the value stored under `key`, and `None` both for a
    /// missing key and for a table never written.
    #[verifier::external_body]
    fn tbl_str_get(&self, table: &str, key: &str) -> (r: Result<Option<String>, StoreError>)
        requires
            table@.len() > 0,
        ensures
            match r {
                Ok(o) => match o {
                    Some(val) => str_table(self.db, table@).contains_key(key@) && str_table(
                        self.db,
                        table@,
                    )[key@] == val@,
                    None => !str_table(self.db, table@).contains_key(key@),
                },
                Err(e) => e == StoreError::Storage,
            },
    {
        let txn = self.db.begin_read().map_err(|_| StoreError::Storage)?;
        let tbl = match txn.open_table(redb::TableDefinition::<&str, &str>::new(table)) {
            Ok(t) => t,
            Err(redb::TableError::TableDoesNotExist(_)) => return Ok(None),
            Err(_) => return Err(StoreError::Storage),
        };
        match tbl.get(key) {
            Ok(Some(g)) => Ok(Some(g.value().to_string())),
            Ok(None) => Ok(None),
            Err(_) => Err(StoreError::Storage),
        }
    }

    /// Relies on redb `WriteTransaction`: a committed `insert` stores
    /// the value under the key; an aborted transaction changes nothing.
    #[verifier::external_body]
    fn tbl_str_put(&mut self, table: &str, key: &str, val: &str) -> (r: Result<(), StoreError>)
        requires
            table@.len() > 0,
        ensures
            r matches Err(e) ==> e == StoreError::Storage,
            r is Ok ==> str_table(final(self).db, table@) == str_table(
                old(self).db,
                table@,
            ).insert(key@, val@),
            r is Err ==> str_table(final(self).db, table@) == str_table(old(self).db, table@),
            forall|n: Seq<char>|
                n != table@ ==> #[trigger] str_table(final(self).db, n) == str_table(
                    old(self).db,
                    n,
                ),
            forall|n: Seq<char>| #[trigger]
                u64_table(final(self).db, n) == u64_table(old(self).db, n),
            forall|n: Seq<char>| #[trigger]
                i64_table(final(self).db, n) == i64_table(old(self).db, n),
    {
        let txn = self.db.begin_write().map_err(|_| StoreError::Storage)?;
        {
            let mut tbl = txn.open_table(redb::TableDefinition::<&str, &str>::new(table)).map_err(
                |_| StoreError::Storage,
            )?;
            tbl.insert(key, val).map_err(|_| StoreError::Storage)?;
        }
        txn.commit().map_err(|_| StoreError::Storage)
    }

    /// Relies on redb `WriteTransaction`: a committed `remove` deletes
    /// the key; removing an absent key is a no-op; an aborted
    /// transaction changes nothing.
    #[verifier::external_body]
    fn tbl_str_remove(&mut self, table: &str, key: &str) -> (r: Result<(), StoreError>)
        requires
            table@.len() > 0,
        ensures
            r matches Err(e) ==> e == StoreError::Storage,
            r is Ok ==> str_table(final(self).db, table@) == str_table(
                old(self).db,
                table@,
            ).remove(key@),
            r is Err ==> str_table(final(self).db, table@) == str_table(old(self).db, table@),
            forall|n: Seq<char>|
                n != table@ ==> #[trigger] str_table(final(self).db, n) == str_table(
                    old(self).db,
                    n,
                ),
            forall|n: Seq<char>| #[trigger]
                u64_table(final(self).db, n) == u64_table(old(self).db, n),
            forall|n: Seq<char>| #[trigger]
                i64_table(final(self).db, n) == i64_table(old(self).db, n),
    {
        let txn = self.db.begin_write().map_err(|_| StoreError::Storage)?;
        {
            let mut tbl = txn.open_table(redb::TableDefinition::<&str, &str>::new(table)).map_err(
                |_| StoreError::Storage,
            )?;
            tbl.remove(key).map_err(|_| StoreError::Storage)?;
        }
        txn.commit().map_err(|_| StoreError::Storage)
    }

    /// Relies on redb `Table::iter`: yields every entry of the table
    /// exactly once; an unwritten table is empty.
    #[verifier::external_body]
    fn tbl_str_list(&self, table: &str) -> (r: Result<Vec<(String, String)>, StoreError>)
        requires
            table@.len() > 0,
        ensures
            match r {
                Ok(v) => {
                    &&& forall|i: int|
                        0 <= i < v@.len() ==> str_table(self.db, table@).contains_key(
                            #[trigger] v@[i].0@,
                        ) && str_table(self.db, table@)[v@[i].0@] == v@[i].1@
                    &&& forall|k: Seq<char>|
                        str_table(self.db, table@).contains_key(k) ==> exists|i: int|
                            0 <= i < v@.len() && #[trigger] v@[i].0@ == k
                    &&& forall|i: int, j: int|
                        0 <= i < v@.len() && 0 <= j < v@.len() && i != j ==> v@[i].0@ != v@[j].0@
                },
                Err(e) => e == StoreError::Storage,
            },
    {
        let txn = self.db.begin_read().map_err(|_| StoreError::Storage)?;
        let tbl = match txn.open_table(redb::TableDefinition::<&str, &str>::new(table)) {
            Ok(t) => t,
            Err(redb::TableError::TableDoesNotExist(_)) => return Ok(Vec::new()),
            Err(_) => return Err(StoreError::Storage),
        };
        let iter = tbl.iter().map_err(|_| StoreError::Storage)?;
        let mut out: Vec<(String, String)> = Vec::new();
        for item in iter {
            let (k, v) = item.map_err(|_| StoreError::Storage)?;
            out.push((k.value().to_string(), v.value().to_string()));
        }
        Ok(out)
    }

    /// Relies on redb `ReadTransaction::open_table` and `Table::get`
    /// on a `u64`-valued table.
    #[verifier::external_body]
    fn tbl_u64_get(&self, table: &str, key: &str) -> (r: Result<Option<u64>, StoreError>)
        requires
            table@.len() > 0,
        ensures
            match r {
                Ok(o) => match o {
                    Some(val) => u64_table(self.db, table@).contains_key(key@) && u64_table(
                        self.db,
                        table@,
                    )[key@] == val,
                    None => !u64_table(self.db, table@).contains_key(key@),
                },
                Err(e) => e == StoreError::Storage,
            },
    {
        let txn = self.db.begin_read().map_err(|_| StoreError::Storage)?;
        let tbl = match txn.open_table(redb::TableDefinition::<&str, u64>::new(table)) {
            Ok(t) => t,
            Err(redb::TableError::TableDoesNotExist(_)) => return Ok(None),
            Err(_) => return Err(StoreError::Storage),
        };
        match tbl.get(key) {
            Ok(Some(g)) => Ok(Some(g.value())),
            Ok(None) => Ok(None),
            Err(_) => Err(StoreError::Storage),
        }
    }

    /// Relies on redb `WriteTransaction` on a `u64`-valued table, as
    /// the text-valued `insert` above.
    #[verifier::external_body]
    fn tbl_u64_put(&mut self, table: &str, key: &str, val: u64) -> (r: Result<(), StoreError>)
        requires
            table@.len() > 0,
        ensures
            r matches Err(e) ==> e == StoreError::Storage,
            r is Ok ==> u64_table(final(self).db, table@) == u64_table(
                old(self).db,
                table@,
            ).insert(key@, val),
            r is Err ==> u64_table(final(self).db, table@) == u64_table(old(self).db, table@),
            forall|n: Seq<char>|
                n != table@ ==> #[trigger] u64_table(final(self).db, n) == u64_table(
                    old(self).db,
                    n,
                ),
            forall|n: Seq<char>| #[trigger]
                str_table(final(self).db, n) == str_table(old(self).db, n),
            forall|n: Seq<char>| #[trigger]
                i64_table(final(self).db, n) == i64_table(old(self).db, n),
    {
        let txn = self.db.begin_write().map_err(|_| StoreError::Storage)?;
        {
            let mut tbl = txn.open_table(redb::TableDefinition::<&str, u64>::new(table)).map_err(
                |_| StoreError::Storage,
            )?;
            tbl.insert(key, val).map_err(|_| StoreError::Storage)?;
        }
        txn.commit().map_err(|_| StoreError::Storage)
    }

    /// Relies on redb `Table::iter` on a `u64`-valued table, as the
    /// text-valued listing above.
    #[verifier::external_body]
    fn tbl_u64_list(&self, table: &str) -> (r: Result<Vec<(String, u64)>, StoreError>)
        requires
            table@.len() > 0,
        ensures
            match r {
                Ok(v) => {
                    &&& forall|i: int|
                        0 <= i < v@.len() ==> u64_table(self.db, table@).contains_key(
                            #[trigger] v@[i].0@,
                        ) && u64_table(self.db, table@)[v@[i].0@] == v@[i].1
                    &&& forall|k: Seq<char>|
                        u64_table(self.db, table@).contains_key(k) ==> exists|i: int|
                            0 <= i < v@.len() && #[trigger] v@[i].0@ == k
                    &&& forall|i: int, j: int|
                        0 <= i < v@.len() && 0 <= j < v@.len() && i != j ==> v@[i].0@ != v@[j].0@
                },
                Err(e) => e == StoreError::Storage,
            },
    {
        let txn = self.db.begin_read().map_err(|_| StoreError::Storage)?;
        let tbl = match txn.open_table(redb::TableDefinition::<&str, u64>::new(table)) {
            Ok(t) => t,
            Err(redb::TableError::TableDoesNotExist(_)) => return Ok(Vec::new()),
            Err(_) => return Err(StoreError::Storage),
        };
        let iter = tbl.iter().map_err(|_| StoreError::Storage)?;
        let mut out: Vec<(String, u64)> = Vec::new();
        for item in iter {
            let (k, v) = item.map_err(|_| StoreError::Storage)?;
            out.push((k.value().to_string(), v.value()));
        }
        Ok(out)
    }

    /// Relies on redb `ReadTransaction::open_table` and `Table::get`
    /// on an `i64`-valued table.
    #[verifier::external_body]
    fn tbl_i64_get(&self, table: &str, key: &str) -> (r: Result<Option<i64>, StoreError>)
        requires
            table@.len() > 0,
        ensures
            match r {
                Ok(o) => match o {
                    Some(val) => i64_table(self.db, table@).contains_key(key@) && i64_table(
                        self.db,
                        table@,
                    )[key@] == val,
                    None => !i64_table(self.db, table@).contains_key(key@),
                },
                Err(e) => e == StoreError::Storage,
            },
    {
        let txn = self.db.begin_read().map_err(|_| StoreError::Storage)?;
        let tbl = match txn.open_table(redb::TableDefinition::<&str, i64>::new(table)) {
            Ok(t) => t,
            Err(redb::TableError::TableDoesNotExist(_)) => return Ok(None),
            Err(_) => return Err(StoreError::Storage),
        };
        match tbl.get(key) {
            Ok(Some(g)) => Ok(Some(g.value())),
            Ok(None) => Ok(None),
            Err(_) => Err(StoreError::Storage),
        }
    }

    /// Relies on redb `WriteTransaction` on an `i64`-valued table, as
    /// the text-valued `insert` above.
    #[verifier::external_body]
    fn tbl_i64_put(&mut self, table: &str, key: &str, val: i64) -> (r: Result<(), StoreError>)
        requires
            table@.len() > 0,
        ensures
            r matches Err(e) ==> e == StoreError::Storage,
            r is Ok ==> i64_table(final(self).db, table@) == i64_table(
                old(self).db,
                table@,
            ).insert(key@, val),
            r is Err ==> i64_table(final(self).db, table@) == i64_table(old(self).db, table@),
            forall|n: Seq<char>|
                n != table@ ==> #[trigger] i64_table(final(self).db, n) == i64_table(
                    old(self).db,
                    n,
                ),
            forall|n: Seq<char>| #[trigger]
                str_table(final(self).db, n) == str_table(old(self).db, n),
            forall|n: Seq<char>| #[trigger]
                u64_table(final(self).db, n) == u64_table(old(self).db, n),
    {
        let txn = self.db.begin_write().map_err(|_| StoreError::Storage)?;
        {
            let mut tbl = txn.open_table(redb::TableDefinition::<&str, i64>::new(table)).map_err(
                |_| StoreError::Storage,
            )?;
            tbl.insert(key, val).map_err(|_| StoreError::Storage)?;
        }
        txn.commit().map_err(|_| StoreError::Storage)
    }

    /// Relies on redb `WriteTransaction::open_table` and
    /// `Table::remove` on an `i64`-valued table, as the text-valued
    /// `remove` above.
    #[verifier::external_body]
    fn tbl_i64_remove(&mut self, table: &str, key: &str) -> (r: Result<(), StoreError>)
        requires
            table@.len() > 0,
        ensures
            r matches Err(e) ==> e == StoreError::Storage,
            r is Ok ==> i64_table(final(self).db, table@) == i64_table(
                old(self).db,
                table@,
            ).remove(key@),
            r is Err ==> i64_table(final(self).db, table@) == i64_table(old(self).db, table@),
            forall|n: Seq<char>|
                n != table@ ==> #[trigger] i64_table(final(self).db, n) == i64_table(
                    old(self).db,
                    n,
                ),
            forall|n: Seq<char>| #[trigger]
                str_table(final(self).db, n) == str_table(old(self).db, n),
            forall|n: Seq<char>| #[trigger]
                u64_table(final(self).db, n) == u64_table(old(self).db, n),
    {
        let txn = self.db.begin_write().map_err(|_| StoreError::Storage)?;
        {
            let mut tbl = txn.open_table(redb::TableDefinition::<&str, i64>::new(table)).map_err(
                |_| StoreError::Storage,
            )?;
            tbl.remove(key).map_err(|_| StoreError::Storage)?;
        }
        txn.commit().map_err(|_| StoreError::Storage)
    }

    /// Relies on redb `Table::iter` on an `i64`-valued table, as the
    /// text-valued listing above.
    #[verifier::external_body]
    fn tbl_i64_list(&self, table: &str) -> (r: Result<Vec<(String, i64)>, StoreError>)
        requires
            table@.len() > 0,
        ensures
            match r {
                Ok(v) => {
                    &&& forall|i: int|
                        0 <= i < v@.len() ==> i64_table(self.db, table@).contains_key(
                            #[trigger] v@[i].0@,
                        ) && i64_table(self.db, table@)[v@[i].0@] == v@[i].1
                    &&& forall|k: Seq<char>|
                        i64_table(self.db, table@).contains_key(k) ==> exists|i: int|
                            0 <= i < v@.len() && #[trigger] v@[i].0@ == k
                    &&& forall|i: int, j: int|
                        0 <= i < v@.len() && 0 <= j < v@.len() && i != j ==> v@[i].0@ != v@[j].0@
                },
                Err(e) => e == StoreError::Storage,
            },
    {
        let txn = self.db.begin_read().map_err(|_| StoreError::Storage)?;
        let tbl = match txn.open_table(redb::TableDefinition::<&str, i64>::new(table)) {
            Ok(t) => t,
            Err(redb::TableError::TableDoesNotExist(_)) => return Ok(Vec::new()),
            Err(_) => return Err(StoreError::Storage),
        };
        let iter = tbl.iter().map_err(|_| StoreError::Storage)?;
        let mut out: Vec<(String, i64)> = Vec::new();
        for item in iter {
            let (k, v) = item.map_err(|_| StoreError::Storage)?;
            out.push((k.value().to_string(), v.value()));
        }
        Ok(out)
    }
}

impl Storage {
    /// Open (or create) the store at `path` (the database file itself)
    /// and delete any malformed message entry, so that every remaining
    /// entry is well formed.
    pub fn new(path: &str) -> (r: Result<Storage, StoreError>)
        ensures
            match r {
                Ok(s) => s.wf(),
                Err(e) => e == StoreError::Storage,
            },
    {
        let mut st = match Self::db_open(path) {
            Ok(s) => s,
            Err(e) => return Err(e),
        };
        match st.recover() {
            Ok(()) => Ok(st),
            Err(e) => Err(e),
        }
    }

    /// A store kept only in memory (for tests and tooling): same
    /// behaviour, nothing durable, and known to start with every
    /// table empty.
    pub fn new_in_memory() -> (r: Result<Storage, StoreError>)
        ensures
            match r {
                Ok(s) => s.wf() && s.msgs() == Map::<Seq<char>, Seq<char>>::empty() && s.seqs()
                    == Map::<Seq<char>, u64>::empty() && s.users() == Map::<
                    Seq<char>,
                    Seq<char>,
                >::empty() && s.presence() == Map::<Seq<char>, i64>::empty() && s.rates()
                    == Map::<Seq<char>, u64>::empty(),
                Err(e) => e == StoreError::Storage,
            },
    {
        let mut st = match Self::db_open_in_memory() {
            Ok(s) => s,
            Err(e) => return Err(e),
        };
        match st.recover() {
            Ok(()) => {
                proof {
                    assert(st.msgs() =~= Map::<Seq<char>, Seq<char>>::empty());
                }
                Ok(st)
            },
            Err(e) => Err(e),
        }
    }

    /// Fail-safe cleanup: remove every message entry whose value does
    /// not parse as a record, or whose key is not that record's
    /// composite key. Well-formed entries stay untouched.
    fn recover(&mut self) -> (r: Result<(), StoreError>)
        ensures
            r is Ok ==> final(self).wf(),
            r matches Err(e) ==> e == StoreError::Storage,
            forall|k: Seq<char>| #[trigger]
                final(self).msgs().contains_key(k) ==> old(self).msgs().contains_key(k)
                    && final(self).msgs()[k] == old(self).msgs()[k],
            final(self).seqs() == old(self).seqs(),
            final(self).users() == old(self).users(),
            final(self).presence() == old(self).presence(),
            final(self).rates() == old(self).rates(),
    {
        proof {
            lemma_table_names();
        }
        let list = match self.tbl_str_list("messages") {
            Ok(l) => l,
            Err(e) => return Err(e),
        };
        let n: usize = list.len();
        let mut i: usize = 0;
        while i < n
            invariant
                i <= n,
                n == list@.len(),
                forall|j: int|
                    0 <= j < n ==> old(self).msgs().contains_key(#[trigger] list@[j].0@) && old(
                        self,
                    ).msgs()[list@[j].0@] == list@[j].1@,
                forall|k: Seq<char>|
                    old(self).msgs().contains_key(k) ==> exists|j: int|
                        0 <= j < n && #[trigger] list@[j].0@ == k,
                forall|j1: int, j2: int|
                    0 <= j1 < n && 0 <= j2 < n && j1 != j2 ==> list@[j1].0@ != list@[j2].0@,
                forall|k: Seq<char>| #[trigger]
                    self.msgs().contains_key(k) ==> old(self).msgs().contains_key(k)
                        && self.msgs()[k] == old(self).msgs()[k],
                forall|j: int|
                    0 <= j < i && self.msgs().contains_key(#[trigger] list@[j].0@)
                        ==> Storage::valid_entry(list@[j].0@, self.msgs()[list@[j].0@]),
                self.seqs() == old(self).seqs(),
                self.users() == old(self).users(),
                self.presence() == old(self).presence(),
                self.rates() == old(self).rates(),
            decreases n - i,
        {
            let vi = vec_chars(list[i].1.as_str());
            let keep: bool = match decode_record(&vi) {
                None => false,
                Some(rec) => {
                    let rv = vec_chars(rec.room.as_str());
                    let kk = make_key(&rv, rec.server_ts, rec.seq);
                    let kv = vec_chars(list[i].0.as_str());
                    vec_char_eq(&kk, &kv)
                },
            };
            let ghost prev = *self;
            if !keep {
                proof {
                    lemma_table_names();
                }
                let rr = self.tbl_str_remove("messages", list[i].0.as_str());
                proof {
                    lemma_table_names();
                    assert forall|k: Seq<char>| #[trigger]
                        self.msgs().contains_key(k) implies old(self).msgs().contains_key(k)
                        && self.msgs()[k] == old(self).msgs()[k] by {
                        assert(prev.msgs().contains_key(k));
                    }
                }
                match rr {
                    Ok(()) => (),
                    Err(e) => return Err(e),
                }
            }
            i = i + 1;
        }
        proof {
            assert forall|k: Seq<char>| #[trigger]
                self.msgs().contains_key(k) implies Storage::valid_entry(k, self.msgs()[k]) by {
                let j = choose|j: int| 0 <= j < n && list@[j].0@ == k;
            }
        }
        Ok(())
    }

    /// Write `rec` under its composite key. Not idempotent: a second
    /// append of the same record overwrites the same key.
    pub fn append_message(&mut self, rec: &MessageRecord) -> (r: Result<(), StoreError>)
        requires
            old(self).wf(),
            0 <= rec.server_ts,
        ensures
            final(self).wf(),
            valid_rec(*rec),
            r is Ok ==> final(self).msgs() == old(self).msgs().insert(
                key_spec(rec.room@, rec.server_ts, rec.seq),
                enc_rec(*rec),
            ),
            r is Err ==> final(self).msgs() == old(self).msgs(),
            final(self).seqs() == old(self).seqs(),
            final(self).users() == old(self).users(),
            final(self).presence() == old(self).presence(),
            final(self).rates() == old(self).rates(),
    {
        proof {
            lemma_table_names();
        }
        let enc = encode_record(rec);
        let rv = vec_chars(rec.room.as_str());
        let key = make_key(&rv, rec.server_ts, rec.seq);
        let ks = string_of(&key);
        let vs = string_of(&enc);
        let r = self.tbl_str_put("messages", ks.as_str(), vs.as_str());
        proof {
            lemma_table_names();
            if r is Ok {
                assert forall|k: Seq<char>| #[trigger]
                    self.msgs().contains_key(k) implies Storage::valid_entry(
                    k,
                    self.msgs()[k],
                ) by {
                    if k == ks@ {
                        assert(valid_rec(*rec) && enc_rec(*rec) == self.msgs()[k] && k == key_spec(
                            rec.room@,
                            rec.server_ts,
                            rec.seq,
                        ));
                    } else {
                        assert(old(self).msgs().contains_key(k));
                    }
                }
            } else {
                assert(self.msgs() == old(self).msgs());
                assert forall|k: Seq<char>| #[trigger]
                    self.msgs().contains_key(k) implies Storage::valid_entry(
                    k,
                    self.msgs()[k],
                ) by {
                    assert(old(self).msgs().contains_key(k));
                }
            }
        }
        r
    }

    /// `a` comes before `b` in message order.
    fn rec_before(a: &MessageRecord, b: &MessageRecord) -> (r: bool)
        ensures
            r == rec_lt(*a, *b),
    {
        a.server_ts < b.server_ts || (a.server_ts == b.server_ts && a.seq < b.seq)
    }

    /// Read up to `limit` messages of `room` in ascending
    /// `(server_ts, seq)` order: with `after_ts` given, the earliest
    /// ones strictly after it; without, the most recent ones.
    #[verifier::rlimit(100)]
    pub fn scan_messages(&self, room: &str, after_ts: Option<i64>, limit: usize) -> (r: Result<
        Vec<MessageRecord>,
        StoreError,
    >)
        requires
            self.wf(),
        ensures
            r matches Ok(v) ==> forall|i: int|
                0 <= i < v@.len() ==> valid_rec(#[trigger] v@[i]) && rec_matches(
                    v@[i],
                    room@,
                    after_ts,
                ) && stored_in(self.msgs(), v@[i]),
            r matches Ok(v) ==> sorted_recs(v@),
            r matches Ok(v) ==> v@.len() <= limit,
            r matches Ok(v) ==> forall|k: Seq<char>| #[trigger]
                self.msgs().contains_key(k) && rec_matches(
                    rec_of(self.msgs()[k]),
                    room@,
                    after_ts,
                ) ==> seq_has_rec(v@, self.msgs()[k]) || (v@.len() == limit && (v@.len() == 0
                    || (match after_ts {
                    None => rec_lt(rec_of(self.msgs()[k]), v@[0]),
                    Some(_) => rec_lt(v@[v@.len() - 1], rec_of(self.msgs()[k])),
                }))),
            r matches Err(e) ==> e == StoreError::Storage,
    {
        proof {
            lemma_table_names();
        }
        let list = match self.tbl_str_list("messages") {
            Ok(l) => l,
            Err(e) => return Err(e),
        };
        let rv = vec_chars(room);
        let n: usize = list.len();
        let mut out: Vec<MessageRecord> = Vec::new();
        let mut j: usize = 0;
        while j < n
            invariant
                j <= n,
                n == list@.len(),
                rv@ == room@,
                self.wf(),
                forall|q: int|
                    0 <= q < n ==> self.msgs().contains_key(#[trigger] list@[q].0@) && self.msgs(
                    )[list@[q].0@] == list@[q].1@,
                forall|k: Seq<char>| #[trigger]
                    self.msgs().contains_key(k) ==> exists|q: int|
                        0 <= q < n && #[trigger] list@[q].0@ == k,
                forall|q1: int, q2: int|
                    0 <= q1 < n && 0 <= q2 < n && q1 != q2 ==> list@[q1].0@ != list@[q2].0@,
                forall|i: int|
                    0 <= i < out@.len() ==> valid_rec(#[trigger] out@[i]) && rec_matches(
                        out@[i],
                        room@,
                        after_ts,
                    ) && stored_in(self.msgs(), out@[i]),
                sorted_recs(out@),
                forall|i: int|
                    0 <= i < out@.len() ==> key_processed(list@, j as int, #[trigger] out@[i]),
                forall|q: int|
                    0 <= q < j && rec_matches(rec_of(#[trigger] list@[q].1@), room@, after_ts)
                        ==> seq_has_rec(out@, list@[q].1@),
            decreases n - j,
        {
            let vj = vec_chars(list[j].1.as_str());
            let dec = decode_record(&vj);
            if dec.is_none() {
                // a value that does not parse is skipped, never an
                // error; under the store invariant no such entry exists
                proof {
                    assert(self.msgs().contains_key(list@[j as int].0@));
                    assert(Storage::valid_entry(list@[j as int].0@, list@[j as int].1@));
                    let kj = list@[j as int].0@;
                    let rc2 = choose|rc2: MessageRecord|
                        valid_rec(rc2) && enc_rec(rc2) == list@[j as int].1@ && kj == key_spec(
                            rc2.room@,
                            rc2.server_ts,
                            rc2.seq,
                        );
                    assert(enc_rec(rc2) != vj@);
                    assert(false);
                }
                j = j + 1;
                continue;
            }
            let rec = dec.unwrap();
            proof {
                lemma_entry_decoded(self.msgs(), list@[j as int].0@, rec);
            }
            let rrv = vec_chars(rec.room.as_str());
            let okroom = vec_char_eq(&rrv, &rv);
            let okafter = match after_ts {
                Some(t) => rec.server_ts > t,
                None => true,
            };
            if okroom && okafter {
                proof {
                    assert forall|i: int| 0 <= i < out@.len() implies !(out@[i].server_ts
                        == rec.server_ts && out@[i].seq == rec.seq) by {
                        if out@[i].server_ts == rec.server_ts && out@[i].seq == rec.seq {
                            assert(out@[i].room@ == rec.room@);
                            let q = choose|q: int|
                                0 <= q < j && #[trigger] list@[q].0@ == key_spec(
                                    out@[i].room@,
                                    out@[i].server_ts,
                                    out@[i].seq,
                                );
                            assert(list@[q].0@ == list@[j as int].0@);
                            assert(false);
                        }
                    }
                }
                let mut p: usize = 0;
                while p < out.len() && Self::rec_before(&out[p], &rec)
                    invariant
                        p <= out@.len(),
                        forall|q: int| 0 <= q < p ==> rec_lt(#[trigger] out@[q], rec),
                    decreases out@.len() - p,
                {
                    p = p + 1;
                }
                proof {
                    if (p as int) < out@.len() {
                        assert(!rec_lt(out@[p as int], rec));
                        assert(rec_lt(rec, out@[p as int]));
                    }
                }
                let ghost pre = out@;
                out.insert(p, rec);
                proof {
                    lemma_scan_insert(
                        pre,
                        out@,
                        rec,
                        p as int,
                        room@,
                        after_ts,
                        self.msgs(),
                        list@,
                        j as int,
                    );
                }
            } else {
                proof {
                    let ghost ro = rec_of(list@[j as int].1@);
                    assert(rec_eqv(rec, ro));
                    if !okroom {
                        assert(ro.room@ != room@);
                    }
                    assert(!rec_matches(ro, room@, after_ts));
                    assert forall|i: int| 0 <= i < out@.len() implies key_processed(
                        list@,
                        j as int + 1,
                        #[trigger] out@[i],
                    ) by {
                        let q = choose|q: int|
                            0 <= q < j && #[trigger] list@[q].0@ == key_spec(
                                out@[i].room@,
                                out@[i].server_ts,
                                out@[i].seq,
                            );
                        assert(0 <= q < j + 1 && list@[q].0@ == key_spec(
                            out@[i].room@,
                            out@[i].server_ts,
                            out@[i].seq,
                        ));
                    }
                }
            }
            j = j + 1;
        }
        let ghost full = out@;
        match after_ts {
            Some(_) => {
                out.truncate(limit);
                proof {
                    if limit <= full.len() {
                        assert(out@ == full.subrange(0, limit as int));
                    }
                }
            },
            None => {
                proof {
                    assert(out@ =~= full.subrange(full.len() - out@.len(), full.len() as int));
                }
                while out.len() > limit
                    invariant
                        out@ == full.subrange(
                            full.len() - out@.len(),
                            full.len() as int,
                        ),
                        out@.len() >= limit || out@.len() == full.len(),
                        out@.len() <= full.len(),
                    decreases out@.len(),
                {
                    let ghost before = out@;
                    let _dropped = out.remove(0);
                    proof {
                        before.remove_ensures(0);
                        let le: int = full.len() as int;
                        let snew: int = le - out@.len();
                        assert(before == full.subrange(snew - 1, le));
                        assert forall|x: int| 0 <= x < out@.len() implies out@[x] == full.subrange(
                            snew,
                            le,
                        )[x] by {
                            assert(out@[x] == before.remove(0)[x]);
                            assert(before.remove(0)[x] == before[x + 1]);
                            assert(before[x + 1] == full.subrange(snew - 1, le)[x + 1]);
                            assert(full.subrange(snew - 1, le)[x + 1] == full[snew + x]);
                            assert(full.subrange(snew, le)[x] == full[snew + x]);
                        }
                        assert(out@ =~= full.subrange(snew, le));
                    }
                }
            },
        }
        proof {
            assert(full.subrange(0, full.len() as int) =~= full);
            let off: int = match after_ts {
                Some(_) => 0,
                None => full.len() - out@.len(),
            };
            assert(out@ =~= full.subrange(off, off + out@.len() as int));
            assert forall|i: int| 0 <= i < out@.len() implies valid_rec(#[trigger] out@[i])
                && rec_matches(out@[i], room@, after_ts) && stored_in(self.msgs(), out@[i]) by {
                assert(out@[i] == full[off + i]);
            }
            assert forall|a: int, b: int| 0 <= a < b < out@.len() implies rec_lt(
                #[trigger] out@[a],
                #[trigger] out@[b],
            ) by {
                assert(out@[a] == full[off + a] && out@[b] == full[off + b]);
            }
            assert forall|k: Seq<char>| #[trigger]
                self.msgs().contains_key(k) && rec_matches(
                    rec_of(self.msgs()[k]),
                    room@,
                    after_ts,
                ) implies seq_has_rec(out@, self.msgs()[k]) || (out@.len() == limit && (out@.len()
                == 0 || (match after_ts {
                None => rec_lt(rec_of(self.msgs()[k]), out@[0]),
                Some(_) => rec_lt(out@[out@.len() - 1], rec_of(self.msgs()[k])),
            }))) by {
                let q = choose|q: int| 0 <= q < n && #[trigger] list@[q].0@ == k;
                assert(list@[q].1@ == self.msgs()[k]);
                assert(seq_has_rec(full, list@[q].1@));
                let i = choose|i: int|
                    0 <= i < full.len() && enc_rec(#[trigger] full[i]) == list@[q].1@;
                lemma_entry_decoded(self.msgs(), k, full[i]);
                match after_ts {
                    None => {
                        if i >= off {
                            assert(enc_rec(out@[i - off]) == self.msgs()[k]);
                        } else {
                            assert(out@.len() == limit);
                            if out@.len() > 0 {
                                assert(rec_lt(full[i], full[off]));
                                assert(out@[0] == full[off]);
                            }
                        }
                    },
                    Some(_) => {
                        if i < out@.len() {
                            assert(enc_rec(out@[i]) == self.msgs()[k]);
                        } else {
                            assert(out@.len() == limit);
                            if out@.len() > 0 {
                                assert(rec_lt(full[out@.len() - 1], full[i]));
                                assert(out@[out@.len() - 1] == full[out@.len() - 1]);
                            }
                        }
                    },
                }
            }
        }
        Ok(out)
    }

    /// Delete every message whose `server_ts` lies strictly before
    /// `cutoff_ms` (and nothing else).
    pub fn retention_sweep_at(&mut self, cutoff_ms: i64) -> (r: Result<(), StoreError>)
        requires
            old(self).wf(),
        ensures
            final(self).wf(),
            r is Ok ==> swept(old(self).msgs(), final(self).msgs(), cutoff_ms),
            forall|k: Seq<char>| #[trigger]
                final(self).msgs().contains_key(k) ==> old(self).msgs().contains_key(k)
                    && final(self).msgs()[k] == old(self).msgs()[k],
            r matches Err(e) ==> e == StoreError::Storage,
            final(self).seqs() == old(self).seqs(),
            final(self).users() == old(self).users(),
            final(self).presence() == old(self).presence(),
            final(self).rates() == old(self).rates(),
    {
        proof {
            lemma_table_names();
        }
        let list = match self.tbl_str_list("messages") {
            Ok(l) => l,
            Err(e) => return Err(e),
        };
        let n: usize = list.len();
        let mut i: usize = 0;
        while i < n
            invariant
                i <= n,
                n == list@.len(),
                old(self).wf(),
                forall|j: int|
                    0 <= j < n ==> old(self).msgs().contains_key(#[trigger] list@[j].0@) && old(
                        self,
                    ).msgs()[list@[j].0@] == list@[j].1@,
                forall|k: Seq<char>|
                    old(self).msgs().contains_key(k) ==> exists|j: int|
                        0 <= j < n && #[trigger] list@[j].0@ == k,
                forall|j1: int, j2: int|
                    0 <= j1 < n && 0 <= j2 < n && j1 != j2 ==> list@[j1].0@ != list@[j2].0@,
                forall|k: Seq<char>| #[trigger]
                    self.msgs().contains_key(k) ==> old(self).msgs().contains_key(k)
                        && self.msgs()[k] == old(self).msgs()[k],
                forall|j: int|
                    i <= j < n ==> self.msgs().contains_key(#[trigger] list@[j].0@),
                forall|j: int|
                    0 <= j < i ==> (self.msgs().contains_key(#[trigger] list@[j].0@) <==> rec_of(
                        list@[j].1@,
                    ).server_ts >= cutoff_ms),
                self.seqs() == old(self).seqs(),
                self.users() == old(self).users(),
                self.presence() == old(self).presence(),
                self.rates() == old(self).rates(),
            decreases n - i,
        {
            let vi = vec_chars(list[i].1.as_str());
            let dec = decode_record(&vi);
            let drop_entry: bool = match dec {
                Some(rec) => {
                    proof {
                        lemma_entry_decoded(old(self).msgs(), list@[i as int].0@, rec);
                    }
                    rec.server_ts < cutoff_ms
                },
                None => {
                    // a malformed entry is deleted as well (fail-safe
                    // cleanup); under the store invariant none exists
                    proof {
                        assert(old(self).msgs().contains_key(list@[i as int].0@));
                        assert(Storage::valid_entry(list@[i as int].0@, list@[i as int].1@));
                        let ki = list@[i as int].0@;
                        let rc2 = choose|rc2: MessageRecord|
                            valid_rec(rc2) && enc_rec(rc2) == list@[i as int].1@ && ki == key_spec(
                                rc2.room@,
                                rc2.server_ts,
                                rc2.seq,
                            );
                        assert(enc_rec(rc2) != vi@);
                        assert(false);
                    }
                    true
                },
            };
            if drop_entry {
                let ghost prev = *self;
                proof {
                    lemma_table_names();
                }
                let rr = self.tbl_str_remove("messages", list[i].0.as_str());
                proof {
                    lemma_table_names();
                    assert forall|k: Seq<char>| #[trigger]
                        self.msgs().contains_key(k) implies old(self).msgs().contains_key(k)
                        && self.msgs()[k] == old(self).msgs()[k] by {
                        assert(prev.msgs().contains_key(k));
                    }
                }
                match rr {
                    Ok(()) => (),
                    Err(e) => return Err(e),
                }
            }
            i = i + 1;
        }
        proof {
            assert forall|k: Seq<char>| #[trigger]
                old(self).msgs().contains_key(k) implies (self.msgs().contains_key(k) <==> rec_of(
                old(self).msgs()[k],
            ).server_ts >= cutoff_ms) by {
                let j = choose|j: int| 0 <= j < n && list@[j].0@ == k;
            }
        }
        Ok(())
    }

    /// Delete every message older than `keep_days` days, by the wall
    /// clock; idempotent, since each pass keeps exactly the messages at
    /// or after its cutoff.
    pub fn retention_sweep(&mut self, keep_days: u64) -> (r: Result<(), StoreError>)
        requires
            old(self).wf(),
        ensures
            final(self).wf(),
            r is Ok ==> exists|t: i64|
                0 <= t && #[trigger] swept(
                    old(self).msgs(),
                    final(self).msgs(),
                    sweep_cutoff(t, keep_days),
                ),
            forall|k: Seq<char>| #[trigger]
                final(self).msgs().contains_key(k) ==> old(self).msgs().contains_key(k)
                    && final(self).msgs()[k] == old(self).msgs()[k],
            r matches Err(e) ==> e == StoreError::Storage,
            final(self).seqs() == old(self).seqs(),
            final(self).users() == old(self).users(),
            final(self).presence() == old(self).presence(),
            final(self).rates() == old(self).rates(),
    {
        let now: i64 = now_ms();
        let span: i128 = (keep_days as i128) * 86400000;
        let cut: i128 = (now as i128) - span;
        let cutoff: i64 = if cut < (i64::MIN as i128) {
            i64::MIN
        } else {
            cut as i64
        };
        let r = self.retention_sweep_at(cutoff);
        proof {
            if r is Ok {
                assert(cutoff == sweep_cutoff(now, keep_days));
                assert(swept(old(self).msgs(), self.msgs(), sweep_cutoff(now, keep_days)));
            }
        }
        r
    }

    /// Increment and return the sequence counter of `room`; the first
    /// call for an unseen room returns 1. An exhausted counter is
    /// refused rather than reused.
    pub fn next_seq_for_room(&mut self, room: &str) -> (r: Result<u64, StoreError>)
        ensures
            match r {
                Ok(n) => n == old(self).room_seq(room@) + 1 && final(self).seqs() == old(
                    self,
                ).seqs().insert(room@, n),
                Err(_) => final(self).seqs() == old(self).seqs(),
            },
            r == Err::<u64, StoreError>(StoreError::SeqExhausted) ==> old(self).room_seq(room@)
                == u64::MAX,
            final(self).msgs() == old(self).msgs(),
            final(self).users() == old(self).users(),
            final(self).presence() == old(self).presence(),
            final(self).rates() == old(self).rates(),
    {
        proof {
            lemma_table_names();
        }
        let cur_opt = match self.tbl_u64_get("seqs", room) {
            Ok(c) => c,
            Err(e) => return Err(e),
        };
        let cur: u64 = match cur_opt {
            Some(c) => c,
            None => 0,
        };
        if cur == u64::MAX {
            return Err(StoreError::SeqExhausted);
        }
        let next: u64 = cur + 1;
        proof {
            lemma_table_names();
        }
        match self.tbl_u64_put("seqs", room, next) {
            Ok(()) => Ok(next),
            Err(e) => Err(e),
        }
    }

    /// Set the sequence counter of `room` outright (repairs,
    /// migrations).
    pub fn set_seq_for_room(&mut self, room: &str, seq: u64) -> (r: Result<(), StoreError>)
        ensures
            r is Ok ==> final(self).seqs() == old(self).seqs().insert(room@, seq),
            r is Err ==> final(self).seqs() == old(self).seqs(),
            final(self).msgs() == old(self).msgs(),
            final(self).users() == old(self).users(),
            final(self).presence() == old(self).presence(),
            final(self).rates() == old(self).rates(),
    {
        proof {
            lemma_table_names();
        }
        self.tbl_u64_put("seqs", room, seq)
    }

    /// Store or replace the record of a user (whole-value, last write
    /// wins).
    pub fn put_user(&mut self, user_id: &str, user_json: &str) -> (r: Result<(), StoreError>)
        ensures
            r is Ok ==> final(self).users() == old(self).users().insert(user_id@, user_json@),
            r is Err ==> final(self).users() == old(self).users(),
            final(self).msgs() == old(self).msgs(),
            final(self).seqs() == old(self).seqs(),
            final(self).presence() == old(self).presence(),
            final(self).rates() == old(self).rates(),
    {
        proof {
            lemma_table_names();
        }
        self.tbl_str_put("users", user_id, user_json)
    }

    /// The stored record of a user, if any.
    pub fn get_user(&self, user_id: &str) -> (r: Result<Option<String>, StoreError>)
        ensures
            match r {
                Ok(o) => match o {
                    Some(val) => self.users().contains_key(user_id@) && self.users()[user_id@]
                        == val@,
                    None => !self.users().contains_key(user_id@),
                },
                Err(e) => e == StoreError::Storage,
            },
    {
        proof {
            lemma_table_names();
        }
        self.tbl_str_get("users", user_id)
    }

    /// Every stored user record, one element per stored user.
    pub fn list_users(&self) -> (r: Result<Vec<String>, StoreError>)
        ensures
            r matches Ok(v) ==> forall|i: int|
                #![trigger v@[i]]
                0 <= i < v@.len() ==> in_table(self.users(), v@[i]@),
            r matches Ok(v) ==> forall|k: Seq<char>|
                #[trigger] self.users().contains_key(k) ==> seq_has_str(v@, self.users()[k]),
            r matches Ok(v) ==> self.users().dom().finite() && v@.len() == self.users(
            ).dom().len(),
            r matches Err(e) ==> e == StoreError::Storage,
    {
        proof {
            lemma_table_names();
        }
        let l = match self.tbl_str_list("users") {
            Ok(l) => l,
            Err(e) => return Err(e),
        };
        let n: usize = l.len();
        let mut out: Vec<String> = Vec::new();
        let mut i: usize = 0;
        while i < n
            invariant
                i <= n,
                n == l@.len(),
                out@.len() == i,
                forall|j: int| 0 <= j < i ==> #[trigger] out@[j]@ == l@[j].1@,
            decreases n - i,
        {
            out.push(l[i].1.clone());
            i = i + 1;
        }
        proof {
            assert forall|i2: int| #![trigger out@[i2]] 0 <= i2 < out@.len() implies in_table(
                self.users(),
                out@[i2]@,
            ) by {
                assert(self.users().contains_key(l@[i2].0@) && self.users()[l@[i2].0@]
                    == out@[i2]@);
            }
            assert forall|k: Seq<char>| self.users().contains_key(k) implies seq_has_str(
                out@,
                self.users()[k],
            ) by {
                let j = choose|j: int| 0 <= j < l@.len() && l@[j].0@ == k;
                assert(out@[j]@ == self.users()[k]);
            }
            let keys = Seq::new(l@.len(), |j: int| l@[j].0@);
            assert(keys.no_duplicates()) by {
                assert forall|a: int, b: int|
                    0 <= a < keys.len() && 0 <= b < keys.len() && a != b implies keys[a]
                    != keys[b] by {
                    assert(l@[a].0@ != l@[b].0@);
                }
            }
            keys.unique_seq_to_set();
            vstd::seq_lib::seq_to_set_is_finite::<Seq<char>>(keys);
            assert(self.users().dom() =~= keys.to_set()) by {
                assert forall|k: Seq<char>|
                    self.users().dom().contains(k) implies keys.to_set().contains(k) by {
                    let j = choose|j: int| 0 <= j < l@.len() && #[trigger] l@[j].0@ == k;
                    assert(keys[j] == k);
                }
                assert forall|k: Seq<char>|
                    keys.to_set().contains(k) implies self.users().dom().contains(k) by {
                    let i2 = choose|i2: int| 0 <= i2 < keys.len() && #[trigger] keys[i2] == k;
                    assert(self.users().contains_key(l@[i2].0@));
                }
            }
        }
        Ok(out)
    }

    /// Remove the record of a user.
    pub fn delete_user(&mut self, user_id: &str) -> (r: Result<(), StoreError>)
        ensures
            r is Ok ==> final(self).users() == old(self).users().remove(user_id@),
            r is Err ==> final(self).users() == old(self).users(),
            final(self).msgs() == old(self).msgs(),
            final(self).seqs() == old(self).seqs(),
            final(self).presence() == old(self).presence(),
            final(self).rates() == old(self).rates(),
    {
        proof {
            lemma_table_names();
        }
        self.tbl_str_remove("users", user_id)
    }

    /// Mark a user online at `ts` (unix seconds), or remove the entry
    /// when `online` is false.
    pub fn set_presence(&mut self, user_id: &str, online: bool, ts: i64) -> (r: Result<
        (),
        StoreError,
    >)
        ensures
            r matches Err(e) ==> e == StoreError::Storage,
            r is Ok ==> final(self).presence() == if online {
                old(self).presence().insert(user_id@, ts)
            } else {
                old(self).presence().remove(user_id@)
            },
            r is Err ==> final(self).presence() == old(self).presence(),
            final(self).msgs() == old(self).msgs(),
            final(self).seqs() == old(self).seqs(),
            final(self).users() == old(self).users(),
            final(self).rates() == old(self).rates(),
    {
        proof {
            lemma_table_names();
        }
        if online {
            self.tbl_i64_put("presence", user_id, ts)
        } else {
            self.tbl_i64_remove("presence", user_id)
        }
    }

    /// The last-seen time of a user, when online.
    pub fn get_presence(&self, user_id: &str) -> (r: Result<Option<i64>, StoreError>)
        ensures
            match r {
                Ok(o) => match o {
                    Some(ts) => self.presence().contains_key(user_id@) && self.presence()[user_id@]
                        == ts,
                    None => !self.presence().contains_key(user_id@),
                },
                Err(e) => e == StoreError::Storage,
            },
    {
        proof {
            lemma_table_names();
        }
        self.tbl_i64_get("presence", user_id)
    }

    /// Every presence entry, as (user, last seen).
    pub fn list_presence(&self) -> (r: Result<Vec<(String, i64)>, StoreError>)
        ensures
            r matches Ok(v) ==> forall|i: int|
                0 <= i < v@.len() ==> self.presence().contains_key(#[trigger] v@[i].0@)
                    && self.presence()[v@[i].0@] == v@[i].1,
            r matches Ok(v) ==> forall|k: Seq<char>|
                #[trigger] self.presence().contains_key(k) ==> seq_has_key_i64(v@, k),
            r matches Ok(v) ==> forall|i: int, j: int|
                0 <= i < v@.len() && 0 <= j < v@.len() && i != j ==> v@[i].0@ != v@[j].0@,
            r matches Err(e) ==> e == StoreError::Storage,
    {
        proof {
            lemma_table_names();
        }
        let l = match self.tbl_i64_list("presence") {
            Ok(l) => l,
            Err(e) => return Err(e),
        };
        let n: usize = l.len();
        let mut out: Vec<(String, i64)> = Vec::new();
        let mut i: usize = 0;
        while i < n
            invariant
                i <= n,
                n == l@.len(),
                out@.len() == i,
                forall|j: int|
                    0 <= j < i ==> #[trigger] out@[j].0@ == l@[j].0@ && out@[j].1 == l@[j].1,
            decreases n - i,
        {
            let ts: i64 = l[i].1;
            out.push((l[i].0.clone(), ts));
            i = i + 1;
        }
        proof {
            assert forall|k: Seq<char>| self.presence().contains_key(k) implies seq_has_key_i64(
                out@,
                k,
            ) by {
                let j = choose|j: int| 0 <= j < l@.len() && l@[j].0@ == k;
                assert(out@[j].0@ == k);
            }
        }
        Ok(out)
    }

    /// The persisted audit counter of `key`; zero when unseen.
    pub open spec fn rate_count(self, key: Seq<char>) -> u64 {
        if self.rates().contains_key(key) {
            self.rates()[key]
        } else {
            0
        }
    }

    /// Add `delta` to the audit counter of `key` (wrapping on
    /// overflow) and return the new value.
    pub fn incr_rate_counter(&mut self, key: &str, delta: u64) -> (r: Result<u64, StoreError>)
        ensures
            match r {
                Ok(n) => n == (old(self).rate_count(key@) + delta) % 0x1_0000_0000_0000_0000
                    && final(self).rates() == old(self).rates().insert(key@, n),
                Err(_) => final(self).rates() == old(self).rates(),
            },
            final(self).msgs() == old(self).msgs(),
            final(self).seqs() == old(self).seqs(),
            final(self).users() == old(self).users(),
            final(self).presence() == old(self).presence(),
    {
        proof {
            lemma_table_names();
        }
        let cur_opt = match self.tbl_u64_get("rate", key) {
            Ok(c) => c,
            Err(e) => return Err(e),
        };
        let cur: u64 = match cur_opt {
            Some(c) => c,
            None => 0,
        };
        let next: u64 = if delta <= u64::MAX - cur {
            cur + delta
        } else {
            delta - (u64::MAX - cur) - 1
        };
        proof {
            lemma_table_names();
        }
        match self.tbl_u64_put("rate", key, next) {
            Ok(()) => Ok(next),
            Err(e) => Err(e),
        }
    }

    /// The persisted audit counter of `key`.
    pub fn get_rate_counter(&self, key: &str) -> (r: Result<u64, StoreError>)
        ensures
            match r {
                Ok(n) => n == self.rate_count(key@),
                Err(e) => e == StoreError::Storage,
            },
    {
        proof {
            lemma_table_names();
        }
        match self.tbl_u64_get("rate", key) {
            Ok(Some(c)) => Ok(c),
            Ok(None) => Ok(0),
            Err(e) => Err(e),
        }
    }

    /// Every persisted audit counter, as (key, value).
    pub fn list_rate_counters(&self) -> (r: Result<Vec<(String, u64)>, StoreError>)
        ensures
            r matches Ok(v) ==> forall|i: int|
                0 <= i < v@.len() ==> self.rates().contains_key(#[trigger] v@[i].0@)
                    && self.rates()[v@[i].0@] == v@[i].1,
            r matches Ok(v) ==> forall|k: Seq<char>|
                #[trigger] self.rates().contains_key(k) ==> seq_has_key_u64(v@, k),
            r matches Ok(v) ==> forall|i: int, j: int|
                0 <= i < v@.len() && 0 <= j < v@.len() && i != j ==> v@[i].0@ != v@[j].0@,
            r matches Err(e) ==> e == StoreError::Storage,
    {
        proof {
            lemma_table_names();
        }
        let l = match self.tbl_u64_list("rate") {
            Ok(l) => l,
            Err(e) => return Err(e),
        };
        let n: usize = l.len();
        let mut out: Vec<(String, u64)> = Vec::new();
        let mut i: usize = 0;
        while i < n
            invariant
                i <= n,
                n == l@.len(),
                out@.len() == i,
                forall|j: int|
                    0 <= j < i ==> #[trigger] out@[j].0@ == l@[j].0@ && out@[j].1 == l@[j].1,
            decreases n - i,
        {
            let c: u64 = l[i].1;
            out.push((l[i].0.clone(), c));
            i = i + 1;
        }
        proof {
            assert forall|k: Seq<char>| self.rates().contains_key(k) implies seq_has_key_u64(
                out@,
                k,
            ) by {
                let j = choose|j: int| 0 <= j < l@.len() && l@[j].0@ == k;
                assert(out@[j].0@ == k);
            }
        }
        Ok(out)
    }

    /// Reset the audit counter of `key` to zero.
    pub fn reset_rate_counter(&mut self, key: &str) -> (r: Result<(), StoreError>)
        ensures
            r is Ok ==> final(self).rates() == old(self).rates().insert(key@, 0u64),
            r is Err ==> final(self).rates() == old(self).rates(),
            final(self).msgs() == old(self).msgs(),
            final(self).seqs() == old(self).seqs(),
            final(self).users() == old(self).users(),
            final(self).presence() == old(self).presence(),
    {
        proof {
            lemma_table_names();
        }
        self.tbl_u64_put("rate", key, 0)
    }
}

} // verus!
