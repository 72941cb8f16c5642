//! Room messaging: assign the next per-room sequence number, persist
//! the record, then broadcast its stored text on the room's topic.
//! A message is never broadcast unless it was persisted first; a
//! failed broadcast leaves history authoritative.

use vstd::prelude::*;
use crate::bus::Bus;
use crate::bus::SubEntry;
use crate::bus::delivered;
use crate::clock::now_ms;
use crate::digits::dec_str;
use crate::digits::push_dec;
use crate::record::MessageRecord;
use crate::record::enc_rec;
use crate::record::encode_record;
use crate::record::key_spec;
use crate::store::Storage;
use crate::store::StoreError;
use crate::store::seq_count;
use crate::text::push_all;
use crate::text::string_of;
use crate::text::vec_chars;

verus! {

/// The bus topic that carries a room's messages.
pub open spec fn room_topic(room: Seq<char>) -> Seq<char> {
    "room/"@ + room
}

/// A message identifier: its timestamp and sequence number in decimal,
/// joined by a dash.
pub open spec fn msg_id(ts: i64, sq: u64) -> Seq<char> {
    dec_str(ts as int) + seq!['-'] + dec_str(sq as int)
}

/// What one successful send to `room` at time `t` leaves behind: the
/// record built from the next sequence number, persisted under its
/// composite key, and its stored text delivered on the room topic.
pub open spec fn send_outcome(
    s0: Storage,
    s1: Storage,
    b0: Seq<SubEntry>,
    b1: Seq<SubEntry>,
    room: Seq<char>,
    body: Seq<char>,
    rec: MessageRecord,
    t: i64,
) -> bool {
    &&& 0 <= t
    &&& rec.server_ts == t
    &&& rec.room@ == room
    &&& rec.body@ == body
    &&& rec.seq as int == s0.room_seq(room) as int + 1
    &&& rec.id@ == msg_id(t, rec.seq)
    &&& s1.seqs() == s0.seqs().insert(room, rec.seq)
    &&& s1.msgs() == s0.msgs().insert(key_spec(room, t, rec.seq), enc_rec(rec))
    &&& delivered(b0, b1, room_topic(room), enc_rec(rec))
}

/// Sequence numbers of consecutive sends to one room are consecutive:
/// for all rooms and all chains of sends, the returned values are
/// strictly increasing with no gaps or repeats.
pub proof fn lemma_send_seq_consecutive(
    m0: Map<Seq<char>, u64>,
    m1: Map<Seq<char>, u64>,
    room: Seq<char>,
    n1: u64,
    n2: u64,
)
    requires
        n1 as int == seq_count(m0, room) as int + 1,
        m1 == m0.insert(room, n1),
        n2 as int == seq_count(m1, room) as int + 1,
    ensures
        n2 as int == n1 as int + 1,
{
}

/// Send `body` to `room`: stamp it, take the next sequence number,
/// persist, then broadcast. On failure nothing was broadcast, no
/// record exists, and at most the sequence counter has advanced (a
/// taken sequence number is never reused).
pub fn send_message(room: &str, body: &str, store: &mut Storage, bus: &mut Bus) -> (r: Result<
    MessageRecord,
    StoreError,
>)
    requires
        old(store).wf(),
        old(bus).wf(),
    ensures
        final(store).wf(),
        final(bus).wf(),
        r matches Ok(rec) ==> exists|t: i64| #[trigger] send_outcome(
            *old(store),
            *final(store),
            old(bus).model(),
            final(bus).model(),
            room@,
            body@,
            rec,
            t,
        ),
        r is Err ==> final(store).msgs() == old(store).msgs() && final(bus).model() == old(
            bus,
        ).model(),
        r is Err ==> final(store).seqs() == old(store).seqs() || (old(store).room_seq(room@)
            < u64::MAX && final(store).seqs() == old(store).seqs().insert(
            room@,
            (old(store).room_seq(room@) + 1) as u64,
        )),
        final(store).users() == old(store).users(),
        final(store).presence() == old(store).presence(),
        final(store).rates() == old(store).rates(),
        final(bus).fresh_id() == old(bus).fresh_id(),
{
    let now: i64 = now_ms();
    let sq: u64 = match store.next_seq_for_room(room) {
        Ok(s) => s,
        Err(e) => {
            return Err(e);
        },
    };
    let mut idv: Vec<char> = Vec::new();
    push_dec(&mut idv, now as u64);
    idv.push('-');
    push_dec(&mut idv, sq);
    let rec = MessageRecord {
        id: string_of(&idv),
        seq: sq,
        room: room.to_owned(),
        server_ts: now,
        body: body.to_owned(),
    };
    proof {
        assert(rec.id@ =~= msg_id(now, sq));
    }
    match store.append_message(&rec) {
        Ok(()) => (),
        Err(e) => {
            return Err(e);
        },
    }
    let enc = encode_record(&rec);
    let p = string_of(&enc);
    let mut tv = vec_chars("room/");
    let rv = vec_chars(room);
    push_all(&mut tv, &rv);
    let topic = string_of(&tv);
    bus.publish(topic.as_str(), &p);
    let out: Result<MessageRecord, StoreError> = Ok(rec);
    proof {
        assert(topic@ =~= room_topic(room@));
        assert(send_outcome(
            *old(store),
            *store,
            old(bus).model(),
            bus.model(),
            room@,
            body@,
            out->Ok_0,
            now,
        ));
    }
    out
}

/// Read room history: a thin pass-through to the store's scan, with
/// its semantics (ascending order, strictly-after filter, window of
/// the most recent entries).
pub fn fetch_history(
    room: &str,
    after_ts: Option<i64>,
    limit: usize,
    store: &Storage,
) -> (r: Result<Vec<MessageRecord>, StoreError>)
    requires
        store.wf(),
    ensures
        r matches Ok(v) ==> forall|i: int|
            0 <= i < v@.len() ==> crate::record::valid_rec(#[trigger] v@[i])
                && crate::store::rec_matches(v@[i], room@, after_ts) && crate::store::stored_in(
                store.msgs(),
                v@[i],
            ),
        r matches Ok(v) ==> crate::store::sorted_recs(v@),
        r matches Ok(v) ==> v@.len() <= limit,
        r matches Ok(v) ==> forall|k: Seq<char>| #[trigger]
            store.msgs().contains_key(k) && crate::store::rec_matches(
                crate::store::rec_of(store.msgs()[k]),
                room@,
                after_ts,
            ) ==> crate::store::seq_has_rec(v@, store.msgs()[k]) || (v@.len() == limit && (
            v@.len() == 0 || (match after_ts {
                None => crate::store::rec_lt(crate::store::rec_of(store.msgs()[k]), v@[0]),
                Some(_) => crate::store::rec_lt(
                    v@[v@.len() - 1],
                    crate::store::rec_of(store.msgs()[k]),
                ),
            }))),
        r matches Err(e) ==> e == StoreError::Storage,
{
    store.scan_messages(room, after_ts, limit)
}

} // verus!
