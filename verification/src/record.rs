//! The message record, its stored text encoding, and the
//! lexicographically sortable composite storage key.
//!
//! A record is stored as five fixed-width fields: each string field is
//! preceded by its length as twenty decimal digits, and each number is
//! written as twenty decimal digits, in the order
//! `id-length, id, seq, room-length, room, server_ts, body-length, body`.

use vstd::prelude::*;
use crate::digits::all_digits;
use crate::digits::lemma_digits_lex;
use crate::digits::lemma_lex_eqlen_prefix;
use crate::digits::lemma_lex_same_prefix;
use crate::digits::lemma_num_bound;
use crate::digits::lex_lt;
use crate::digits::lemma_num_pad;
use crate::digits::lemma_pad_injective;
use crate::digits::lemma_pad_len;
use crate::digits::lemma_pad_num;
use crate::digits::lemma_pow10_20;
use crate::digits::num;
use crate::digits::pad;
use crate::digits::pow10;
use crate::digits::push_pad;
use crate::digits::read_num;
use crate::text::push_all;
use crate::text::string_of;
use crate::text::subvec;
use crate::text::vec_chars;

verus! {

/// One room message: `id` is derived from `server_ts` and `seq`;
/// `body` is an opaque structured payload carried as text.
#[derive(Clone, Debug)]
pub struct MessageRecord {
    pub id: String,
    pub seq: u64,
    pub room: String,
    pub server_ts: i64,
    pub body: String,
}

/// Field-for-field equality of two records, by text content.
pub open spec fn rec_eqv(a: MessageRecord, b: MessageRecord) -> bool {
    a.id@ == b.id@ && a.seq == b.seq && a.room@ == b.room@ && a.server_ts == b.server_ts
        && a.body@ == b.body@
}

/// A record the store can hold: a non-negative timestamp and field
/// lengths within the twenty-digit width. Every record built from
/// in-memory strings satisfies the length bounds.
pub open spec fn valid_rec(r: MessageRecord) -> bool {
    0 <= r.server_ts && r.id@.len() < pow10(20) && r.room@.len() < pow10(20) && r.body@.len()
        < pow10(20)
}

/// A string field as stored: its length as twenty digits, then its text.
pub open spec fn enc_str(s: Seq<char>) -> Seq<char> {
    pad(s.len() as int, 20) + s
}

/// The stored text of a record.
pub open spec fn enc_rec(r: MessageRecord) -> Seq<char> {
    enc_str(r.id@) + pad(r.seq as int, 20) + enc_str(r.room@) + pad(r.server_ts as int, 20)
        + enc_str(r.body@)
}

/// The composite storage key of a message:
/// `<room>/<server_ts as 20 digits>/<seq as 20 digits>`.
pub open spec fn key_spec(room: Seq<char>, ts: i64, sq: u64) -> Seq<char> {
    room + seq!['/'] + pad(ts as int, 20) + seq!['/'] + pad(sq as int, 20)
}

/// The stored text of a record determines the record's fields: the
/// pieces stand at fixed offsets from the field lengths.
pub proof fn lemma_enc_structure(r: MessageRecord, e: Seq<char>)
    requires
        valid_rec(r),
        enc_rec(r) == e,
    ensures
        e.len() == 100 + r.id@.len() as int + r.room@.len() as int + r.body@.len() as int,
        e.subrange(0, 20) == pad(r.id@.len() as int, 20),
        e.subrange(20, 20 + r.id@.len() as int) == r.id@,
        e.subrange(20 + r.id@.len() as int, 40 + r.id@.len() as int) == pad(r.seq as int, 20),
        e.subrange(40 + r.id@.len() as int, 60 + r.id@.len() as int) == pad(
            r.room@.len() as int,
            20,
        ),
        e.subrange(60 + r.id@.len() as int, 60 + r.id@.len() as int + r.room@.len() as int) == r.room@,
        e.subrange(
            60 + r.id@.len() as int + r.room@.len() as int,
            80 + r.id@.len() as int + r.room@.len() as int,
        ) == pad(r.server_ts as int, 20),
        e.subrange(
            80 + r.id@.len() as int + r.room@.len() as int,
            100 + r.id@.len() as int + r.room@.len() as int,
        ) == pad(r.body@.len() as int, 20),
        e.subrange(
            100 + r.id@.len() as int + r.room@.len() as int,
            100 + r.id@.len() as int + r.room@.len() as int + r.body@.len() as int,
        ) == r.body@,
{
    lemma_pad_len(r.id@.len() as int, 20);
    lemma_pad_len(r.seq as int, 20);
    lemma_pad_len(r.room@.len() as int, 20);
    lemma_pad_len(r.server_ts as int, 20);
    lemma_pad_len(r.body@.len() as int, 20);
    let li = r.id@.len() as int;
    let lr = r.room@.len() as int;
    let lb = r.body@.len() as int;
    assert(e.subrange(0, 20) =~= pad(li, 20));
    assert(e.subrange(20, 20 + li) =~= r.id@);
    assert(e.subrange(20 + li, 40 + li) =~= pad(r.seq as int, 20));
    assert(e.subrange(40 + li, 60 + li) =~= pad(lr, 20));
    assert(e.subrange(60 + li, 60 + li + lr) =~= r.room@);
    assert(e.subrange(60 + li + lr, 80 + li + lr) =~= pad(r.server_ts as int, 20));
    assert(e.subrange(80 + li + lr, 100 + li + lr) =~= pad(lb, 20));
    assert(e.subrange(100 + li + lr, 100 + li + lr + lb) =~= r.body@);
}

/// The converse: pieces at the fixed offsets assemble to the record's
/// stored text.
pub proof fn lemma_enc_parts(r: MessageRecord, e: Seq<char>)
    requires
        valid_rec(r),
        e.len() == 100 + r.id@.len() as int + r.room@.len() as int + r.body@.len() as int,
        e.subrange(0, 20) == pad(r.id@.len() as int, 20),
        e.subrange(20, 20 + r.id@.len() as int) == r.id@,
        e.subrange(20 + r.id@.len() as int, 40 + r.id@.len() as int) == pad(r.seq as int, 20),
        e.subrange(40 + r.id@.len() as int, 60 + r.id@.len() as int) == pad(
            r.room@.len() as int,
            20,
        ),
        e.subrange(60 + r.id@.len() as int, 60 + r.id@.len() as int + r.room@.len() as int) == r.room@,
        e.subrange(
            60 + r.id@.len() as int + r.room@.len() as int,
            80 + r.id@.len() as int + r.room@.len() as int,
        ) == pad(r.server_ts as int, 20),
        e.subrange(
            80 + r.id@.len() as int + r.room@.len() as int,
            100 + r.id@.len() as int + r.room@.len() as int,
        ) == pad(r.body@.len() as int, 20),
        e.subrange(
            100 + r.id@.len() as int + r.room@.len() as int,
            100 + r.id@.len() as int + r.room@.len() as int + r.body@.len() as int,
        ) == r.body@,
    ensures
        enc_rec(r) == e,
{
    lemma_pad_len(r.id@.len() as int, 20);
    lemma_pad_len(r.seq as int, 20);
    lemma_pad_len(r.room@.len() as int, 20);
    lemma_pad_len(r.server_ts as int, 20);
    lemma_pad_len(r.body@.len() as int, 20);
    let li = r.id@.len() as int;
    let lr = r.room@.len() as int;
    let lb = r.body@.len() as int;
    assert(enc_rec(r) =~= e) by {
        assert(forall|i: int| 0 <= i < 20 ==> e[i] == #[trigger] e.subrange(0, 20)[i]);
        assert(forall|i: int| 20 <= i < 20 + li ==> e[i] == #[trigger] e.subrange(
            20,
            20 + li,
        )[i - 20]);
        assert(forall|i: int| 20 + li <= i < 40 + li ==> e[i] == #[trigger] e.subrange(
            20 + li,
            40 + li,
        )[i - 20 - li]);
        assert(forall|i: int| 40 + li <= i < 60 + li ==> e[i] == #[trigger] e.subrange(
            40 + li,
            60 + li,
        )[i - 40 - li]);
        assert(forall|i: int| 60 + li <= i < 60 + li + lr ==> e[i] == #[trigger] e.subrange(
            60 + li,
            60 + li + lr,
        )[i - 60 - li]);
        assert(forall|i: int| 60 + li + lr <= i < 80 + li + lr ==> e[i]
            == #[trigger] e.subrange(60 + li + lr, 80 + li + lr)[i - 60 - li - lr]);
        assert(forall|i: int| 80 + li + lr <= i < 100 + li + lr ==> e[i]
            == #[trigger] e.subrange(80 + li + lr, 100 + li + lr)[i - 80 - li - lr]);
        assert(forall|i: int| 100 + li + lr <= i < 100 + li + lr + lb ==> e[i]
            == #[trigger] e.subrange(100 + li + lr, 100 + li + lr + lb)[i - 100 - li - lr]);
    }
}

/// Two valid records with the same stored text agree on every field.
pub proof fn lemma_enc_injective(a: MessageRecord, b: MessageRecord)
    requires
        valid_rec(a),
        valid_rec(b),
        enc_rec(a) == enc_rec(b),
    ensures
        rec_eqv(a, b),
{
    let e = enc_rec(a);
    lemma_pow10_20();
    lemma_enc_structure(a, e);
    lemma_enc_structure(b, e);
    lemma_pad_injective(a.id@.len() as int, b.id@.len() as int, 20);
    let li = a.id@.len() as int;
    lemma_pad_injective(a.seq as int, b.seq as int, 20);
    lemma_pad_injective(a.room@.len() as int, b.room@.len() as int, 20);
    let lr = a.room@.len() as int;
    lemma_pad_injective(a.server_ts as int, b.server_ts as int, 20);
    lemma_pad_injective(a.body@.len() as int, b.body@.len() as int, 20);
}

/// Two messages with the same composite key share room, timestamp and
/// sequence number.
pub proof fn lemma_key_injective(r1: Seq<char>, t1: i64, s1: u64, r2: Seq<char>, t2: i64, s2: u64)
    requires
        0 <= t1,
        0 <= t2,
        key_spec(r1, t1, s1) == key_spec(r2, t2, s2),
    ensures
        r1 == r2,
        t1 == t2,
        s1 == s2,
{
    lemma_pad_len(t1 as int, 20);
    lemma_pad_len(s1 as int, 20);
    lemma_pad_len(t2 as int, 20);
    lemma_pad_len(s2 as int, 20);
    let k = key_spec(r1, t1, s1);
    assert(k.len() == r1.len() + 42);
    assert(k.len() == r2.len() + 42);
    let n = r1.len() as int;
    assert(r1 =~= k.subrange(0, n));
    assert(r2 =~= k.subrange(0, n));
    assert(pad(t1 as int, 20) =~= k.subrange(n + 1, n + 21));
    assert(pad(t2 as int, 20) =~= k.subrange(n + 1, n + 21));
    assert(pad(s1 as int, 20) =~= k.subrange(n + 22, n + 42));
    assert(pad(s2 as int, 20) =~= k.subrange(n + 22, n + 42));
    lemma_pow10_20();
    lemma_pad_injective(t1 as int, t2 as int, 20);
    lemma_pad_injective(s1 as int, s2 as int, 20);
}

/// The invariant the composite key exists for: within one room,
/// ascending lexicographic key order is exactly ascending
/// `(server_ts, seq)` order, because the fixed-width zero padding
/// makes the numeric fields sort as text. Prefix range scans therefore
/// need no secondary index.
pub proof fn lemma_key_order(room: Seq<char>, t1: i64, s1: u64, t2: i64, s2: u64)
    requires
        0 <= t1,
        0 <= t2,
    ensures
        lex_lt(key_spec(room, t1, s1), key_spec(room, t2, s2)) == (t1 < t2 || (t1 == t2 && s1
            < s2)),
{
    lemma_pow10_20();
    lemma_pad_len(t1 as int, 20);
    lemma_pad_len(t2 as int, 20);
    lemma_pad_len(s1 as int, 20);
    lemma_pad_len(s2 as int, 20);
    let p = room + seq!['/'];
    let x1 = pad(t1 as int, 20) + (seq!['/'] + pad(s1 as int, 20));
    let x2 = pad(t2 as int, 20) + (seq!['/'] + pad(s2 as int, 20));
    assert(key_spec(room, t1, s1) =~= p + x1);
    assert(key_spec(room, t2, s2) =~= p + x2);
    lemma_lex_same_prefix(p, x1, x2);
    if pad(t1 as int, 20) == pad(t2 as int, 20) {
        lemma_pad_injective(t1 as int, t2 as int, 20);
        let p2 = pad(t1 as int, 20) + seq!['/'];
        assert(x1 =~= p2 + pad(s1 as int, 20));
        assert(x2 =~= p2 + pad(s2 as int, 20));
        lemma_lex_same_prefix(p2, pad(s1 as int, 20), pad(s2 as int, 20));
        lemma_digits_lex(pad(s1 as int, 20), pad(s2 as int, 20));
        lemma_num_pad(s1 as int, 20);
        lemma_num_pad(s2 as int, 20);
    } else {
        lemma_lex_eqlen_prefix(
            pad(t1 as int, 20),
            seq!['/'] + pad(s1 as int, 20),
            pad(t2 as int, 20),
            seq!['/'] + pad(s2 as int, 20),
        );
        lemma_digits_lex(pad(t1 as int, 20), pad(t2 as int, 20));
        lemma_num_pad(t1 as int, 20);
        lemma_num_pad(t2 as int, 20);
    }
}

/// Build the stored text of a record.
pub fn encode_record(rec: &MessageRecord) -> (out: Vec<char>)
    requires
        0 <= rec.server_ts,
    ensures
        out@ == enc_rec(*rec),
        valid_rec(*rec),
{
    let id: Vec<char> = vec_chars(rec.id.as_str());
    let room: Vec<char> = vec_chars(rec.room.as_str());
    let body: Vec<char> = vec_chars(rec.body.as_str());
    let li: usize = id.len();
    let lr: usize = room.len();
    let lb: usize = body.len();
    proof {
        lemma_pow10_20();
    }
    let mut out: Vec<char> = Vec::new();
    push_pad(&mut out, li as u64, 20);
    push_all(&mut out, &id);
    push_pad(&mut out, rec.seq, 20);
    push_pad(&mut out, lr as u64, 20);
    push_all(&mut out, &room);
    push_pad(&mut out, rec.server_ts as u64, 20);
    push_pad(&mut out, lb as u64, 20);
    push_all(&mut out, &body);
    proof {
        assert(out@ =~= enc_rec(*rec));
    }
    out
}

/// Parse a stored text back into a record. Returns `None` exactly when
/// no valid record has this stored text.
pub fn decode_record(v: &Vec<char>) -> (r: Option<MessageRecord>)
    ensures
        match r {
            Some(rec) => valid_rec(rec) && enc_rec(rec) == v@,
            None => forall|rc: MessageRecord| valid_rec(rc) ==> enc_rec(rc) != v@,
        },
{
    let len: usize = v.len();
    proof {
        lemma_pow10_20();
    }
    if len < 100 {
        proof {
            assert forall|rc: MessageRecord| valid_rec(rc) implies enc_rec(rc) != v@ by {
                if enc_rec(rc) == v@ {
                    lemma_enc_structure(rc, v@);
                }
            }
        }
        return None;
    }
    let li128: u128 = match read_num(v, 0, 20) {
        Some(x) => x,
        None => {
            proof {
                assert forall|rc: MessageRecord| valid_rec(rc) implies enc_rec(rc) != v@ by {
                    if enc_rec(rc) == v@ {
                        lemma_enc_structure(rc, v@);
                        lemma_pad_len(rc.id@.len() as int, 20);
                    }
                }
            }
            return None;
        },
    };
    if li128 > (len - 100) as u128 {
        proof {
            assert forall|rc: MessageRecord| valid_rec(rc) implies enc_rec(rc) != v@ by {
                if enc_rec(rc) == v@ {
                    lemma_enc_structure(rc, v@);
                    lemma_num_pad(rc.id@.len() as int, 20);
                }
            }
        }
        return None;
    }
    let li: usize = li128 as usize;
    let id_v: Vec<char> = subvec(v, 20, 20 + li);
    let sq128: u128 = match read_num(v, 20 + li, 20) {
        Some(x) => x,
        None => {
            proof {
                assert forall|rc: MessageRecord| valid_rec(rc) implies enc_rec(rc) != v@ by {
                    if enc_rec(rc) == v@ {
                        lemma_enc_structure(rc, v@);
                        lemma_num_pad(rc.id@.len() as int, 20);
                        lemma_pad_len(rc.seq as int, 20);
                    }
                }
            }
            return None;
        },
    };
    if sq128 > u64::MAX as u128 {
        proof {
            assert forall|rc: MessageRecord| valid_rec(rc) implies enc_rec(rc) != v@ by {
                if enc_rec(rc) == v@ {
                    lemma_enc_structure(rc, v@);
                    lemma_num_pad(rc.id@.len() as int, 20);
                    lemma_num_pad(rc.seq as int, 20);
                }
            }
        }
        return None;
    }
    let sq: u64 = sq128 as u64;
    let lr128: u128 = match read_num(v, 40 + li, 20) {
        Some(x) => x,
        None => {
            proof {
                assert forall|rc: MessageRecord| valid_rec(rc) implies enc_rec(rc) != v@ by {
                    if enc_rec(rc) == v@ {
                        lemma_enc_structure(rc, v@);
                        lemma_num_pad(rc.id@.len() as int, 20);
                        lemma_pad_len(rc.room@.len() as int, 20);
                    }
                }
            }
            return None;
        },
    };
    if lr128 > (len - 100 - li) as u128 {
        proof {
            assert forall|rc: MessageRecord| valid_rec(rc) implies enc_rec(rc) != v@ by {
                if enc_rec(rc) == v@ {
                    lemma_enc_structure(rc, v@);
                    lemma_num_pad(rc.id@.len() as int, 20);
                    lemma_num_pad(rc.room@.len() as int, 20);
                }
            }
        }
        return None;
    }
    let lr: usize = lr128 as usize;
    let room_v: Vec<char> = subvec(v, 60 + li, 60 + li + lr);
    let ts128: u128 = match read_num(v, 60 + li + lr, 20) {
        Some(x) => x,
        None => {
            proof {
                assert forall|rc: MessageRecord| valid_rec(rc) implies enc_rec(rc) != v@ by {
                    if enc_rec(rc) == v@ {
                        lemma_enc_structure(rc, v@);
                        lemma_num_pad(rc.id@.len() as int, 20);
                        lemma_num_pad(rc.room@.len() as int, 20);
                        lemma_pad_len(rc.server_ts as int, 20);
                    }
                }
            }
            return None;
        },
    };
    if ts128 > i64::MAX as u128 {
        proof {
            assert forall|rc: MessageRecord| valid_rec(rc) implies enc_rec(rc) != v@ by {
                if enc_rec(rc) == v@ {
                    lemma_enc_structure(rc, v@);
                    lemma_num_pad(rc.id@.len() as int, 20);
                    lemma_num_pad(rc.room@.len() as int, 20);
                    lemma_num_pad(rc.server_ts as int, 20);
                }
            }
        }
        return None;
    }
    let ts: i64 = ts128 as i64;
    let lb128: u128 = match read_num(v, 80 + li + lr, 20) {
        Some(x) => x,
        None => {
            proof {
                assert forall|rc: MessageRecord| valid_rec(rc) implies enc_rec(rc) != v@ by {
                    if enc_rec(rc) == v@ {
                        lemma_enc_structure(rc, v@);
                        lemma_num_pad(rc.id@.len() as int, 20);
                        lemma_num_pad(rc.room@.len() as int, 20);
                        lemma_pad_len(rc.body@.len() as int, 20);
                    }
                }
            }
            return None;
        },
    };
    if lb128 != (len - 100 - li - lr) as u128 {
        proof {
            assert forall|rc: MessageRecord| valid_rec(rc) implies enc_rec(rc) != v@ by {
                if enc_rec(rc) == v@ {
                    lemma_enc_structure(rc, v@);
                    lemma_num_pad(rc.id@.len() as int, 20);
                    lemma_num_pad(rc.room@.len() as int, 20);
                    lemma_num_pad(rc.body@.len() as int, 20);
                }
            }
        }
        return None;
    }
    let lb: usize = lb128 as usize;
    let body_v: Vec<char> = subvec(v, 100 + li + lr, 100 + li + lr + lb);
    let rec = MessageRecord {
        id: string_of(&id_v),
        seq: sq,
        room: string_of(&room_v),
        server_ts: ts,
        body: string_of(&body_v),
    };
    proof {
        lemma_num_bound(v@.subrange(0, 20));
        lemma_num_bound(v@.subrange(20 + li as int, 40 + li as int));
        lemma_num_bound(v@.subrange(40 + li as int, 60 + li as int));
        lemma_num_bound(v@.subrange(60 + li as int + lr as int, 80 + li as int + lr as int));
        lemma_num_bound(v@.subrange(80 + li as int + lr as int, 100 + li as int + lr as int));
        lemma_pad_num(v@.subrange(0, 20));
        lemma_pad_num(v@.subrange(20 + li as int, 40 + li as int));
        lemma_pad_num(v@.subrange(40 + li as int, 60 + li as int));
        lemma_pad_num(v@.subrange(60 + li as int + lr as int, 80 + li as int + lr as int));
        lemma_pad_num(v@.subrange(80 + li as int + lr as int, 100 + li as int + lr as int));
        assert(valid_rec(rec));
        lemma_enc_parts(rec, v@);
    }
    Some(rec)
}

/// Build the composite storage key for a message of `room`.
pub fn make_key(room: &Vec<char>, ts: i64, sq: u64) -> (out: Vec<char>)
    requires
        0 <= ts,
    ensures
        out@ == key_spec(room@, ts, sq),
{
    let mut out: Vec<char> = Vec::new();
    push_all(&mut out, room);
    out.push('/');
    push_pad(&mut out, ts as u64, 20);
    out.push('/');
    push_pad(&mut out, sq, 20);
    proof {
        assert(out@ =~= key_spec(room@, ts, sq));
    }
    out
}

} // verus!
