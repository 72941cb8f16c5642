//! Store behaviour: append/scan round trips, ordering, windows,
//! retention, counters, users and presence rows.

use chat_core::record::{decode_record, encode_record, MessageRecord};
use chat_core::store::{Storage, StoreError};

fn fresh_store(_tag: &str) -> Storage {
    Storage::new_in_memory().expect("open store")
}

fn rec(room: &str, ts: i64, seq: u64, body: &str) -> MessageRecord {
    MessageRecord {
        id: format!("{}-{}", ts, seq),
        seq,
        room: room.to_string(),
        server_ts: ts,
        body: body.to_string(),
    }
}

#[test]
fn append_then_scan_round_trips() {
    let mut st = fresh_store("roundtrip");
    let r = rec("general", 1000, 1, "{\"text\":\"a\"}");
    st.append_message(&r).unwrap();
    let got = st.scan_messages("general", None, 10).unwrap();
    assert_eq!(got.len(), 1);
    assert_eq!(got[0].id, "1000-1");
    assert_eq!(got[0].seq, 1);
    assert_eq!(got[0].room, "general");
    assert_eq!(got[0].server_ts, 1000);
    assert_eq!(got[0].body, "{\"text\":\"a\"}");
}

#[test]
fn encode_decode_round_trips() {
    let r = rec("room/x", 123456789, 42, "payload with \u{0} and \u{1F600} and / slashes");
    let enc = encode_record(&r);
    let back = decode_record(&enc).expect("decodes");
    assert_eq!(back.id, r.id);
    assert_eq!(back.seq, r.seq);
    assert_eq!(back.room, r.room);
    assert_eq!(back.server_ts, r.server_ts);
    assert_eq!(back.body, r.body);
}

#[test]
fn decode_rejects_malformed() {
    let junk: Vec<char> = "not a record".chars().collect();
    assert!(decode_record(&junk).is_none());
    let empty: Vec<char> = Vec::new();
    assert!(decode_record(&empty).is_none());
}

#[test]
fn scan_after_ts_is_strictly_after() {
    let mut st = fresh_store("after");
    for (ts, seq) in [(100i64, 1u64), (200, 2), (300, 3)] {
        st.append_message(&rec("r", ts, seq, "{}")).unwrap();
    }
    let got = st.scan_messages("r", Some(200), 10).unwrap();
    assert_eq!(got.len(), 1);
    assert_eq!(got[0].server_ts, 300);
    let got = st.scan_messages("r", Some(150), 10).unwrap();
    assert_eq!(got.len(), 2);
    assert_eq!(got[0].server_ts, 200);
    assert_eq!(got[1].server_ts, 300);
    let got = st.scan_messages("r", Some(99), 2).unwrap();
    assert_eq!(got.len(), 2);
    assert_eq!(got[0].server_ts, 100);
    assert_eq!(got[1].server_ts, 200);
}

#[test]
fn scan_latest_window_keeps_most_recent_ascending() {
    let mut st = fresh_store("window");
    for (ts, seq) in [(100i64, 1u64), (200, 2), (300, 3), (400, 4)] {
        st.append_message(&rec("r", ts, seq, "{}")).unwrap();
    }
    let got = st.scan_messages("r", None, 2).unwrap();
    assert_eq!(got.len(), 2);
    assert_eq!(got[0].server_ts, 300);
    assert_eq!(got[1].server_ts, 400);
    let got = st.scan_messages("r", None, 10).unwrap();
    assert_eq!(got.len(), 4);
    let got = st.scan_messages("r", None, 0).unwrap();
    assert_eq!(got.len(), 0);
}

#[test]
fn scan_separates_rooms() {
    let mut st = fresh_store("rooms");
    st.append_message(&rec("a", 100, 1, "{}")).unwrap();
    st.append_message(&rec("b", 200, 1, "{}")).unwrap();
    let got = st.scan_messages("a", None, 10).unwrap();
    assert_eq!(got.len(), 1);
    assert_eq!(got[0].room, "a");
    let got = st.scan_messages("missing", None, 10).unwrap();
    assert!(got.is_empty());
}

#[test]
fn retention_sweep_removes_all_and_is_idempotent() {
    let mut st = fresh_store("sweep");
    for (ts, seq) in [(100i64, 1u64), (200, 2), (300, 3)] {
        st.append_message(&rec("r", ts, seq, "{}")).unwrap();
    }
    st.retention_sweep_at(1000).unwrap();
    assert!(st.scan_messages("r", None, 10).unwrap().is_empty());
    st.retention_sweep_at(1000).unwrap();
    assert!(st.scan_messages("r", None, 10).unwrap().is_empty());
}

#[test]
fn retention_sweep_of_zero_days_removes_old_messages() {
    let mut st = fresh_store("sweep_zero");
    // timestamps far in the past, as every stored message is once the
    // wall clock has moved on
    st.append_message(&rec("r", 100, 1, "{}")).unwrap();
    st.append_message(&rec("r", 200, 2, "{}")).unwrap();
    st.retention_sweep(0).unwrap();
    assert!(st.scan_messages("r", None, 10).unwrap().is_empty());
    st.retention_sweep(0).unwrap();
    assert!(st.scan_messages("r", None, 10).unwrap().is_empty());
}

#[test]
fn retention_sweep_keeps_fresh_records() {
    let mut st = fresh_store("sweep_keep");
    st.append_message(&rec("r", 100, 1, "old")).unwrap();
    st.append_message(&rec("r", 5000, 2, "new")).unwrap();
    st.retention_sweep_at(1000).unwrap();
    let got = st.scan_messages("r", None, 10).unwrap();
    assert_eq!(got.len(), 1);
    assert_eq!(got[0].body, "new");
}

#[test]
fn next_seq_counts_from_one_without_gaps() {
    let mut st = fresh_store("seq");
    assert_eq!(st.next_seq_for_room("r").unwrap(), 1);
    assert_eq!(st.next_seq_for_room("r").unwrap(), 2);
    assert_eq!(st.next_seq_for_room("r").unwrap(), 3);
    assert_eq!(st.next_seq_for_room("other").unwrap(), 1);
    st.set_seq_for_room("r", 10).unwrap();
    assert_eq!(st.next_seq_for_room("r").unwrap(), 11);
}

#[test]
fn next_seq_refuses_exhausted_counter() {
    let mut st = fresh_store("seq_max");
    st.set_seq_for_room("r", u64::MAX).unwrap();
    assert_eq!(st.next_seq_for_room("r"), Err(StoreError::SeqExhausted));
}

#[test]
fn opening_an_impossible_path_fails() {
    assert!(matches!(Storage::new(""), Err(StoreError::Storage)));
}

#[test]
fn user_rows_put_get_list_delete() {
    let mut st = fresh_store("users");
    assert_eq!(st.get_user("u1").unwrap(), None);
    st.put_user("u1", "{\"role\":\"admin\"}").unwrap();
    st.put_user("u2", "{\"role\":\"member\"}").unwrap();
    assert_eq!(st.get_user("u1").unwrap().as_deref(), Some("{\"role\":\"admin\"}"));
    let mut all = st.list_users().unwrap();
    all.sort();
    assert_eq!(all, vec!["{\"role\":\"admin\"}".to_string(), "{\"role\":\"member\"}".to_string()]);
    st.delete_user("u1").unwrap();
    assert_eq!(st.get_user("u1").unwrap(), None);
    assert_eq!(st.list_users().unwrap().len(), 1);
}

#[test]
fn presence_rows_set_get_list() {
    let mut st = fresh_store("presence");
    assert_eq!(st.get_presence("u1").unwrap(), None);
    st.set_presence("u1", true, 100).unwrap();
    assert_eq!(st.get_presence("u1").unwrap(), Some(100));
    st.set_presence("u1", true, 200).unwrap();
    assert_eq!(st.get_presence("u1").unwrap(), Some(200));
    st.set_presence("u2", true, 300).unwrap();
    let mut all = st.list_presence().unwrap();
    all.sort();
    assert_eq!(all, vec![("u1".to_string(), 200), ("u2".to_string(), 300)]);
    st.set_presence("u1", false, 400).unwrap();
    assert_eq!(st.get_presence("u1").unwrap(), None);
}

#[test]
fn rate_counters_increment_and_reset() {
    let mut st = fresh_store("counters");
    assert_eq!(st.get_rate_counter("k").unwrap(), 0);
    assert_eq!(st.incr_rate_counter("k", 2).unwrap(), 2);
    assert_eq!(st.incr_rate_counter("k", 3).unwrap(), 5);
    assert_eq!(st.get_rate_counter("k").unwrap(), 5);
    let all = st.list_rate_counters().unwrap();
    assert_eq!(all, vec![("k".to_string(), 5)]);
    st.reset_rate_counter("k").unwrap();
    assert_eq!(st.get_rate_counter("k").unwrap(), 0);
}

#[test]
fn counters_wrap_like_fixed_width_integers() {
    let mut st = fresh_store("wrap");
    st.incr_rate_counter("k", u64::MAX).unwrap();
    assert_eq!(st.incr_rate_counter("k", 3).unwrap(), 2);
}
