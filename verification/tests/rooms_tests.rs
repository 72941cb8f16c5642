//! Room messaging: sequencing, persistence, broadcast, and history.

use chat_core::bus::Bus;
use chat_core::record::decode_record;
use chat_core::rooms::{fetch_history, send_message};
use chat_core::store::Storage;

fn fresh_store(_tag: &str) -> Storage {
    Storage::new_in_memory().expect("open store")
}

#[test]
fn three_sends_then_history_of_two() {
    let mut st = fresh_store("scenario");
    let mut bus = Bus::new();
    send_message("general", "{\"text\":\"a\"}", &mut st, &mut bus).unwrap();
    send_message("general", "{\"text\":\"b\"}", &mut st, &mut bus).unwrap();
    send_message("general", "{\"text\":\"c\"}", &mut st, &mut bus).unwrap();
    let hist = fetch_history("general", None, 2, &st).unwrap();
    assert_eq!(hist.len(), 2);
    assert_eq!(hist[0].body, "{\"text\":\"b\"}");
    assert_eq!(hist[1].body, "{\"text\":\"c\"}");
}

#[test]
fn sequence_numbers_increase_without_gaps() {
    let mut st = fresh_store("seqs");
    let mut bus = Bus::new();
    let r1 = send_message("r", "{}", &mut st, &mut bus).unwrap();
    let r2 = send_message("r", "{}", &mut st, &mut bus).unwrap();
    let r3 = send_message("r", "{}", &mut st, &mut bus).unwrap();
    assert_eq!(r1.seq, 1);
    assert_eq!(r2.seq, 2);
    assert_eq!(r3.seq, 3);
    let other = send_message("elsewhere", "{}", &mut st, &mut bus).unwrap();
    assert_eq!(other.seq, 1);
}

#[test]
fn sent_records_carry_room_body_id_and_clock() {
    let mut st = fresh_store("fields");
    let mut bus = Bus::new();
    let r = send_message("general", "{\"text\":\"x\"}", &mut st, &mut bus).unwrap();
    assert_eq!(r.room, "general");
    assert_eq!(r.body, "{\"text\":\"x\"}");
    assert_eq!(r.id, format!("{}-{}", r.server_ts, r.seq));
    // the wall clock stands well past the epoch
    assert!(r.server_ts > 1_000_000_000);
}

#[test]
fn send_broadcasts_the_persisted_record() {
    let mut st = fresh_store("broadcast");
    let mut bus = Bus::new();
    let sub = bus.connect("room/general");
    let sent = send_message("general", "{\"text\":\"hi\"}", &mut st, &mut bus).unwrap();
    let (topic, payload) = bus.recv(&sub).expect("broadcast");
    assert_eq!(topic, "room/general");
    let chars: Vec<char> = payload.chars().collect();
    let rec = decode_record(&chars).expect("payload is a stored record");
    assert_eq!(rec.id, sent.id);
    assert_eq!(rec.seq, sent.seq);
    assert_eq!(rec.room, "general");
    assert_eq!(rec.body, "{\"text\":\"hi\"}");
}

#[test]
fn history_honours_the_after_filter() {
    let mut st = fresh_store("after");
    let mut bus = Bus::new();
    let r1 = send_message("r", "{\"n\":1}", &mut st, &mut bus).unwrap();
    let r2 = send_message("r", "{\"n\":2}", &mut st, &mut bus).unwrap();
    let all = fetch_history("r", Some(r1.server_ts - 1), 10, &st).unwrap();
    assert_eq!(all.len(), 2);
    let later = fetch_history("r", Some(r2.server_ts), 10, &st).unwrap();
    assert!(later.is_empty());
    let empty = fetch_history("empty-room", None, 10, &st).unwrap();
    assert!(empty.is_empty());
}
