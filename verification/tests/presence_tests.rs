//! Presence behaviour: heartbeat, explicit offline, guest identities,
//! and the staleness sweep with its offline announcements.

use chat_core::bus::Bus;
use chat_core::presence::{heartbeat, heartbeat_at, mark_offline, presence_sweep};
use chat_core::store::Storage;

fn fresh_store(_tag: &str) -> Storage {
    Storage::new_in_memory().expect("open store")
}

#[test]
fn heartbeat_marks_online_and_announces() {
    let mut st = fresh_store("hb");
    let mut bus = Bus::new();
    let sub = bus.connect("presence/online");
    heartbeat_at(&mut st, &mut bus, "u1", 100).unwrap();
    assert_eq!(st.get_presence("u1").unwrap(), Some(100));
    let (topic, payload) = bus.recv(&sub).expect("announcement");
    assert_eq!(topic, "presence/online");
    assert_eq!(payload, "{\"user_id\":\"u1\",\"last_seen\":100}");
    // refresh is idempotent on the row
    heartbeat_at(&mut st, &mut bus, "u1", 200).unwrap();
    assert_eq!(st.get_presence("u1").unwrap(), Some(200));
}

#[test]
fn mark_offline_removes_row_and_announces() {
    let mut st = fresh_store("off");
    let mut bus = Bus::new();
    heartbeat_at(&mut st, &mut bus, "u1", 100).unwrap();
    let sub = bus.connect("presence/offline");
    mark_offline(&mut st, &mut bus, "u1").unwrap();
    assert_eq!(st.get_presence("u1").unwrap(), None);
    let (topic, payload) = bus.recv(&sub).expect("announcement");
    assert_eq!(topic, "presence/offline");
    assert!(payload.starts_with("{\"user_id\":\"u1\",\"last_seen\":"));
}

#[test]
fn heartbeat_synthesizes_guest_identities() {
    let mut st = fresh_store("guest");
    let mut bus = Bus::new();
    let id = heartbeat(&mut st, &mut bus, None).unwrap();
    assert_eq!(id.chars().count(), 41);
    assert!(id.starts_with("anon-"));
    assert!(st.get_presence(&id).unwrap().is_some());
    let named = heartbeat(&mut st, &mut bus, Some("u9".to_string())).unwrap();
    assert_eq!(named, "u9");
}

#[test]
fn sweep_reclaims_stale_users_and_announces() {
    let mut st = fresh_store("sweep");
    let mut bus = Bus::new();
    heartbeat_at(&mut st, &mut bus, "stale_user", 100).unwrap();
    heartbeat_at(&mut st, &mut bus, "fresh_user", 990).unwrap();
    let sub = bus.connect("presence/offline");
    presence_sweep(&mut st, &mut bus, 1000, 60).unwrap();
    assert_eq!(st.get_presence("stale_user").unwrap(), None);
    assert_eq!(st.get_presence("fresh_user").unwrap(), Some(990));
    let (topic, payload) = bus.recv(&sub).expect("offline announcement");
    assert_eq!(topic, "presence/offline");
    assert_eq!(payload, "{\"user_id\":\"stale_user\",\"last_seen\":100}");
    assert_eq!(bus.recv(&sub), None);
}

#[test]
fn sweep_with_no_stale_users_announces_nothing() {
    let mut st = fresh_store("sweep_none");
    let mut bus = Bus::new();
    heartbeat_at(&mut st, &mut bus, "u1", 990).unwrap();
    let sub = bus.connect("presence/offline");
    presence_sweep(&mut st, &mut bus, 1000, 60).unwrap();
    assert_eq!(st.get_presence("u1").unwrap(), Some(990));
    assert_eq!(bus.recv(&sub), None);
}

#[test]
fn presence_event_escapes_quoted_identities() {
    let mut st = fresh_store("esc");
    let mut bus = Bus::new();
    let sub = bus.connect("presence/online");
    heartbeat_at(&mut st, &mut bus, "u\"1\\x", 5).unwrap();
    let (_, payload) = bus.recv(&sub).expect("announcement");
    assert_eq!(payload, "{\"user_id\":\"u\\\"1\\\\x\",\"last_seen\":5}");
}
