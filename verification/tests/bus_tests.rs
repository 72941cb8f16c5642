//! Bus behaviour: no replay before connect, delivery after connect,
//! bounded queues, and the wire framing.

use chat_core::bus::{frame_decode, frame_encode, Bus, QUEUE_CAP};

#[test]
fn publish_before_connect_is_not_replayed() {
    let mut bus = Bus::new();
    bus.publish("room/x", &"early".to_string());
    let sub = bus.connect("room/x");
    assert_eq!(bus.recv(&sub), None);
}

#[test]
fn publish_after_connect_is_observed_with_matching_payload() {
    let mut bus = Bus::new();
    let sub = bus.connect("room/x");
    bus.publish("room/x", &"hello".to_string());
    let (topic, payload) = bus.recv(&sub).expect("pending message");
    assert_eq!(topic, "room/x");
    assert_eq!(payload, "hello");
    assert_eq!(bus.recv(&sub), None);
}

#[test]
fn topics_are_isolated() {
    let mut bus = Bus::new();
    let sa = bus.connect("a");
    let sb = bus.connect("b");
    bus.publish("a", &"for a".to_string());
    assert_eq!(bus.recv(&sb), None);
    assert_eq!(bus.recv(&sa), Some(("a".to_string(), "for a".to_string())));
}

#[test]
fn every_subscriber_of_a_topic_gets_the_payload() {
    let mut bus = Bus::new();
    let s1 = bus.connect("t");
    let s2 = bus.connect("t");
    bus.publish("t", &"fanout".to_string());
    assert_eq!(bus.recv(&s1).unwrap().1, "fanout");
    assert_eq!(bus.recv(&s2).unwrap().1, "fanout");
}

#[test]
fn publish_with_no_subscribers_succeeds() {
    let mut bus = Bus::new();
    bus.publish("empty", &"dropped".to_string());
    let sub = bus.connect("empty");
    assert_eq!(bus.recv(&sub), None);
}

#[test]
fn lagging_subscriber_loses_oldest_first() {
    let mut bus = Bus::new();
    let sub = bus.connect("t");
    for i in 0..(QUEUE_CAP + 1) {
        bus.publish("t", &format!("m{}", i));
    }
    let (_, first) = bus.recv(&sub).unwrap();
    assert_eq!(first, "m1");
}

#[test]
fn frame_round_trips() {
    let topic: Vec<u8> = b"room/x".to_vec();
    let payload: Vec<u8> = vec![1, 2, 0, 3, 255];
    let frame = frame_encode(&topic, &payload);
    let (t, p) = frame_decode(&frame);
    assert_eq!(t, topic);
    assert_eq!(p, payload);
}

#[test]
fn frame_without_separator_is_all_payload() {
    let frame: Vec<u8> = vec![10, 20, 30];
    let (t, p) = frame_decode(&frame);
    assert!(t.is_empty());
    assert_eq!(p, vec![10, 20, 30]);
}
