use rumqttlog::connection::{ConnectionAck, Notification};
use rumqttlog::request::Config;
use rumqttlog::router::{Publish, Router};
use std::sync::Arc;

fn router(id: usize) -> Router {
    Router::new(Arc::new(Config {
        id,
        max_segment_size: 1024 * 1024,
        max_segment_count: 10,
        max_connections: 100,
        max_payload_per_read: 100,
    }))
}

fn publish(topic: &str, payload: Vec<u8>, pkid: u16) -> Publish {
    Publish { topic: topic.to_string(), payload, pkid }
}

fn drain(router: &mut Router, id: usize) -> Vec<Notification> {
    let mut out = Vec::new();
    while let Some(n) = router.recv(id) {
        out.push(n);
    }
    out
}

fn data_payloads(n: &Notification) -> Vec<Vec<u8>> {
    match n {
        Notification::Data(reply) => reply.payload.clone(),
        _ => panic!("expected data"),
    }
}

#[test]
fn acks_one_by_one_then_bulk() {
    let mut r = router(0);
    let id = r.connect("client-1".to_string(), 10).unwrap();
    match &drain(&mut r, id)[0] {
        Notification::ConnectionAck(ConnectionAck::Success(got)) => assert_eq!(*got, id),
        _ => panic!("expected connection ack"),
    }
    let mut pkids = Vec::new();
    for i in 0..1000u16 {
        assert_eq!(r.handle_data(id, vec![publish("hello/1/world", vec![1, 2, 3], i)]), 1);
        for n in drain(&mut r, id) {
            if let Notification::Acks(acks) = n {
                pkids.extend(acks.iter().map(|a| a.pkid));
            }
        }
    }
    assert_eq!(pkids, (0..1000u16).collect::<Vec<_>>());

    let batch: Vec<Publish> = (0..1000u16).map(|i| publish("hello/1/world", vec![1, 2, 3], i)).collect();
    assert_eq!(r.handle_data(id, batch), 1000);
    let notes = drain(&mut r, id);
    assert_eq!(notes.len(), 1);
    match &notes[0] {
        Notification::Acks(acks) => {
            assert_eq!(acks.len(), 1000);
            assert_eq!(acks[999].offset, (0, 1999));
        },
        _ => panic!("expected acks"),
    }
}

#[test]
fn wildcard_subscription_delivery() {
    let mut r = router(0);
    let c1 = r.connect("client-2".to_string(), 2).unwrap();
    let c2 = r.connect("client-3".to_string(), 2).unwrap();
    drain(&mut r, c1);
    drain(&mut r, c2);
    assert!(r.subscribe(c2, vec![("hello/+/world".to_string(), 1)], 1));
    let notes = drain(&mut r, c2);
    assert_eq!(notes.len(), 1);
    match &notes[0] {
        Notification::Acks(acks) => assert_eq!(acks.len(), 1),
        _ => panic!("expected acks"),
    }
    r.handle_data(c1, vec![publish("hello/1/world", vec![1, 2, 3], 1)]);
    r.handle_data(c1, vec![publish("hello/1/world", vec![4, 5, 6], 2)]);
    r.handle_data(c1, vec![publish("hello/2/world", vec![13, 14, 15], 4)]);
    r.handle_data(c1, vec![publish("hello/2/world", vec![16, 17, 18], 5)]);

    // Capacity 2: the topics notification and the first reply fill the outbox.
    assert_eq!(r.serve(c2), 1);
    let notes = drain(&mut r, c2);
    assert_eq!(notes.len(), 2);
    match &notes[0] {
        Notification::Topics(t) => assert_eq!(t, &vec!["hello/1/world".to_string(), "hello/2/world".to_string()]),
        _ => panic!("expected topics"),
    }
    assert_eq!(data_payloads(&notes[1]), vec![vec![1u8, 2, 3], vec![4u8, 5, 6]]);
    assert!(!r.is_ready(c2));
    assert_eq!(r.serve(c2), 0);
    r.ready(c2);
    assert_eq!(r.serve(c2), 1);
    let notes = drain(&mut r, c2);
    assert_eq!(notes.len(), 1);
    assert_eq!(data_payloads(&notes[0]), vec![vec![13u8, 14, 15], vec![16u8, 17, 18]]);

    assert_eq!(r.serve(c2), 0);
    r.handle_data(c1, vec![publish("hello/1/world", vec![7], 6)]);
    assert_eq!(r.serve(c2), 1);
    assert_eq!(data_payloads(&drain(&mut r, c2)[0]), vec![vec![7u8]]);
}

#[test]
fn refused_request_is_served_first_after_ready() {
    let mut r = router(0);
    let p = r.connect("client-4".to_string(), 10).unwrap();
    r.handle_data(p, vec![publish("a", vec![1], 1), publish("b", vec![2], 2)]);
    let s = r.connect("client-5".to_string(), 2).unwrap();
    r.subscribe(s, vec![("a".to_string(), 0), ("b".to_string(), 0)], 3);
    // Outbox holds the connection ack and the subscribe ack: full.
    assert_eq!(r.serve(s), 0);
    assert!(!r.is_ready(s));
    drain(&mut r, s);
    r.ready(s);
    assert_eq!(r.serve(s), 2);
    let notes = drain(&mut r, s);
    assert_eq!(data_payloads(&notes[0]), vec![vec![1u8]]);
    assert_eq!(data_payloads(&notes[1]), vec![vec![2u8]]);
}

#[test]
fn topics_starting_outside_ascii_match_no_filter() {
    let mut r = router(0);
    let p = r.connect("client-6".to_string(), 10).unwrap();
    r.handle_data(p, vec![publish("é/x", vec![1], 1), publish("a/x", vec![2], 2)]);
    let s = r.connect("client-7".to_string(), 10).unwrap();
    r.subscribe(s, vec![("+/x".to_string(), 0)], 3);
    drain(&mut r, s);
    assert_eq!(r.serve(s), 1);
    let notes = drain(&mut r, s);
    assert_eq!(data_payloads(&notes[0]), vec![vec![2u8]]);
}

#[test]
fn concrete_subscription_after_publish_gets_history() {
    let mut r = router(0);
    let p = r.connect("client-8".to_string(), 10).unwrap();
    r.handle_data(p, vec![publish("a/b", vec![1], 1), publish("a/c", vec![2], 2)]);
    let s = r.connect("client-9".to_string(), 10).unwrap();
    drain(&mut r, s);
    r.subscribe(s, vec![("a/b".to_string(), 0)], 3);
    drain(&mut r, s);
    assert_eq!(r.serve(s), 1);
    let notes = drain(&mut r, s);
    assert_eq!(notes.len(), 1);
    assert_eq!(data_payloads(&notes[0]), vec![vec![1u8]]);
}

#[test]
fn replication_peers_read_native_slot_only() {
    let mut r = router(0);
    r.handle_data(1, vec![publish("t", vec![1], 1)]);
    let local = r.connect("client-10".to_string(), 10).unwrap();
    r.handle_data(local, vec![publish("t", vec![2], 2)]);
    r.handle_data(2, vec![publish("t", vec![3], 3)]);
    drain(&mut r, local);
    r.subscribe(local, vec![("t".to_string(), 0)], 4);
    drain(&mut r, local);
    assert_eq!(r.serve(local), 1);
    assert_eq!(data_payloads(&drain(&mut r, local)[0]), vec![vec![2u8], vec![1u8], vec![3u8]]);
}

fn ack_pkids(notes: &[Notification]) -> Vec<u16> {
    let mut out = Vec::new();
    for n in notes {
        if let Notification::Acks(acks) = n {
            out.extend(acks.iter().map(|a| a.pkid));
        }
    }
    out
}

#[test]
fn full_outbox_holds_acks_until_ready() {
    let mut r = router(0);
    let c = r.connect("client-11".to_string(), 3).unwrap();
    r.handle_data(c, vec![publish("x", vec![1], 1)]);
    r.handle_data(c, vec![publish("x", vec![2], 2)]);
    assert!(r.is_ready(c));
    r.handle_data(c, vec![publish("x", vec![3], 3)]);
    assert!(!r.is_ready(c));
    let first = drain(&mut r, c);
    assert_eq!(first.len(), 3);
    r.handle_data(c, vec![publish("x", vec![4], 4)]);
    assert!(r.recv(c).is_none());
    r.ready(c);
    let held = drain(&mut r, c);
    assert_eq!(held.len(), 1);
    assert_eq!(ack_pkids(&held), vec![3, 4]);
    r.handle_data(c, vec![publish("x", vec![5], 5)]);
    let last = drain(&mut r, c);
    assert_eq!(ack_pkids(&last), vec![5]);
    assert_eq!(ack_pkids(&first), vec![1, 2]);
}

#[test]
fn no_ack_is_lost_under_backpressure() {
    let mut r = router(0);
    let c = r.connect("client-12".to_string(), 3).unwrap();
    let mut pkids = Vec::new();
    for i in 0..2000u16 {
        r.handle_data(c, vec![publish("hello/1/world", vec![1, 2, 3], i)]);
        if i % 7 == 0 {
            pkids.extend(ack_pkids(&drain(&mut r, c)));
            r.ready(c);
        }
    }
    pkids.extend(ack_pkids(&drain(&mut r, c)));
    r.ready(c);
    pkids.extend(ack_pkids(&drain(&mut r, c)));
    assert_eq!(pkids, (0..2000u16).collect::<Vec<_>>());
}

#[test]
fn duplicate_client_id_is_refused() {
    let mut r = router(0);
    let first = r.connect("1".to_string(), 10).unwrap();
    match r.connect("1".to_string(), 10) {
        Err(ConnectionAck::Failure(_)) => {},
        _ => panic!("expected failure"),
    }
    let second = r.connect("2".to_string(), 10).unwrap();
    assert_eq!(second, first + 1);
}

#[test]
fn disconnect_drops_state_and_frees_client_id() {
    let mut r = router(0);
    let p = r.connect("p".to_string(), 10).unwrap();
    let s = r.connect("s".to_string(), 10).unwrap();
    r.subscribe(s, vec![("a".to_string(), 0)], 1);
    r.handle_data(p, vec![publish("a", vec![1], 1)]);
    r.disconnect(s);
    assert!(!r.is_ready(s));
    assert!(r.recv(s).is_none());
    assert_eq!(r.serve(s), 0);
    r.ready(s);
    assert!(!r.is_ready(s));
    let again = r.connect("s".to_string(), 10).unwrap();
    assert_eq!(again, s + 1);
}
