use rumqttlog::connection::{Connection, Notification, Push};
use rumqttlog::subscriptions::Subscription;
use rumqttlog::topics::TopicsIndex;

fn names(v: &[&str]) -> Vec<String> {
    v.iter().map(|s| s.to_string()).collect()
}

#[test]
fn wildcard_subscription_tracks_matching_topics_from_start() {
    let mut s = Subscription::new();
    assert_eq!(s.count(), 0);
    let topics = names(&["hello/1/world", "hello/2/world", "other/1/world"]);
    let (first, out) = s.add_subscripiton(vec![("hello/+/world".to_string(), 1)], &topics);
    assert!(first);
    assert_eq!(out.len(), 2);
    assert_eq!(out[0], ("hello/1/world".to_string(), 1, [(0, 0); 3]));
    assert_eq!(out[1], ("hello/2/world".to_string(), 1, [(0, 0); 3]));
    assert_eq!(s.count(), 1);

    let (first, out) = s.add_subscripiton(vec![("hello/#".to_string(), 0)], &topics);
    assert!(!first);
    assert!(out.is_empty());
}

#[test]
fn concrete_subscription_after_publish() {
    let mut s = Subscription::new();
    let topics = names(&["a/b", "a/c"]);
    let (_, out) = s.add_subscripiton(vec![("a/b".to_string(), 0)], &topics);
    assert_eq!(out.len(), 1);
    assert_eq!(out[0].0, "a/b");
}

#[test]
fn concrete_filter_twice_counts_once() {
    let mut s = Subscription::new();
    s.add_subscripiton(vec![("a/b".to_string(), 0), ("a/b".to_string(), 1)], &[]);
    assert_eq!(s.count(), 1);
}

#[test]
fn new_topics_are_matched_once() {
    let mut s = Subscription::new();
    s.add_subscripiton(vec![("a/b".to_string(), 0), ("x/+".to_string(), 1)], &[]);
    let n = s.track_matched_topics(&names(&["a/b", "x/y", "x/y/z", "a/c", "x/y"]));
    assert_eq!(n, 2);
    let r = s.pop_data_request().unwrap();
    assert_eq!(r.topic, "a/b");
    assert_eq!(r.cursors, [(0, 0); 3]);
    let r = s.pop_data_request().unwrap();
    assert_eq!(r.topic, "x/y");
    assert!(s.pop_data_request().is_none());
    assert_eq!(s.track_matched_topics(&names(&["a/b", "x/y"])), 0);
}

#[test]
fn data_requests_are_fifo() {
    let mut s = Subscription::new();
    s.push_data_request(rumqttlog::request::DataRequest::new("one".to_string()));
    s.push_data_request(rumqttlog::request::DataRequest::new("two".to_string()));
    s.register_topics_request(4);
    s.register_topics_request(7);
    assert_eq!(s.pop_data_request().unwrap().topic, "one");
    assert_eq!(s.pop_data_request().unwrap().topic, "two");
    assert!(s.pop_data_request().is_none());
}

#[test]
fn topics_index_dedups_and_snapshots() {
    let mut t = TopicsIndex::new();
    assert!(t.insert_if_new(&"a".to_string()));
    assert!(t.insert_if_new(&"b".to_string()));
    assert!(!t.insert_if_new(&"a".to_string()));
    assert!(t.insert_if_new(&"c".to_string()));
    assert_eq!(t.len(), 3);
    assert_eq!(t.snapshot_from(1), (3, names(&["b", "c"])));
    assert_eq!(t.snapshot_from(3), (3, Vec::<String>::new()));
    assert_eq!(t.snapshot_from(9), (3, Vec::<String>::new()));
}

#[test]
fn outbox_never_exceeds_capacity_until_ready() {
    let mut c = Connection::new("c".to_string(), 10, 3);
    for _ in 0..3 {
        assert!(c.push(Notification::Pause) == Push::Accepted);
    }
    assert!(c.push(Notification::Pause) == Push::Full);
    assert!(!c.ready());
    assert_eq!(c.len(), 3);
    assert!(c.recv().is_some());
    assert!(c.push(Notification::Pause) == Push::Full);
    assert_eq!(c.len(), 2);
    c.mark_ready();
    assert!(c.push(Notification::Pause) == Push::Accepted);
    assert_eq!(c.len(), 3);
}
