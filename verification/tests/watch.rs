use bytes::Bytes;
use hatp_engine::{Mutation, WatchEvent, Watcher};

/// Publishes an empty-mutation commit (test helper).
fn publish(watcher: &mut Watcher, tx_id: u64, commit_ts: u64) -> Option<WatchEvent> {
    watcher.publish(tx_id, commit_ts, Vec::new())
}

#[test]
fn wait_for_resolved_returns_immediately_when_already_resolved() {
    let watcher = Watcher::new(4);
    let resolved = watcher.wait_for_resolved(4).expect("resolved");
    assert_eq!(resolved, 4);
}

#[test]
fn wait_for_resolved_wakes_on_new_commit() {
    let mut watcher = Watcher::new(0);
    assert!(watcher.wait_for_resolved(3).is_none());
    publish(&mut watcher, 10, 3);
    let resolved = watcher.wait_for_resolved(3).expect("waiter joins");
    assert!(
        resolved >= 3,
        "waiter must observe a watermark >= 3, got {resolved}"
    );
}

#[test]
fn resolved_is_monotonic_under_out_of_order_publish() {
    let mut watcher = Watcher::new(0);
    publish(&mut watcher, 1, 5);
    publish(&mut watcher, 2, 3); // out of order: must not regress the watermark
    assert_eq!(watcher.resolved_ts(), 5);
}

#[test]
fn subscribe_streams_events_in_order() {
    let mut watcher = Watcher::new(0);
    watcher.set_subscribers(1);
    let mut stream = Vec::new();
    stream.extend(publish(&mut watcher, 1, 1));
    stream.extend(publish(&mut watcher, 2, 2));
    let mut stream = stream.into_iter();
    let first = stream.next().expect("first event");
    let second = stream.next().expect("second event");
    assert_eq!(first.commit_ts, 1);
    assert_eq!(second.commit_ts, 2);
}

#[test]
fn without_a_subscriber_no_event_is_made() {
    let mut watcher = Watcher::new(0);
    assert!(publish(&mut watcher, 1, 1).is_none());
    watcher.publish_empty(2, 6);
    assert_eq!(watcher.resolved_ts(), 6);
    assert!(!watcher.has_subscribers());
    watcher.set_subscribers(2);
    let put = Mutation::Put { key: Bytes::from_static(b"k"), value: Bytes::from_static(b"v") };
    let event = watcher.publish(3, 7, vec![put]).expect("event");
    assert_eq!(event.tx_id, 3);
    assert_eq!(event.mutations.len(), 1);
    assert_eq!(event.mutations[0].key().as_ref(), b"k");
}
