use ciqadamq::msgstore::{approx_size, now_millis, Publish, RedbMessageStore, StoredMsg};

fn publish(topic: &str, payload: &[u8]) -> Publish {
    Publish { topic: topic.to_string(), payload: payload.to_vec(), properties: vec![7] }
}

fn stored(topic: &str, expiry_at: i64) -> StoredMsg {
    StoredMsg {
        from: vec![1],
        publish: publish(topic, b"p"),
        expiry_at,
        delivered_to: Vec::new(),
    }
}

fn empty(max_msgs: usize, max_bytes: usize) -> RedbMessageStore {
    RedbMessageStore::open(Vec::new(), 1, 0, max_msgs, max_bytes)
}

fn ids(store: &mut RedbMessageStore, client: &str, filter: &str, now: i64) -> Vec<u64> {
    store.get(client, filter, now).iter().map(|d| d.msg_id).collect()
}

#[test]
fn size_is_payload_topic_and_overhead() {
    let m = stored("chat/u1", 0);
    assert_eq!(approx_size(&m), 1 + 7 + 384);
    let mut m = stored("\u{e9}", 0);
    m.publish.payload = vec![0; 10];
    assert_eq!(approx_size(&m), 10 + 2 + 384);
}

#[test]
fn stored_message_is_handed_out_as_it_was() {
    let mut s = empty(0, 0);
    s.store(5, vec![9, 9], publish("chat/u3000/m/all", b"queued-msg"), 100, 2000, None);
    let got = s.get("devE", "chat/u3000/m/all", 600);
    assert_eq!(got.len(), 1);
    assert_eq!(got[0].msg_id, 5);
    assert_eq!(got[0].from, vec![9, 9]);
    assert_eq!(got[0].publish.topic, "chat/u3000/m/all");
    assert_eq!(got[0].publish.payload, b"queued-msg".to_vec());
    assert_eq!(got[0].publish.properties, vec![7]);
}

#[test]
fn expired_message_is_not_handed_out() {
    let mut s = empty(0, 0);
    s.store(1, vec![], publish("chat/u3000/m/all", b"expired-msg"), 0, 2000, None);
    assert_eq!(s.count(1999), 1);
    assert_eq!(s.count(2000), 0);
    assert_eq!(ids(&mut s, "devE", "#", 2000), Vec::<u64>::new());
}

#[test]
fn message_is_handed_out_once_per_client() {
    let mut s = empty(0, 0);
    s.store(1, vec![], publish("a/b", b""), 0, 1000, None);
    assert_eq!(ids(&mut s, "one", "a/b", 1), vec![1]);
    assert_eq!(ids(&mut s, "one", "a/b", 2), Vec::<u64>::new());
    assert_eq!(ids(&mut s, "one", "#", 3), Vec::<u64>::new());
    assert_eq!(ids(&mut s, "two", "a/+", 4), vec![1]);
}

#[test]
fn subscribers_that_have_a_message_are_not_owed_it() {
    let mut s = empty(0, 0);
    s.store(1, vec![], publish("a", b""), 0, 1000, Some(vec!["one".to_string()]));
    assert_eq!(ids(&mut s, "one", "a", 1), Vec::<u64>::new());
    assert_eq!(ids(&mut s, "two", "a", 1), vec![1]);
}

#[test]
fn filter_that_does_not_match_leaves_the_message() {
    let mut s = empty(0, 0);
    s.store(1, vec![], publish("a/b", b""), 0, 1000, None);
    assert_eq!(ids(&mut s, "one", "a/c", 1), Vec::<u64>::new());
    assert_eq!(ids(&mut s, "one", "a/b", 1), vec![1]);
}

#[test]
fn message_limit_drops_the_oldest() {
    let mut s = empty(2, 0);
    for id in 1..=3u64 {
        s.store(id, vec![], publish("t", b""), 0, 1000, None);
    }
    assert_eq!(s.count(0), 2);
    assert_eq!(ids(&mut s, "c", "t", 0), vec![2, 3]);
}

#[test]
fn byte_limit_drops_the_oldest() {
    let size = 384 + 1;
    let mut s = empty(0, 2 * size);
    for id in 1..=3u64 {
        s.store(id, vec![], publish("t", b""), 0, 1000, None);
    }
    assert_eq!(ids(&mut s, "c", "t", 0), vec![2, 3]);
    let mut s = empty(0, size - 1);
    s.store(1, vec![], publish("t", b""), 0, 1000, None);
    assert_eq!(s.count(0), 0);
}

#[test]
fn storing_again_replaces_and_keeps_the_place() {
    let mut s = empty(0, 0);
    s.store(1, vec![], publish("t", b"old"), 0, 1000, None);
    s.store(2, vec![], publish("t", b"two"), 0, 1000, None);
    s.store(1, vec![], publish("t", b"new"), 0, 1000, None);
    let got = s.get("c", "t", 0);
    assert_eq!(got.len(), 2);
    assert_eq!(got[0].publish.payload, b"new".to_vec());
    assert_eq!(got[1].msg_id, 2);
}

#[test]
fn lifetime_is_added_without_overflow() {
    let mut s = empty(0, 0);
    s.store(1, vec![], publish("t", b""), i64::MAX - 1, 1000, None);
    assert_eq!(s.count(i64::MAX - 1), 1);
    assert_eq!(s.count(i64::MAX), 0);
}

#[test]
fn ids_have_the_node_and_a_counter() {
    let mut s = RedbMessageStore::open(Vec::new(), 3, 0, 0, 0);
    assert_eq!(s.next_msg_id(), 3 << 48);
    assert_eq!(s.next_msg_id(), (3 << 48) | 1);
    assert_eq!(s.next_msg_id(), (3 << 48) | 2);
}

#[test]
fn counter_starts_behind_the_ids_on_disk() {
    let rows = vec![
        ((3u64 << 48) | 41, None),
        ((2u64 << 48) | 99, Some(stored("t", 10))),
        ((3u64 << 48) | 7, Some(stored("t", 10))),
    ];
    let mut s = RedbMessageStore::open(rows, 3, 0, 0, 0);
    assert_eq!(s.next_msg_id(), (3 << 48) | 42);
}

#[test]
fn opening_loads_what_has_not_expired_in_expiry_order() {
    let rows = vec![
        (1, Some(stored("t", 30))),
        (2, Some(stored("t", 10))),
        (3, Some(stored("t", 20))),
        (4, Some(stored("t", 5))),
        (5, Some(stored("t", 20))),
        (6, None),
    ];
    let mut s = RedbMessageStore::open(rows, 1, 5, 0, 0);
    assert_eq!(s.count(5), 4);
    let f = s.flush(5);
    assert!(f.batch.is_empty() && f.removed.is_empty());
    assert_eq!(ids(&mut s, "c", "t", 5), vec![2, 3, 5, 1]);
}

#[test]
fn flush_tells_the_disk_what_changed() {
    let mut s = empty(0, 0);
    s.store(1, vec![], publish("t", b"a"), 0, 10, None);
    s.store(2, vec![], publish("t", b"b"), 0, 100, None);
    let f = s.flush(0);
    let written: Vec<u64> = f.batch.iter().map(|(id, _)| *id).collect();
    assert_eq!(written, vec![1, 2]);
    assert!(f.removed.is_empty());
    let f = s.flush(0);
    assert!(f.batch.is_empty() && f.removed.is_empty());
    s.get("c", "t", 20);
    let f = s.flush(20);
    assert_eq!(f.removed, vec![1]);
    assert_eq!(f.batch.len(), 1);
    assert_eq!(f.batch[0].0, 2);
    assert_eq!(f.batch[0].1.delivered_to, vec!["c".to_string()]);
}

#[test]
fn message_that_never_reached_the_disk_is_removed_all_the_same() {
    let mut s = empty(1, 0);
    s.store(1, vec![], publish("t", b""), 0, 1000, None);
    s.store(2, vec![], publish("t", b""), 0, 1000, None);
    let f = s.flush(0);
    assert_eq!(f.removed, vec![1]);
    assert_eq!(f.batch.len(), 1);
}

#[test]
fn reopening_gives_the_queue_back() {
    let mut s = empty(0, 0);
    s.store(1, vec![4], publish("t", b"a"), 0, 10, None);
    s.store(2, vec![5], publish("t", b"b"), 0, 100, None);
    s.get("c", "t", 1);
    let f = s.flush(1);
    let rows: Vec<(u64, Option<StoredMsg>)> =
        f.batch.into_iter().map(|(id, m)| (id, Some(m))).collect();
    let mut again = RedbMessageStore::open(rows, 1, 50, 0, 0);
    assert_eq!(again.count(50), 1);
    assert_eq!(ids(&mut again, "c", "t", 50), Vec::<u64>::new());
    assert_eq!(ids(&mut again, "d", "t", 50), vec![2]);
}

#[test]
fn store_is_on_and_does_not_merge() {
    let s = empty(0, 0);
    assert!(s.enable());
    assert!(!s.should_merge_on_get());
}

#[test]
fn clock_before_the_epoch_is_zero() {
    assert_eq!(now_millis(Some(1234)), 1234);
    assert_eq!(now_millis(None), 0);
}

#[test]
fn message_within_the_limits_is_kept_until_it_expires() {
    let mut s = empty(2, 2 * (384 + 1));
    s.store(1, vec![], publish("t", b""), 0, 1000, None);
    s.store(2, vec![], publish("t", b""), 0, 1000, None);
    assert_eq!(ids(&mut s, "c", "t", 999), vec![1, 2]);
    s.store(3, vec![], publish("t", b""), 999, 0, None);
    assert_eq!(ids(&mut s, "d", "t", 999), vec![2]);
}

#[test]
fn endless_message_lives_to_the_last_moment() {
    let mut s = empty(0, 0);
    s.store(1, vec![], publish("t", b""), 5, i64::MAX as u128, None);
    assert_eq!(s.count(i64::MAX - 1), 1);
    assert_eq!(s.count(i64::MAX), 0);
}
