use gossip_lww::order::greater;
use gossip_lww::store::{Entry, Store};

fn entry(key: &str, ts: i64, node_id: u16, value: f64) -> Entry {
    Entry { key: key.to_string(), ts, node_id, value: value.to_bits() }
}

fn sorted(mut v: Vec<Entry>) -> Vec<Entry> {
    v.sort_by(|a, b| a.key.cmp(&b.key));
    v
}

#[test]
fn greater_prefers_later_timestamp() {
    assert!(greater(200, 1, 100, 9));
    assert!(!greater(100, 9, 200, 1));
}

#[test]
fn greater_breaks_ties_by_writer() {
    assert!(greater(100, 2, 100, 1));
    assert!(!greater(100, 1, 100, 2));
}

#[test]
fn greater_is_irreflexive() {
    assert!(!greater(100, 1, 100, 1));
    assert!(!greater(0, 0, 0, 0));
}

#[test]
fn greater_orders_any_two_distinct_versions() {
    let versions = [(100i64, 1u16), (100, 2), (200, 1), (50, 7)];
    for &(t1, w1) in &versions {
        for &(t2, w2) in &versions {
            if (t1, w1) == (t2, w2) {
                assert!(!greater(t1, w1, t2, w2));
            } else {
                assert!(greater(t1, w1, t2, w2) != greater(t2, w2, t1, w1));
            }
        }
    }
}

#[test]
fn put_installs_new_key() {
    let mut s = Store::new();
    s.put("k".to_string(), 100, 1, 5.0f64.to_bits());
    let snap = s.snapshot();
    assert_eq!(snap, vec![entry("k", 100, 1, 5.0)]);
}

#[test]
fn put_keeps_newer_register() {
    let mut s = Store::new();
    s.put("k".to_string(), 200, 1, 1.0f64.to_bits());
    s.put("k".to_string(), 150, 9, 999.0f64.to_bits());
    assert_eq!(s.snapshot(), vec![entry("k", 200, 1, 1.0)]);
}

#[test]
fn tie_break_converges_to_larger_writer() {
    let mut a = Store::new();
    let mut b = Store::new();
    a.put("k".to_string(), 100, 1, 5.0f64.to_bits());
    b.put("k".to_string(), 100, 2, 9.0f64.to_bits());
    let snap_a = a.snapshot();
    let snap_b = b.snapshot();
    a.merge_many(snap_b);
    b.merge_many(snap_a);
    assert_eq!(a.snapshot(), vec![entry("k", 100, 2, 9.0)]);
    assert_eq!(b.snapshot(), vec![entry("k", 100, 2, 9.0)]);
}

#[test]
fn stale_overwrite_is_dropped() {
    let mut s = Store::new();
    s.put("k".to_string(), 200, 1, 1.0f64.to_bits());
    s.merge_many(vec![entry("k", 150, 9, 999.0)]);
    assert_eq!(s.snapshot(), vec![entry("k", 200, 1, 1.0)]);
}

#[test]
fn empty_merge_leaves_store_unchanged() {
    let mut s = Store::new();
    s.put("a".to_string(), 1, 1, 1.5f64.to_bits());
    s.put("b".to_string(), 2, 2, 2.5f64.to_bits());
    let before = s.snapshot();
    s.merge_many(Vec::new());
    assert_eq!(s.snapshot(), before);
}

#[test]
fn merge_is_idempotent() {
    let batch = vec![entry("a", 10, 1, 1.0), entry("b", 5, 2, 2.0)];
    let mut once = Store::new();
    once.put("a".to_string(), 7, 3, 3.0f64.to_bits());
    let mut twice = Store::new();
    twice.put("a".to_string(), 7, 3, 3.0f64.to_bits());
    once.merge_many(batch.clone());
    twice.merge_many(batch.clone());
    twice.merge_many(batch);
    assert_eq!(sorted(once.snapshot()), sorted(twice.snapshot()));
}

#[test]
fn merge_is_commutative() {
    let batch_a = vec![entry("x", 10, 1, 1.0), entry("y", 5, 2, 2.0)];
    let batch_b = vec![entry("x", 10, 2, 3.0), entry("z", 1, 1, 4.0)];
    let mut ab = Store::new();
    let mut ba = Store::new();
    ab.merge_many(batch_a.clone());
    ab.merge_many(batch_b.clone());
    ba.merge_many(batch_b);
    ba.merge_many(batch_a);
    assert_eq!(sorted(ab.snapshot()), sorted(ba.snapshot()));
}

#[test]
fn three_replicas_converge() {
    let mut nodes = [Store::new(), Store::new(), Store::new()];
    nodes[0].put("k1".to_string(), 10, 7001, 1.0f64.to_bits());
    nodes[1].put("k1".to_string(), 12, 7002, 2.0f64.to_bits());
    nodes[2].put("k2".to_string(), 3, 7003, 3.0f64.to_bits());
    nodes[1].put("k3".to_string(), 8, 7002, 4.0f64.to_bits());
    let snaps: Vec<Vec<Entry>> = nodes.iter().map(|n| n.snapshot()).collect();
    for (i, node) in nodes.iter_mut().enumerate() {
        for (j, snap) in snaps.iter().enumerate() {
            if i != j {
                node.merge_many(snap.clone());
            }
        }
    }
    let expect = sorted(vec![
        entry("k1", 12, 7002, 2.0),
        entry("k2", 3, 7003, 3.0),
        entry("k3", 8, 7002, 4.0),
    ]);
    for node in &nodes {
        assert_eq!(sorted(node.snapshot()), expect);
    }
}

#[test]
fn redelivery_in_any_order_converges() {
    let batch_a = vec![entry("k", 100, 1, 5.0)];
    let batch_b = vec![entry("k", 100, 2, 9.0)];
    let mut s = Store::new();
    s.merge_many(batch_b.clone());
    s.merge_many(batch_a.clone());
    s.merge_many(batch_b.clone());
    s.merge_many(batch_a);
    assert_eq!(s.snapshot(), vec![entry("k", 100, 2, 9.0)]);
}

#[test]
fn snapshot_of_empty_store_is_empty() {
    let s = Store::new();
    assert_eq!(s.snapshot(), Vec::new());
}
