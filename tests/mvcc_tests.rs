use deepgraph::deadlock::{DeadlockDetector, LockError, ResourceId};
use deepgraph::error::DeepGraphError;
use deepgraph::graph::Node;
use deepgraph::mvcc::{Snapshot, TransactionId, TransactionManager, Version, VersionChain, VersionedNodes};

#[test]
fn test_version_creation() {
    let version = Version::new("data".to_string(), TransactionId(1), 100);
    assert_eq!(version.data, "data");
    assert_eq!(version.xmin.0, 1);
    assert!(version.xmax.is_none());
    assert_eq!(version.created_at, 100);
}

#[test]
fn version_test_version_visibility() {
    let version = Version::new("data".to_string(), TransactionId(1), 100);
    assert!(!version.is_visible(99));
    assert!(version.is_visible(100));
    assert!(version.is_visible(101));
}

#[test]
fn test_version_deletion() {
    let mut version = Version::new("data".to_string(), TransactionId(1), 100);
    version.mark_deleted(TransactionId(2), 200);
    assert!(version.is_visible(150));
    assert!(!version.is_visible(200));
    assert!(!version.is_visible(250));
}

#[test]
fn test_version_chain() {
    let mut chain: VersionChain<String> = VersionChain::new();
    chain.add_version(Version::new("v1".to_string(), TransactionId(1), 100));
    chain.add_version(Version::new("v2".to_string(), TransactionId(2), 200));
    assert_eq!(chain.version_count(), 2);
    assert_eq!(chain.get_visible_version(150).cloned(), Some("v1".to_string()));
    assert_eq!(chain.get_visible_version(250).cloned(), Some("v2".to_string()));
}

#[test]
fn test_version_chain_deletion() {
    let mut chain: VersionChain<String> = VersionChain::new();
    chain.add_version(Version::new("v1".to_string(), TransactionId(1), 100));
    chain.mark_latest_deleted(TransactionId(2), 200);
    assert_eq!(chain.get_visible_version(150).cloned(), Some("v1".to_string()));
    assert_eq!(chain.get_visible_version(200), None);
    assert_eq!(chain.get_latest_active(), None);
}

#[test]
fn test_garbage_collection() {
    let mut chain: VersionChain<String> = VersionChain::new();
    let mut v1 = Version::new("v1".to_string(), TransactionId(1), 100);
    v1.mark_deleted(TransactionId(2), 150);
    chain.add_version(v1);
    chain.add_version(Version::new("v2".to_string(), TransactionId(2), 200));
    assert_eq!(chain.version_count(), 2);
    chain.gc(140);
    assert_eq!(chain.version_count(), 2);
    chain.gc(180);
    assert_eq!(chain.version_count(), 1);
}

#[test]
fn snapshot_test_snapshot_creation() {
    let snapshot = Snapshot::new(10, vec![TransactionId(5), TransactionId(7)]);
    assert_eq!(snapshot.timestamp, 10);
    assert_eq!(snapshot.active_txns.len(), 2);
}

#[test]
fn test_txn_visibility() {
    let snapshot = Snapshot::new(10, vec![TransactionId(5)]);
    assert!(snapshot.is_txn_visible(TransactionId(3)));
    assert!(!snapshot.is_txn_visible(TransactionId(5)));
    assert!(!snapshot.is_txn_visible(TransactionId(15)));
}

#[test]
fn snapshot_test_version_visibility() {
    let snapshot = Snapshot::new(10, vec![]);
    assert!(snapshot.is_version_visible(TransactionId(5), None));
    assert!(snapshot.is_version_visible(TransactionId(5), Some(TransactionId(15))));
    assert!(!snapshot.is_version_visible(TransactionId(15), None));
    assert!(!snapshot.is_version_visible(TransactionId(3), Some(TransactionId(7))));
}

#[test]
fn test_txn_manager_creation() {
    let manager = TransactionManager::new();
    assert_eq!(manager.active_count(), 0);
}

#[test]
fn test_begin_transaction() {
    let mut manager = TransactionManager::new();
    let (txn_id, _snapshot) = manager.begin_transaction().unwrap();
    assert!(manager.is_active(txn_id));
    assert_eq!(manager.active_count(), 1);
}

#[test]
fn test_commit_transaction() {
    let mut manager = TransactionManager::new();
    let (txn_id, _snapshot) = manager.begin_transaction().unwrap();
    assert!(manager.is_active(txn_id));
    let commit_ts = manager.commit_transaction(txn_id).unwrap();
    assert!(commit_ts > 0);
    assert!(!manager.is_active(txn_id));
    assert_eq!(manager.active_count(), 0);
}

#[test]
fn test_abort_transaction() {
    let mut manager = TransactionManager::new();
    let (txn_id, _snapshot) = manager.begin_transaction().unwrap();
    manager.abort_transaction(txn_id).unwrap();
    assert!(!manager.is_active(txn_id));
    assert!(manager.abort_transaction(txn_id).is_err());
    assert!(manager.commit_transaction(TransactionId(99)).is_err());
}

#[test]
fn test_multiple_transactions() {
    let mut manager = TransactionManager::new();
    let (txn1, _) = manager.begin_transaction().unwrap();
    let (txn2, _) = manager.begin_transaction().unwrap();
    let (txn3, _) = manager.begin_transaction().unwrap();
    assert_eq!(manager.active_count(), 3);
    manager.commit_transaction(txn1).unwrap();
    assert_eq!(manager.active_count(), 2);
    manager.abort_transaction(txn2).unwrap();
    assert_eq!(manager.active_count(), 1);
    manager.commit_transaction(txn3).unwrap();
    assert_eq!(manager.active_count(), 0);
}

#[test]
fn test_oldest_active_timestamp() {
    let mut manager = TransactionManager::new();
    assert!(manager.oldest_active_timestamp().is_none());
    let (txn1, snapshot1) = manager.begin_transaction().unwrap();
    let (_txn2, _snapshot2) = manager.begin_transaction().unwrap();
    let oldest = manager.oldest_active_timestamp().unwrap();
    assert_eq!(oldest, snapshot1.timestamp);
    manager.commit_transaction(txn1).unwrap();
    let new_oldest = manager.oldest_active_timestamp().unwrap();
    assert!(new_oldest > oldest);
}

#[test]
fn snapshot_isolation_scenario() {
    let mut manager = TransactionManager::new();
    let (reader, read_snap) = manager.begin_transaction().unwrap();
    let (writer, _) = manager.begin_transaction().unwrap();
    let mut chain: VersionChain<String> = VersionChain::new();
    chain.add_version(Version::new("node".to_string(), writer, 0));
    manager.commit_transaction(writer).unwrap();
    assert_eq!(chain.get_visible_for(&read_snap), None);
    let (_fresh, fresh_snap) = manager.begin_transaction().unwrap();
    assert_eq!(chain.get_visible_for(&fresh_snap).cloned(), Some("node".to_string()));
    assert!(manager.is_active(reader));
}

#[test]
fn snapshot_stability_under_concurrent_update() {
    let mut manager = TransactionManager::new();
    let (w1, _) = manager.begin_transaction().unwrap();
    let mut chain: VersionChain<i64> = VersionChain::new();
    chain.add_version(Version::new(1, w1, 0));
    manager.commit_transaction(w1).unwrap();
    let (_r, snap) = manager.begin_transaction().unwrap();
    let first = chain.get_visible_for(&snap).cloned();
    let (w2, _) = manager.begin_transaction().unwrap();
    chain.mark_latest_deleted(w2, 0);
    chain.add_version(Version::new(2, w2, 0));
    manager.commit_transaction(w2).unwrap();
    assert_eq!(first, Some(1));
    assert_eq!(chain.get_visible_for(&snap).cloned(), Some(1));
}

#[test]
fn test_detector_creation() {
    let detector = DeadlockDetector::new();
    let stats = detector.stats();
    assert_eq!(stats.waiting_transactions, 0);
    assert_eq!(stats.locked_resources, 0);
}

#[test]
fn test_grant_lock() {
    let mut detector = DeadlockDetector::new();
    assert!(detector.request_lock(TransactionId(1), ResourceId(100)).is_ok());
    assert_eq!(detector.stats().locked_resources, 1);
}

#[test]
fn test_lock_conflict() {
    let mut detector = DeadlockDetector::new();
    detector.request_lock(TransactionId(1), ResourceId(100)).unwrap();
    assert!(detector.request_lock(TransactionId(2), ResourceId(100)).is_err());
}

#[test]
fn test_release_lock() {
    let mut detector = DeadlockDetector::new();
    detector.request_lock(TransactionId(1), ResourceId(100)).unwrap();
    detector.release_lock(TransactionId(1), ResourceId(100));
    assert!(detector.request_lock(TransactionId(2), ResourceId(100)).is_ok());
}

#[test]
fn test_deadlock_detection() {
    let mut detector = DeadlockDetector::new();
    let (t1, t2) = (TransactionId(1), TransactionId(2));
    let (r1, r2) = (ResourceId(100), ResourceId(200));
    detector.request_lock(t1, r1).unwrap();
    detector.request_lock(t2, r2).unwrap();
    let result1 = detector.request_lock(t1, r2);
    assert_eq!(result1, Err(LockError::Contended { holder: 2 }));
    let result2 = detector.request_lock(t2, r1);
    assert!(result2.is_err());
    assert_eq!(result2, Err(LockError::Deadlock { waiter: 2, holder: 1 }));
    assert_eq!(detector.stats().waiting_transactions, 1);
}

#[test]
fn test_release_all_locks() {
    let mut detector = DeadlockDetector::new();
    detector.request_lock(TransactionId(1), ResourceId(100)).unwrap();
    detector.request_lock(TransactionId(1), ResourceId(200)).unwrap();
    assert_eq!(detector.stats().locked_resources, 2);
    detector.release_all_locks(TransactionId(1));
    assert_eq!(detector.stats().locked_resources, 0);
}

#[test]
fn test_reentrant_lock() {
    let mut detector = DeadlockDetector::new();
    detector.request_lock(TransactionId(1), ResourceId(100)).unwrap();
    assert!(detector.request_lock(TransactionId(1), ResourceId(100)).is_ok());
}

#[test]
fn three_way_cycle_is_refused() {
    let mut d = DeadlockDetector::new();
    for i in 1..=3u64 {
        d.request_lock(TransactionId(i), ResourceId(i)).unwrap();
    }
    assert_eq!(d.request_lock(TransactionId(1), ResourceId(2)), Err(LockError::Contended { holder: 2 }));
    assert_eq!(d.request_lock(TransactionId(2), ResourceId(3)), Err(LockError::Contended { holder: 3 }));
    assert_eq!(d.request_lock(TransactionId(3), ResourceId(1)), Err(LockError::Deadlock { waiter: 3, holder: 1 }));
    d.release_all_locks(TransactionId(2));
    assert_eq!(d.stats().locked_resources, 2);
    assert!(d.request_lock(TransactionId(3), ResourceId(2)).is_ok());
}

#[test]
fn snapshot_isolation_get_node_scenario() {
    let mut manager = TransactionManager::new();
    let mut store = VersionedNodes::new();
    let (_t_read, read_snap) = manager.begin_transaction().unwrap();
    let (t_write, _) = manager.begin_transaction().unwrap();
    let node = Node::new(vec!["Person".to_string()]);
    let id = node.id();
    store.write(t_write, 0, node);
    manager.commit_transaction(t_write).unwrap();
    assert_eq!(store.get_node(id, &read_snap).unwrap_err(), DeepGraphError::NodeNotFound(id.0));
    let (t_fresh, fresh_snap) = manager.begin_transaction().unwrap();
    assert_eq!(store.get_node(id, &fresh_snap).unwrap().id(), id);
    store.delete(t_fresh, 0, id).unwrap();
    manager.commit_transaction(t_fresh).unwrap();
    let (_t_late, late_snap) = manager.begin_transaction().unwrap();
    assert!(store.get_node(id, &late_snap).is_err());
    assert_eq!(store.get_node(id, &read_snap).unwrap_err(), DeepGraphError::NodeNotFound(id.0));
}

#[test]
fn clock_advances_with_each_begin() {
    let mut manager = TransactionManager::new();
    assert_eq!(manager.current_timestamp(), 1);
    let (t, snap) = manager.begin_transaction().unwrap();
    assert_eq!(t, TransactionId(1));
    assert_eq!(snap.timestamp, 2);
    assert_eq!(manager.current_timestamp(), 2);
    assert_eq!(manager.commit_transaction(t).unwrap(), 2);
}
