use deepgraph::graph::{Node, NodeId, PropertyValue};
use deepgraph::memory::MemoryStorage;
use deepgraph::wal::{encode_frame, split_frames, WALConfig, WALEntry, WALOperation, WALRecovery, WalCursor};

#[test]
fn test_recovery_creation() {
    let config = WALConfig::new();
    let _recovery = WALRecovery::new(config);
}

fn entry(lsn: u64, txn: u64, op: WALOperation) -> WALEntry {
    WALEntry { lsn, txn_id: txn, operation: op, timestamp: 0 }
}

fn person(name: &str) -> Node {
    let mut n = Node::new(vec!["Person".to_string()]);
    n.set_property("name".to_string(), PropertyValue::String(name.to_string()));
    n
}

#[test]
fn crash_recovery_replays_only_committed() {
    let entries = vec![
        entry(0, 1, WALOperation::BeginTxn),
        entry(1, 1, WALOperation::InsertNode { node: person("Bob") }),
        entry(2, 1, WALOperation::CommitTxn),
        entry(3, 2, WALOperation::BeginTxn),
        entry(4, 2, WALOperation::InsertNode { node: person("Ghost") }),
    ];
    let mut storage = MemoryStorage::new();
    let recovery = WALRecovery::new(WALConfig::new());
    let replayed = recovery.recover(&mut storage, &entries).unwrap();
    assert_eq!(replayed, 3);
    let people = storage.get_nodes_by_label("Person");
    assert_eq!(people.len(), 1);
    assert_eq!(people[0].get_property("name").unwrap().as_string(), Some("Bob"));
}

#[test]
fn recovery_excludes_aborted_and_reports_refused_ops() {
    let entries = vec![
        entry(0, 1, WALOperation::BeginTxn),
        entry(1, 1, WALOperation::InsertNode { node: person("A") }),
        entry(2, 1, WALOperation::AbortTxn),
    ];
    let mut storage = MemoryStorage::new();
    let r = WALRecovery::new(WALConfig::new()).recover(&mut storage, &entries).unwrap();
    assert_eq!(r, 0);
    assert_eq!(storage.node_count(), 0);

    let entries = vec![
        entry(0, 7, WALOperation::DeleteNode { id: NodeId(42) }),
        entry(1, 7, WALOperation::CommitTxn),
    ];
    let mut storage = MemoryStorage::new();
    assert!(WALRecovery::new(WALConfig::new()).recover(&mut storage, &entries).is_err());
    assert_eq!(WALRecovery::committed_transactions(&entries), vec![7]);
}

#[test]
fn frames_round_trip_and_truncated_tail() {
    let a = encode_frame(&vec![1, 2, 3]);
    assert_eq!(a, vec![3, 0, 0, 0, 1, 2, 3]);
    let mut bytes = a.clone();
    bytes.extend(encode_frame(&vec![9]));
    bytes.extend(vec![5, 0, 0, 0, 1]);
    let frames = split_frames(&bytes);
    assert_eq!(frames, vec![vec![1, 2, 3], vec![9]]);
    assert_eq!(split_frames(&vec![1, 0]), Vec::<Vec<u8>>::new());
    let big = vec![7u8; 300];
    let f = encode_frame(&big);
    assert_eq!(&f[..4], &[44, 1, 0, 0]);
}

#[test]
fn cursor_assigns_lsns_and_rotates() {
    let mut c = WalCursor::new(2);
    let s0 = c.next_append().unwrap();
    let s1 = c.next_append().unwrap();
    let s2 = c.next_append().unwrap();
    assert_eq!((s0.lsn, s0.rotate), (0, false));
    assert_eq!((s1.lsn, s1.rotate), (1, true));
    assert_eq!((s2.lsn, s2.rotate), (2, false));
    assert_eq!(c.segment_number, 1);
    assert_eq!(c.entries_in_segment, 1);
}

#[test]
fn wal_config_builders() {
    let c = WALConfig::new().with_dir("/tmp/w".to_string()).with_segment_size(10).with_sync(false);
    assert_eq!(c.wal_dir, "/tmp/w");
    assert_eq!(c.segment_size, 10);
    assert!(!c.sync_on_write);
    assert_eq!(c.checkpoint_threshold, 1000);
}
