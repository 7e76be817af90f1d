use deepgraph::error::DeepGraphError;
use deepgraph::graph::{Node, PropertyValue};
use deepgraph::mvcc::{self, VersionedNodes};
use deepgraph::transaction::{IsolationLevel, Transaction, TransactionManager, TransactionState};

#[test]
fn test_transaction_lifecycle() {
    let mut m = mvcc::TransactionManager::new();
    let tx = Transaction::begin(&mut m).unwrap();
    assert_eq!(tx.state(), TransactionState::Active);
    assert!(tx.is_active());
    tx.commit(&mut m).unwrap();
}

#[test]
fn transaction_test_transaction_operations() {
    let mut m = mvcc::TransactionManager::new();
    let mut store = VersionedNodes::new();
    let mut tx = Transaction::begin(&mut m).unwrap();
    let node = Node::new(vec!["Person".to_string()]);
    let node_id = tx.add_node(&mut store, node).unwrap();
    let retrieved = tx.get_node(&store, node_id).unwrap();
    assert_eq!(retrieved.id(), node_id);
    tx.commit(&mut m).unwrap();
}

#[test]
fn test_transaction_rollback() {
    let mut m = mvcc::TransactionManager::new();
    let tx = Transaction::begin(&mut m).unwrap();
    assert!(tx.rollback(&mut m).is_ok());
    assert_eq!(m.active_count(), 0);
}

#[test]
fn test_cannot_rollback_committed() {
    let mut m = mvcc::TransactionManager::new();
    let tx = Transaction::begin(&mut m).unwrap();
    let done = tx.commit(&mut m).unwrap();
    assert_eq!(done.state(), TransactionState::Committed);
    assert!(done.rollback(&mut m).is_err());
}

#[test]
fn test_transaction_manager() {
    let mut m = mvcc::TransactionManager::new();
    let mut store = VersionedNodes::new();
    let manager = TransactionManager::new();
    let mut tx1 = manager.begin_transaction(&mut m).unwrap();
    let mut tx2 = manager.begin_transaction(&mut m).unwrap();
    let node = Node::new(vec!["Person".to_string()]);
    let _id1 = tx1.add_node(&mut store, node.deep_clone()).unwrap();
    let _id2 = tx2.add_node(&mut store, Node::new(vec!["Person".to_string()])).unwrap();
    tx1.commit(&mut m).unwrap();
    tx2.commit(&mut m).unwrap();
}

#[test]
fn test_isolation_levels() {
    let mut m = mvcc::TransactionManager::new();
    let tx = Transaction::begin_with_isolation(&mut m, IsolationLevel::Serializable).unwrap();
    assert_eq!(tx.isolation_level(), IsolationLevel::Serializable);
}

#[test]
fn integration_tests_test_transaction_operations() {
    let mut m = mvcc::TransactionManager::new();
    let mut store = VersionedNodes::new();
    let mut tx = Transaction::begin(&mut m).unwrap();
    let mut node = Node::new(vec!["Person".to_string()]);
    node.set_property("name".to_string(), PropertyValue::String("Alice".to_string()));
    let id = tx.add_node(&mut store, node).unwrap();
    let retrieved = tx.get_node(&store, id).unwrap();
    assert_eq!(retrieved.get_property("name").unwrap().as_string(), Some("Alice"));
    tx.commit(&mut m).unwrap();
}

#[test]
fn reader_does_not_see_later_commit() {
    let mut m = mvcc::TransactionManager::new();
    let mut store = VersionedNodes::new();
    let reader = Transaction::begin(&mut m).unwrap();
    let mut writer = Transaction::begin(&mut m).unwrap();
    let id = writer.add_node(&mut store, Node::new(vec!["Person".to_string()])).unwrap();
    writer.commit(&mut m).unwrap();
    assert_eq!(reader.get_node(&store, id).unwrap_err(), DeepGraphError::NodeNotFound(id.0));
    let fresh = Transaction::begin(&mut m).unwrap();
    assert_eq!(fresh.get_node(&store, id).unwrap().id(), id);
}

#[test]
fn finished_transactions_refuse_work() {
    let mut m = mvcc::TransactionManager::new();
    let mut store = VersionedNodes::new();
    let tx = Transaction::begin(&mut m).unwrap();
    let mut rolled = tx.rollback(&mut m).unwrap();
    assert!(rolled.add_node(&mut store, Node::new(vec![])).is_err());
}
