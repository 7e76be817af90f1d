use deepgraph::graph::PropertyValue;
use deepgraph::index::{bytes_to_string, property_to_bytes, IndexConfig, IndexManager, IndexType, KeyIndex};

#[test]
fn key_encoding() {
    let k = property_to_bytes(&PropertyValue::Integer(42)).unwrap();
    assert_eq!(k, vec![0x80, 0, 0, 0, 0, 0, 0, 42]);
    assert_eq!(property_to_bytes(&PropertyValue::Null).unwrap(), vec![0xFF]);
    assert!(property_to_bytes(&PropertyValue::List(vec![])).is_none());
    let neg = property_to_bytes(&PropertyValue::Integer(-5)).unwrap();
    let pos = property_to_bytes(&PropertyValue::Integer(3)).unwrap();
    assert!(neg < pos);
    let f1 = property_to_bytes(&PropertyValue::Float((-2.5f64).to_bits())).unwrap();
    let f2 = property_to_bytes(&PropertyValue::Float(1.0f64.to_bits())).unwrap();
    assert!(f1 < f2);
    assert_eq!(bytes_to_string(&[104, 105]), "hi");
}

#[test]
fn key_index_lookup_range_remove() {
    let mut ix = KeyIndex::new();
    ix.insert(vec![1], 10);
    ix.insert(vec![2], 20);
    ix.insert(vec![2], 21);
    ix.insert(vec![2], 21);
    ix.insert(vec![5], 50);
    let mut got = ix.lookup(&vec![2]);
    got.sort();
    assert_eq!(got, vec![20, 21]);
    let mut r = ix.range(&vec![2], &vec![5]);
    r.sort();
    assert_eq!(r, vec![20, 21]);
    ix.remove(&vec![2], 20);
    assert_eq!(ix.lookup(&vec![2]), vec![21]);
    assert_eq!(ix.len(), 3);
    ix.clear();
    assert!(ix.lookup(&vec![1]).is_empty());
}

#[test]
fn test_create_property_index() {
    let mut m = IndexManager::new();
    m.create_index(IndexConfig::property_index("age_idx".to_string(), IndexType::BTree, "age".to_string())).unwrap();
    assert!(m.has_property_index("age"));
    assert!(!m.has_label_index("Person"));
}

#[test]
fn test_create_label_index() {
    let mut m = IndexManager::new();
    m.create_index(IndexConfig::label_index("Person".to_string(), IndexType::Hash)).unwrap();
    assert!(m.has_label_index("Person"));
}

#[test]
fn test_label_insert_and_lookup() {
    let mut m = IndexManager::new();
    m.create_index(IndexConfig::label_index("Person".to_string(), IndexType::Hash)).unwrap();
    m.insert_label("Person", 1).unwrap();
    m.insert_label("Person", 2).unwrap();
    m.insert_label("Company", 3).unwrap();
    let mut ids = m.lookup_label("Person");
    ids.sort();
    assert_eq!(ids, vec![1, 2]);
    assert!(m.lookup_label("Company").is_empty());
}

#[test]
fn test_property_insert_and_lookup() {
    let mut m = IndexManager::new();
    m.create_index(IndexConfig::property_index("name_idx".to_string(), IndexType::Hash, "name".to_string())).unwrap();
    m.insert_property("name", &PropertyValue::String("Alice".to_string()), 1).unwrap();
    m.insert_property("name", &PropertyValue::String("Bob".to_string()), 2).unwrap();
    assert_eq!(m.lookup_property("name", &PropertyValue::String("Alice".to_string())).unwrap(), vec![1]);
    assert!(m.lookup_property("missing", &PropertyValue::Integer(1)).unwrap().is_empty());
}

#[test]
fn test_range_query() {
    let mut m = IndexManager::new();
    m.create_index(IndexConfig::property_index("age_idx".to_string(), IndexType::BTree, "age".to_string())).unwrap();
    for (id, age) in [(1u128, 20i64), (2, 25), (3, 30), (4, 35), (5, -3)] {
        m.insert_property("age", &PropertyValue::Integer(age), id).unwrap();
    }
    let mut r = m.range_property("age", &PropertyValue::Integer(-10), &PropertyValue::Integer(30)).unwrap();
    r.sort();
    assert_eq!(r, vec![1, 2, 5]);
    m.create_index(IndexConfig::property_index("h".to_string(), IndexType::Hash, "k".to_string())).unwrap();
    assert!(m.range_property("k", &PropertyValue::Integer(0), &PropertyValue::Integer(1)).is_err());
    assert!(m.insert_property("age", &PropertyValue::List(vec![]), 9).is_err());
}

#[test]
fn test_drop_index() {
    let mut m = IndexManager::new();
    m.create_index(IndexConfig::label_index("Person".to_string(), IndexType::Hash)).unwrap();
    m.create_index(IndexConfig::property_index("age_idx".to_string(), IndexType::BTree, "age".to_string())).unwrap();
    assert!(m.has_label_index("Person"));
    m.drop_index("Person").unwrap();
    assert!(!m.has_label_index("Person"));
    assert!(m.has_property_index("age"));
    assert!(m.drop_index("Person").is_err());
    m.drop_index("age_idx").unwrap();
    assert!(!m.has_property_index("age"));
}

#[test]
fn test_property_to_bytes_string() {
    let value = PropertyValue::String("test".to_string());
    let bytes = property_to_bytes(&value).unwrap();
    assert_eq!(bytes, b"test");
}

#[test]
fn test_property_to_bytes_integer() {
    let value = PropertyValue::Integer(42);
    let bytes = property_to_bytes(&value).unwrap();
    assert_eq!(bytes.len(), 8);
}

#[test]
fn test_property_to_bytes_boolean() {
    let value = PropertyValue::Boolean(true);
    let bytes = property_to_bytes(&value).unwrap();
    assert_eq!(bytes, vec![1]);
}
