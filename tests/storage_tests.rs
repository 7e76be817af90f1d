use deepgraph::graph::{Edge, EdgeId, Node, NodeId, PropertyValue};
use deepgraph::error::DeepGraphError;
use deepgraph::memory::MemoryStorage;

fn s(x: &str) -> String {
    x.to_string()
}

#[test]
fn memory_test_add_and_get_node() {
    let mut storage = MemoryStorage::new();
    let mut node = Node::new(vec![s("Person")]);
    node.set_property(s("name"), PropertyValue::String(s("Alice")));

    let id = storage.add_node(node.deep_clone()).unwrap();
    let retrieved = storage.get_node(id).unwrap();

    assert_eq!(retrieved.id(), id);
    assert_eq!(retrieved.get_property("name").unwrap().as_string(), Some("Alice"));
}

#[test]
fn test_add_and_get_edge() {
    let mut storage = MemoryStorage::new();
    let id1 = storage.add_node(Node::new(vec![s("Person")])).unwrap();
    let id2 = storage.add_node(Node::new(vec![s("Person")])).unwrap();

    let mut edge = Edge::new(id1, id2, s("KNOWS"));
    edge.set_property(s("since"), PropertyValue::Integer(2020));

    let edge_id = storage.add_edge(edge.deep_clone()).unwrap();
    let retrieved = storage.get_edge(edge_id).unwrap();

    assert_eq!(retrieved.from(), id1);
    assert_eq!(retrieved.to(), id2);
    assert_eq!(retrieved.relationship_type(), "KNOWS");
}

#[test]
fn test_delete_node_cascades_edges() {
    let mut storage = MemoryStorage::new();
    let id1 = storage.add_node(Node::new(vec![s("Person")])).unwrap();
    let id2 = storage.add_node(Node::new(vec![s("Person")])).unwrap();
    storage.add_edge(Edge::new(id1, id2, s("KNOWS"))).unwrap();

    assert_eq!(storage.node_count(), 2);
    assert_eq!(storage.edge_count(), 1);

    storage.delete_node(id1).unwrap();

    assert_eq!(storage.node_count(), 1);
    assert_eq!(storage.edge_count(), 0);
}

#[test]
fn test_get_outgoing_and_incoming_edges() {
    let mut storage = MemoryStorage::new();
    let id1 = storage.add_node(Node::new(vec![s("Person")])).unwrap();
    let id2 = storage.add_node(Node::new(vec![s("Person")])).unwrap();
    let id3 = storage.add_node(Node::new(vec![s("Person")])).unwrap();

    storage.add_edge(Edge::new(id1, id2, s("KNOWS"))).unwrap();
    storage.add_edge(Edge::new(id1, id3, s("KNOWS"))).unwrap();
    storage.add_edge(Edge::new(id2, id1, s("KNOWS"))).unwrap();

    assert_eq!(storage.get_outgoing_edges(id1).unwrap().len(), 2);
    assert_eq!(storage.get_incoming_edges(id1).unwrap().len(), 1);
}

#[test]
fn test_query_by_label() {
    let mut storage = MemoryStorage::new();
    storage.add_node(Node::new(vec![s("Person")])).unwrap();
    storage.add_node(Node::new(vec![s("Organization")])).unwrap();
    storage.add_node(Node::new(vec![s("Person")])).unwrap();

    assert_eq!(storage.get_nodes_by_label("Person").len(), 2);
    assert_eq!(storage.get_nodes_by_label("Organization").len(), 1);
}

#[test]
fn test_query_by_property() {
    let mut storage = MemoryStorage::new();
    for age in [30i64, 25, 30] {
        let mut n = Node::new(vec![s("Person")]);
        n.set_property(s("age"), PropertyValue::Integer(age));
        storage.add_node(n).unwrap();
    }
    let age_30 = storage.get_nodes_by_property("age", &PropertyValue::Integer(30));
    assert_eq!(age_30.len(), 2);
}

#[test]
fn edge_cascade_scenario() {
    let mut storage = MemoryStorage::new();
    let a = storage.add_node(Node::new(vec![s("Person")])).unwrap();
    let b = storage.add_node(Node::new(vec![s("Person")])).unwrap();
    let c = storage.add_node(Node::new(vec![s("Person")])).unwrap();
    let ab = storage.add_edge(Edge::new(a, b, s("KNOWS"))).unwrap();
    let ac = storage.add_edge(Edge::new(a, c, s("KNOWS"))).unwrap();
    let bc = storage.add_edge(Edge::new(b, c, s("KNOWS"))).unwrap();

    storage.delete_node(a).unwrap();

    assert_eq!(storage.node_count(), 2);
    assert_eq!(storage.edge_count(), 1);
    assert!(storage.get_edge(bc).is_ok());
    assert_eq!(storage.get_edge(ab).unwrap_err(), DeepGraphError::EdgeNotFound(ab.0));
    assert!(storage.get_edge(ac).is_err());
    assert!(storage.get_incoming_edges(b).unwrap().is_empty());
    let into_c = storage.get_incoming_edges(c).unwrap();
    assert_eq!(into_c.len(), 1);
    assert_eq!(into_c[0].id(), bc);
    assert_eq!(storage.get_outgoing_edges(a).unwrap_err(), DeepGraphError::NodeNotFound(a.0));
}

#[test]
fn storage_errors() {
    let mut storage = MemoryStorage::new();
    let a = storage.add_node(Node::new(vec![s("X")])).unwrap();
    let ghost = NodeId(12345);
    assert_eq!(storage.add_edge(Edge::new(ghost, a, s("R"))).unwrap_err(), DeepGraphError::NodeNotFound(12345));
    assert_eq!(storage.add_edge(Edge::new(a, ghost, s("R"))).unwrap_err(), DeepGraphError::NodeNotFound(12345));
    assert_eq!(storage.get_node(ghost).unwrap_err(), DeepGraphError::NodeNotFound(12345));
    assert_eq!(storage.delete_node(ghost).unwrap_err(), DeepGraphError::NodeNotFound(12345));
    assert_eq!(storage.update_node(Node::with_id(ghost, vec![])).unwrap_err(), DeepGraphError::NodeNotFound(12345));
    assert_eq!(storage.delete_edge(EdgeId(9)).unwrap_err(), DeepGraphError::EdgeNotFound(9));
    assert_eq!(storage.update_edge(Edge::with_id(EdgeId(9), a, a, s("R"))).unwrap_err(), DeepGraphError::EdgeNotFound(9));
}

#[test]
fn updates_and_self_loops() {
    let mut storage = MemoryStorage::new();
    let a = storage.add_node(Node::new(vec![s("X")])).unwrap();
    let mut n = storage.get_node(a).unwrap();
    n.set_property(s("k"), PropertyValue::Boolean(true));
    storage.update_node(n).unwrap();
    assert_eq!(storage.get_node(a).unwrap().get_property("k").unwrap().as_boolean(), Some(true));

    let e = storage.add_edge(Edge::new(a, a, s("SELF"))).unwrap();
    assert_eq!(storage.get_outgoing_edges(a).unwrap().len(), 1);
    assert_eq!(storage.get_incoming_edges(a).unwrap().len(), 1);
    let mut ed = storage.get_edge(e).unwrap();
    ed.set_property(s("w"), PropertyValue::Integer(3));
    storage.update_edge(ed).unwrap();
    assert_eq!(storage.get_edge(e).unwrap().get_property("w").unwrap().as_integer(), Some(3));
    storage.delete_edge(e).unwrap();
    assert_eq!(storage.edge_count(), 0);
    assert!(storage.get_outgoing_edges(a).unwrap().is_empty());
    assert_eq!(storage.get_all_nodes().len(), 1);
    assert!(storage.get_all_edges().is_empty());
}

#[test]
fn test_node_creation() {
    let mut node = Node::new(vec![s("Person")]);
    assert_eq!(node.labels().len(), 1);
    assert!(node.has_label("Person"));

    node.set_property(s("name"), PropertyValue::String(s("Alice")));
    node.set_property(s("age"), PropertyValue::Integer(30));

    assert_eq!(node.get_property("name").unwrap().as_string(), Some("Alice"));
    assert_eq!(node.get_property("age").unwrap().as_integer(), Some(30));
}

#[test]
fn test_edge_creation() {
    let node1 = Node::new(vec![s("Person")]);
    let node2 = Node::new(vec![s("Person")]);

    let mut edge = Edge::new(node1.id(), node2.id(), s("KNOWS"));
    edge.set_property(s("since"), PropertyValue::Integer(2020));

    assert_eq!(edge.relationship_type(), "KNOWS");
    assert_eq!(edge.get_property("since").unwrap().as_integer(), Some(2020));
}

#[test]
fn test_property_values() {
    let string_val = PropertyValue::String(s("test"));
    assert_eq!(string_val.as_string(), Some("test"));

    let int_val = PropertyValue::Integer(42);
    assert_eq!(int_val.as_integer(), Some(42));

    let float_val = PropertyValue::Float(3.14f64.to_bits());
    assert_eq!(float_val.as_float_bits().map(f64::from_bits), Some(3.14));

    let bool_val = PropertyValue::Boolean(true);
    assert_eq!(bool_val.as_boolean(), Some(true));

    assert!(PropertyValue::Null.is_null());
}

#[test]
fn test_node_labels() {
    let mut node = Node::new(vec![s("Person")]);
    node.add_label(s("Employee"));
    assert_eq!(node.labels().len(), 2);
    node.add_label(s("Person"));
    assert_eq!(node.labels().len(), 2);
    assert!(node.remove_label("Person"));
    assert!(!node.has_label("Person"));
    assert!(!node.remove_label("Person"));
    let dup = Node::new(vec![s("A"), s("A"), s("B")]);
    assert_eq!(dup.labels().len(), 2);
}

#[test]
fn property_removal_and_equality() {
    let mut node = Node::new(vec![]);
    node.set_property(s("a"), PropertyValue::List(vec![PropertyValue::Integer(1), PropertyValue::Null]));
    node.set_property(s("a"), PropertyValue::Integer(2));
    assert_eq!(node.properties().len(), 1);
    assert_eq!(node.remove_property("a").unwrap().as_integer(), Some(2));
    assert!(!node.has_property("a"));
    let x = PropertyValue::Dict(vec![(s("k"), PropertyValue::List(vec![PropertyValue::Boolean(false)]))]);
    assert!(x.equals(&x.deep_clone()));
    assert!(!x.equals(&PropertyValue::Dict(vec![])));
    assert_eq!(node.id().to_string().len(), 36);
}

#[test]
fn edges_by_type() {
    let mut storage = MemoryStorage::new();
    let a = storage.add_node(Node::new(vec![s("X")])).unwrap();
    let b = storage.add_node(Node::new(vec![s("X")])).unwrap();
    storage.add_edge(Edge::new(a, b, s("KNOWS"))).unwrap();
    storage.add_edge(Edge::new(b, a, s("KNOWS"))).unwrap();
    storage.add_edge(Edge::new(a, a, s("LIKES"))).unwrap();
    assert_eq!(storage.get_edges_by_type("KNOWS").len(), 2);
    assert_eq!(storage.get_edges_by_type("LIKES").len(), 1);
    assert!(storage.get_edges_by_type("NONE").is_empty());
}

#[test]
fn uuid_text_form() {
    let id = NodeId(0x0123_4567_89ab_cdef_0011_2233_4455_6677);
    assert_eq!(id.to_string(), "01234567-89ab-cdef-0011-223344556677");
}
