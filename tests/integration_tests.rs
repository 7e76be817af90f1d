use deepgraph::graph::{Edge, Node, PropertyValue};
use deepgraph::memory::MemoryStorage;
use deepgraph::query::ast::Query;
use deepgraph::query::executor::{execute, QueryResult, Row};
use deepgraph::query::parser::CypherParser;
use deepgraph::query::planner::{PhysicalPlan, QueryPlanner};

fn s(x: &str) -> String {
    x.to_string()
}

#[test]
fn test_basic_graph_operations() {
    let mut storage = MemoryStorage::new();
    let mut alice = Node::new(vec![s("Person")]);
    alice.set_property(s("name"), PropertyValue::String(s("Alice")));
    alice.set_property(s("age"), PropertyValue::Integer(30));
    let mut bob = Node::new(vec![s("Person")]);
    bob.set_property(s("name"), PropertyValue::String(s("Bob")));
    bob.set_property(s("age"), PropertyValue::Integer(35));
    let alice_id = storage.add_node(alice).unwrap();
    let bob_id = storage.add_node(bob).unwrap();
    let mut edge = Edge::new(alice_id, bob_id, s("KNOWS"));
    edge.set_property(s("since"), PropertyValue::Integer(2015));
    let edge_id = storage.add_edge(edge).unwrap();
    assert_eq!(storage.node_count(), 2);
    assert_eq!(storage.edge_count(), 1);
    let retrieved_edge = storage.get_edge(edge_id).unwrap();
    assert_eq!(retrieved_edge.relationship_type(), "KNOWS");
    assert_eq!(retrieved_edge.get_property("since").unwrap().as_integer(), Some(2015));
}

#[test]
fn test_complex_graph_structure() {
    let mut storage = MemoryStorage::new();
    let mut people = Vec::new();
    for i in 0..10 {
        let mut person = Node::new(vec![s("Person")]);
        person.set_property(s("id"), PropertyValue::Integer(i as i64));
        person.set_property(s("name"), PropertyValue::String(format!("Person{}", i)));
        people.push(storage.add_node(person).unwrap());
    }
    for i in 0..8 {
        storage.add_edge(Edge::new(people[i], people[i + 1], s("KNOWS"))).unwrap();
        storage.add_edge(Edge::new(people[i], people[i + 2], s("KNOWS"))).unwrap();
    }
    assert_eq!(storage.node_count(), 10);
    assert_eq!(storage.edge_count(), 16);
    assert_eq!(storage.get_outgoing_edges(people[0]).unwrap().len(), 2);
    assert!(storage.get_incoming_edges(people[2]).unwrap().len() >= 2);
}

#[test]
fn test_multi_label_nodes() {
    let mut storage = MemoryStorage::new();
    let mut node = Node::new(vec![s("Person"), s("Employee")]);
    node.set_property(s("name"), PropertyValue::String(s("Alice")));
    storage.add_node(node).unwrap();
    assert_eq!(storage.get_nodes_by_label("Person").len(), 1);
    assert_eq!(storage.get_nodes_by_label("Employee").len(), 1);
}

#[test]
fn test_property_types() {
    let mut storage = MemoryStorage::new();
    let mut node = Node::new(vec![s("Test")]);
    node.set_property(s("string"), PropertyValue::String(s("value")));
    node.set_property(s("integer"), PropertyValue::Integer(42));
    node.set_property(s("float"), PropertyValue::Float(3.14f64.to_bits()));
    node.set_property(s("boolean"), PropertyValue::Boolean(true));
    node.set_property(s("null"), PropertyValue::Null);
    let id = storage.add_node(node).unwrap();
    let retrieved = storage.get_node(id).unwrap();
    assert_eq!(retrieved.get_property("string").unwrap().as_string(), Some("value"));
    assert_eq!(retrieved.get_property("integer").unwrap().as_integer(), Some(42));
    assert_eq!(retrieved.get_property("float").unwrap().as_float_bits().map(f64::from_bits), Some(3.14));
    assert_eq!(retrieved.get_property("boolean").unwrap().as_boolean(), Some(true));
    assert!(retrieved.get_property("null").unwrap().is_null());
}

#[test]
fn test_node_deletion_cascades() {
    let mut storage = MemoryStorage::new();
    let id1 = storage.add_node(Node::new(vec![s("Node")])).unwrap();
    let id2 = storage.add_node(Node::new(vec![s("Node")])).unwrap();
    let id3 = storage.add_node(Node::new(vec![s("Node")])).unwrap();
    storage.add_edge(Edge::new(id1, id2, s("RELATES"))).unwrap();
    storage.add_edge(Edge::new(id1, id3, s("RELATES"))).unwrap();
    storage.add_edge(Edge::new(id2, id3, s("RELATES"))).unwrap();
    assert_eq!(storage.edge_count(), 3);
    storage.delete_node(id1).unwrap();
    assert_eq!(storage.node_count(), 2);
    assert_eq!(storage.edge_count(), 1);
}

#[test]
fn test_update_operations() {
    let mut storage = MemoryStorage::new();
    let mut node = Node::new(vec![s("Person")]);
    node.set_property(s("name"), PropertyValue::String(s("Alice")));
    node.set_property(s("age"), PropertyValue::Integer(30));
    let id = storage.add_node(node).unwrap();
    let mut updated = storage.get_node(id).unwrap();
    updated.set_property(s("age"), PropertyValue::Integer(31));
    updated.set_property(s("city"), PropertyValue::String(s("New York")));
    storage.update_node(updated).unwrap();
    let retrieved = storage.get_node(id).unwrap();
    assert_eq!(retrieved.get_property("age").unwrap().as_integer(), Some(31));
    assert_eq!(retrieved.get_property("city").unwrap().as_string(), Some("New York"));
}

#[test]
fn test_large_graph_performance() {
    let mut storage = MemoryStorage::new();
    let mut node_ids = Vec::new();
    for i in 0..1000 {
        let mut node = Node::new(vec![s("Node")]);
        node.set_property(s("id"), PropertyValue::Integer(i as i64));
        node_ids.push(storage.add_node(node).unwrap());
    }
    assert_eq!(storage.node_count(), 1000);
    for i in 0..2000 {
        let from = node_ids[i % 1000];
        let to = node_ids[(i * 7) % 1000];
        if from != to {
            storage.add_edge(Edge::new(from, to, s("RELATES"))).ok();
        }
    }
    assert_eq!(storage.get_nodes_by_label("Node").len(), 1000);
}

#[test]
fn test_bidirectional_edges() {
    let mut storage = MemoryStorage::new();
    let id1 = storage.add_node(Node::new(vec![s("Node")])).unwrap();
    let id2 = storage.add_node(Node::new(vec![s("Node")])).unwrap();
    storage.add_edge(Edge::new(id1, id2, s("KNOWS"))).unwrap();
    storage.add_edge(Edge::new(id2, id1, s("KNOWS"))).unwrap();
    assert_eq!(storage.get_outgoing_edges(id1).unwrap().len(), 1);
    assert_eq!(storage.get_incoming_edges(id1).unwrap().len(), 1);
}

#[test]
fn test_self_referential_edge() {
    let mut storage = MemoryStorage::new();
    let id = storage.add_node(Node::new(vec![s("Node")])).unwrap();
    storage.add_edge(Edge::new(id, id, s("SELF"))).unwrap();
    let outgoing = storage.get_outgoing_edges(id).unwrap();
    let incoming = storage.get_incoming_edges(id).unwrap();
    assert_eq!(outgoing.len(), 1);
    assert_eq!(incoming.len(), 1);
    assert_eq!(outgoing[0].from(), outgoing[0].to());
}

#[test]
fn test_property_list_and_map() {
    let mut storage = MemoryStorage::new();
    let mut node = Node::new(vec![s("Test")]);
    let list = PropertyValue::List(vec![PropertyValue::Integer(1), PropertyValue::Integer(2), PropertyValue::Integer(3)]);
    node.set_property(s("numbers"), list);
    let map = PropertyValue::Dict(vec![(s("key"), PropertyValue::String(s("value")))]);
    node.set_property(s("metadata"), map);
    let id = storage.add_node(node).unwrap();
    let retrieved = storage.get_node(id).unwrap();
    match retrieved.get_property("numbers").unwrap() {
        PropertyValue::List(xs) => assert_eq!(xs.len(), 3),
        _ => panic!("expected a list"),
    }
    match retrieved.get_property("metadata").unwrap() {
        PropertyValue::Dict(kv) => assert_eq!(kv.len(), 1),
        _ => panic!("expected a map"),
    }
}

fn create_test_graph() -> MemoryStorage {
    let mut storage = MemoryStorage::new();
    for (name, age, city) in [("Alice", 30i64, "NYC"), ("Bob", 25, "SF"), ("Charlie", 35, "NYC")] {
        let mut n = Node::new(vec![s("Person")]);
        n.set_property(s("name"), PropertyValue::String(s(name)));
        n.set_property(s("age"), PropertyValue::Integer(age));
        n.set_property(s("city"), PropertyValue::String(s(city)));
        storage.add_node(n).unwrap();
    }
    let mut acme = Node::new(vec![s("Company")]);
    acme.set_property(s("name"), PropertyValue::String(s("Acme Corp")));
    acme.set_property(s("founded"), PropertyValue::Integer(2010));
    storage.add_node(acme).unwrap();
    storage
}

fn run(storage: &MemoryStorage, q: &str) -> QueryResult {
    let read = match CypherParser::parse(q).unwrap() {
        Query::Read(r) => r,
        _ => panic!("expected a read query"),
    };
    let planner = QueryPlanner::new();
    let logical = planner.logical_plan(read);
    let physical = planner.physical_plan(logical);
    execute(storage, &physical)
}

/// Runs a read query and returns the rows that reach its projection (the
/// projection on `n` keeps no property columns).
fn run_rows(storage: &MemoryStorage, q: &str) -> QueryResult {
    let read = match CypherParser::parse(q).unwrap() {
        Query::Read(r) => r,
        _ => panic!("expected a read query"),
    };
    let planner = QueryPlanner::new();
    let logical = planner.logical_plan(read);
    match planner.physical_plan(logical) {
        PhysicalPlan::Project { source, columns } => {
            assert_eq!(columns, vec![s("n")]);
            execute(storage, &source)
        },
        _ => panic!("expected a projection"),
    }
}

fn get<'a>(row: &'a Row, key: &str) -> Option<&'a PropertyValue> {
    row.iter().find(|(k, _)| k == key).map(|(_, v)| v)
}

#[test]
fn test_simple_match_all() {
    let storage = create_test_graph();
    assert_eq!(run(&storage, "MATCH (n) RETURN n;").row_count, 4);
}

#[test]
fn test_cypher_execution_test_match_with_label() {
    let storage = create_test_graph();
    assert_eq!(run(&storage, "MATCH (n:Person) RETURN n;").row_count, 3);
}

#[test]
fn test_where_greater_than() {
    let storage = create_test_graph();
    let result = run_rows(&storage, "MATCH (n:Person) WHERE n.age > 25 RETURN n;");
    assert_eq!(result.row_count, 2);
    for row in &result.rows {
        assert!(get(row, "age").unwrap().as_integer().unwrap() > 25);
    }
}

#[test]
fn test_where_equals() {
    let storage = create_test_graph();
    let result = run_rows(&storage, "MATCH (n:Person) WHERE n.name = \"Alice\" RETURN n;");
    assert_eq!(result.row_count, 1);
    assert_eq!(get(&result.rows[0], "name").unwrap().as_string(), Some("Alice"));
}

#[test]
fn test_where_and_condition() {
    let storage = create_test_graph();
    let result = run_rows(&storage, "MATCH (n:Person) WHERE n.age > 25 AND n.city = \"NYC\" RETURN n;");
    assert_eq!(result.row_count, 2);
    for row in &result.rows {
        assert!(get(row, "age").unwrap().as_integer().unwrap() > 25);
        assert_eq!(get(row, "city").unwrap().as_string(), Some("NYC"));
    }
}

#[test]
fn test_where_less_than_or_equal() {
    let storage = create_test_graph();
    let result = run_rows(&storage, "MATCH (n:Person) WHERE n.age <= 30 RETURN n;");
    assert_eq!(result.row_count, 2);
    for row in &result.rows {
        assert!(get(row, "age").unwrap().as_integer().unwrap() <= 30);
    }
}

#[test]
fn test_property_access_in_return() {
    let storage = create_test_graph();
    let result = run_rows(&storage, "MATCH (n:Person) RETURN n;");
    for row in &result.rows {
        assert!(get(row, "name").is_some());
        assert!(get(row, "age").is_some());
    }
}

#[test]
fn test_full_pipeline_validation() {
    let storage = create_test_graph();
    for (q, expected) in [("MATCH (n) RETURN n;", 4), ("MATCH (n:Person) RETURN n;", 3), ("MATCH (n:Company) RETURN n;", 1)] {
        assert_eq!(run(&storage, q).row_count, expected, "{}", q);
    }
}

#[test]
fn test_where_not_equal() {
    let storage = create_test_graph();
    let result = run_rows(&storage, "MATCH (n:Person) WHERE n.city != \"NYC\" RETURN n;");
    assert_eq!(result.row_count, 1);
    assert_eq!(get(&result.rows[0], "city").unwrap().as_string(), Some("SF"));
}

#[test]
fn test_execution_time_tracking() {
    let storage = create_test_graph();
    let result = run(&storage, "MATCH (n:Person) WHERE n.age > 20 RETURN n;");
    assert!(result.row_count > 0);
}

#[test]
fn test_empty_result() {
    let storage = create_test_graph();
    let result = run(&storage, "MATCH (n:Person) WHERE n.age > 100 RETURN n;");
    assert_eq!(result.row_count, 0);
    assert!(result.rows.is_empty());
}
