use deepgraph::graph::{Node, PropertyValue};
use deepgraph::memory::MemoryStorage;
use deepgraph::query::ast::Expression;
use deepgraph::query::executor::{evaluate, execute, execute_cypher, QueryResult};
use deepgraph::query::planner::PhysicalPlan;

fn s(x: &str) -> String {
    x.to_string()
}

fn people() -> MemoryStorage {
    let mut st = MemoryStorage::new();
    for (name, age) in [("Alice", 30i64), ("Bob", 25), ("Charlie", 35)] {
        let mut n = Node::new(vec![s("Person")]);
        n.set_property(s("name"), PropertyValue::String(s(name)));
        n.set_property(s("age"), PropertyValue::Integer(age));
        st.add_node(n).unwrap();
    }
    st
}

fn names(r: &QueryResult) -> Vec<String> {
    let mut v: Vec<String> = r
        .rows
        .iter()
        .map(|row| row.iter().find(|(k, _)| k == "name").unwrap().1.as_string().unwrap().to_string())
        .collect();
    v.sort();
    v
}

#[test]
fn test_executor_creation() {
    let st = MemoryStorage::new();
    assert_eq!(st.node_count(), 0);
}

#[test]
fn test_empty_scan() {
    let st = MemoryStorage::new();
    let result = execute(&st, &PhysicalPlan::Scan { label: None });
    assert_eq!(result.row_count, 0);
}

#[test]
fn test_scan_with_label() {
    let mut st = MemoryStorage::new();
    st.add_node(Node::new(vec![s("Person")])).unwrap();
    let result = execute(&st, &PhysicalPlan::Scan { label: Some(s("Person")) });
    assert_eq!(result.row_count, 1);
    assert!(result.columns.contains(&s("_node_id")));
}

#[test]
fn create_and_query_by_label_scenario() {
    let st = people();
    let all = execute_cypher(&st, "MATCH (n) RETURN n;").unwrap();
    assert_eq!(all.row_count, 3);
    let older = execute_cypher(&st, "MATCH (n:Person) WHERE n.age > 25 RETURN n;").unwrap();
    assert_eq!(older.row_count, 2);
    assert_eq!(older.columns, vec![s("n")]);
    assert!(older.rows.iter().all(|row| row.is_empty()));
    let filtered = execute(
        &st,
        &PhysicalPlan::Filter {
            source: Box::new(PhysicalPlan::Scan { label: Some(s("Person")) }),
            predicate: Expression::Gt(
                Box::new(Expression::property(Expression::variable(s("n")), s("age"))),
                Box::new(Expression::Literal(PropertyValue::Integer(25))),
            ),
        },
    );
    assert_eq!(names(&filtered), vec![s("Alice"), s("Charlie")]);
}

#[test]
fn where_and_projection() {
    let st = people();
    let r = execute_cypher(&st, "MATCH (n:Person) WHERE n.age >= 25 AND n.name <> 'Bob' RETURN n.name, n;").unwrap();
    assert_eq!(r.columns, vec![s("n")]);
    assert_eq!(r.row_count, 2);
    let r = execute_cypher(&st, "MATCH (n:Person) WHERE n.age <= 25 RETURN n;").unwrap();
    assert_eq!(r.row_count, 1);
    let r = execute_cypher(&st, "MATCH (n:Nobody) RETURN n;").unwrap();
    assert_eq!(r.row_count, 0);
    assert!(execute_cypher(&st, "CREATE (n:Person);").is_err());
    assert!(execute_cypher(&st, "MATCH n RETURN n;").is_err());
}

#[test]
fn expression_evaluation() {
    let row = vec![(s("a"), PropertyValue::Integer(7)), (s("t"), PropertyValue::String(s("x")))];
    let lit = |v: PropertyValue| Box::new(Expression::Literal(v));
    let var = |n: &str| Box::new(Expression::Variable(s(n)));
    let e = Expression::Div(var("a"), lit(PropertyValue::Integer(-2)));
    assert_eq!(evaluate(&e, &row).unwrap().as_integer(), Some(-3));
    let e = Expression::Mod(lit(PropertyValue::Integer(-7)), lit(PropertyValue::Integer(2)));
    assert_eq!(evaluate(&e, &row).unwrap().as_integer(), Some(-1));
    let e = Expression::Div(var("a"), lit(PropertyValue::Integer(0)));
    assert!(evaluate(&e, &row).is_err());
    let e = Expression::Add(var("t"), lit(PropertyValue::String(s("y"))));
    assert_eq!(evaluate(&e, &row).unwrap().as_string(), Some("xy"));
    let e = Expression::Add(var("t"), lit(PropertyValue::Integer(1)));
    assert!(evaluate(&e, &row).is_err());
    let e = Expression::Add(lit(PropertyValue::Integer(i64::MAX)), lit(PropertyValue::Integer(1)));
    assert!(evaluate(&e, &row).is_err());
    let e = Expression::Lt(var("t"), lit(PropertyValue::String(s("xa"))));
    assert_eq!(evaluate(&e, &row).unwrap().as_boolean(), Some(true));
    let e = Expression::Not(var("missing"));
    assert_eq!(evaluate(&e, &row).unwrap().as_boolean(), Some(true));
    let e = Expression::Neg(var("a"));
    assert_eq!(evaluate(&e, &row).unwrap().as_integer(), Some(-7));
    let e = Expression::Eq(var("a"), lit(PropertyValue::String(s("7"))));
    assert!(evaluate(&e, &row).is_err());
    let e = Expression::Parameter(s("p"));
    assert!(evaluate(&e, &row).is_err());
}

#[test]
fn test_expression_literal() {
    let expr = Expression::literal(PropertyValue::Integer(42));
    match expr {
        Expression::Literal(PropertyValue::Integer(42)) => (),
        _ => panic!("Expected literal integer"),
    }
}

#[test]
fn test_expression_variable() {
    let expr = Expression::variable(s("n"));
    match expr {
        Expression::Variable(ref name) if name == "n" => (),
        _ => panic!("Expected variable n"),
    }
}

#[test]
fn test_expression_property() {
    let expr = Expression::property(Expression::variable(s("n")), s("name"));
    match expr {
        Expression::Property(_, ref prop) if prop == "name" => (),
        _ => panic!("Expected property access"),
    }
}
