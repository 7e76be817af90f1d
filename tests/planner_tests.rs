use deepgraph::query::parser::CypherParser;
use deepgraph::query::ast::Query;
use deepgraph::query::planner::{LogicalPlan, PhysicalPlan, QueryPlanner};

#[test]
fn test_planner_creation() {
    let planner = QueryPlanner::new();
    assert_eq!(planner.stats.node_count, 0);
}

#[test]
fn planner_lowers_match_where_return() {
    let q = CypherParser::parse("MATCH (n:Person) WHERE n.age > 25 RETURN n.name AS x LIMIT 3;").unwrap();
    let read = match q {
        Query::Read(r) => r,
        _ => panic!("expected a read query"),
    };
    let planner = QueryPlanner::new();
    let logical = planner.logical_plan(read);
    assert!(matches!(logical, LogicalPlan::Limit { count: 3, .. }));
    let physical = planner.physical_plan(logical);
    match physical {
        PhysicalPlan::Project { source, columns } => {
            assert!(columns.is_empty());
            match *source {
                PhysicalPlan::Filter { source, .. } => match *source {
                    PhysicalPlan::Scan { label } => assert_eq!(label, Some("Person".to_string())),
                    _ => panic!("expected a scan"),
                },
                _ => panic!("expected a filter"),
            }
        },
        _ => panic!("expected a projection"),
    }
}

fn stats_with_nodes(n: usize) -> deepgraph::query::planner::PlannerStats {
    deepgraph::query::planner::PlannerStats { node_count: n, edge_count: 0, indices: Vec::new() }
}

#[test]
fn test_cost_estimation() {
    let planner = QueryPlanner::with_stats(stats_with_nodes(1000));
    let plan = LogicalPlan::NodeScan { variable: "n".to_string(), labels: vec![] };
    let cost = planner.estimate_cost(&plan).unwrap() as f64 / 10.0;
    assert_eq!(cost, 1000.0);
}

#[test]
fn test_index_lookup_cost() {
    let planner = QueryPlanner::with_stats(stats_with_nodes(1000));
    let plan = LogicalPlan::IndexLookup {
        variable: "n".to_string(),
        label: "Person".to_string(),
        property: "name".to_string(),
        value: "Alice".to_string(),
    };
    let cost = planner.estimate_cost(&plan).unwrap() as f64 / 10.0;
    assert!(cost < 100.0);
}

#[test]
fn composite_costs() {
    let planner = QueryPlanner::with_stats(stats_with_nodes(100));
    let scan = || Box::new(LogicalPlan::NodeScan { variable: "n".to_string(), labels: vec![] });
    let filtered = LogicalPlan::Filter {
        source: scan(),
        condition: deepgraph::query::ast::Expression::Literal(deepgraph::graph::PropertyValue::Boolean(true)),
    };
    assert_eq!(planner.estimate_cost(&filtered), Some(1100));
    let limited = LogicalPlan::Limit { source: scan(), count: 5 };
    assert_eq!(planner.estimate_cost(&limited), Some(50));
    let joined = LogicalPlan::Join { left: scan(), right: scan() };
    assert_eq!(planner.estimate_cost(&joined), Some(100000));
}
