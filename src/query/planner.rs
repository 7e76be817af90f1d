//! Lowering of a read query to a logical plan and then to a physical plan.
use vstd::prelude::*;

use crate::query::ast::{Expression, NodePattern, PatternElement, ReadQuery, ReturnItem};

verus! {

/// Logical operators.
#[derive(Debug)]
pub enum LogicalPlan {
    NodeScan { variable: String, labels: Vec<String> },
    IndexLookup { variable: String, label: String, property: String, value: String },
    Filter { source: Box<LogicalPlan>, condition: Expression },
    Project { source: Box<LogicalPlan>, items: Vec<ReturnItem> },
    Join { left: Box<LogicalPlan>, right: Box<LogicalPlan> },
    Limit { source: Box<LogicalPlan>, count: i64 },
}

/// Physical operators.
#[derive(Debug)]
pub enum PhysicalPlan {
    Scan { label: Option<String> },
    HashIndexScan { index_name: String, key: Vec<u8> },
    BTreeRangeScan { index_name: String, start: Vec<u8>, end: Vec<u8> },
    Filter { source: Box<PhysicalPlan>, predicate: Expression },
    Project { source: Box<PhysicalPlan>, columns: Vec<String> },
}

/// Statistics of one index.
#[derive(Debug)]
pub struct IndexStats {
    pub index_type: String,
    pub entry_count: usize,
}

/// What the planner knows of the data.
#[derive(Debug)]
pub struct PlannerStats {
    pub node_count: usize,
    pub edge_count: usize,
    pub indices: Vec<(String, IndexStats)>,
}

/// Turns queries into plans.
#[derive(Debug)]
pub struct QueryPlanner {
    pub stats: PlannerStats,
}

/// The label a node scan reads, if any: the first one listed.
pub open spec fn scan_label(labels: Seq<String>) -> Option<Seq<char>> {
    if labels.len() > 0 {
        Some(labels[0]@)
    } else {
        None
    }
}

impl QueryPlanner {
    /// A planner that knows nothing of the data.
    pub fn new() -> (r: QueryPlanner)
        ensures
            r.stats.node_count == 0,
            r.stats.edge_count == 0,
            r.stats.indices@.len() == 0,
    {
        QueryPlanner { stats: PlannerStats { node_count: 0, edge_count: 0, indices: Vec::new() } }
    }

    pub fn with_stats(stats: PlannerStats) -> (r: QueryPlanner)
        ensures
            r.stats == stats,
    {
        QueryPlanner { stats }
    }

    /// `MATCH` becomes a node scan over the first node pattern's variable and
    /// labels, `WHERE` a filter on top, `RETURN` a projection and `LIMIT` a
    /// limit.
    pub fn logical_plan(&self, query: ReadQuery) -> (r: LogicalPlan)
        ensures
            plan_of(r, query),
    {
        let ReadQuery { patterns, where_clause, return_clause } = query;
        let mut variable = String::new();
        let mut labels: Vec<String> = Vec::new();
        let mut patterns = patterns;
        if patterns.len() > 0 {
            let mut first = patterns.remove(0);
            if first.elements.len() > 0 {
                match first.elements.remove(0) {
                    PatternElement::Node(np) => {
                        match np.variable {
                            Some(v) => {
                                variable = v;
                            },
                            None => {},
                        }
                        labels = np.labels;
                    },
                    PatternElement::Relationship(_) => {},
                }
            }
        }
        let mut plan = LogicalPlan::NodeScan { variable, labels };
        match where_clause {
            Some(condition) => {
                plan = LogicalPlan::Filter { source: Box::new(plan), condition };
            },
            None => {},
        }
        let limit = return_clause.limit;
        plan = LogicalPlan::Project { source: Box::new(plan), items: return_clause.items };
        match limit {
            Some(count) => {
                plan = LogicalPlan::Limit { source: Box::new(plan), count };
            },
            None => {},
        }
        plan
    }

    /// Lowers operator by operator: a node scan reads its first label, a filter
    /// stays a filter, a projection becomes a projection on the variables its
    /// items return, and a limit passes its input through. Index lookups and
    /// joins have no physical form and are lowered to a full scan.
    pub fn physical_plan(&self, logical: LogicalPlan) -> (r: PhysicalPlan)
        ensures
            lowered(logical, r),
        decreases logical,
    {
        match logical {
            LogicalPlan::NodeScan { variable, labels } => {
                let mut labels = labels;
                let label = if labels.len() > 0 {
                    Some(labels.remove(0))
                } else {
                    None
                };
                PhysicalPlan::Scan { label }
            },
            LogicalPlan::Filter { source, condition } => {
                let s = self.physical_plan(*source);
                PhysicalPlan::Filter { source: Box::new(s), predicate: condition }
            },
            LogicalPlan::Project { source, items } => {
                let s = self.physical_plan(*source);
                let columns = project_columns(&items);
                PhysicalPlan::Project { source: Box::new(s), columns }
            },
            LogicalPlan::Limit { source, count } => self.physical_plan(*source),
            _ => PhysicalPlan::Scan { label: None },
        }
    }
}

/// The column a RETURN item names: the variable it returns when it is a
/// bare variable; other items name no column.
pub open spec fn item_column(item: ReturnItem) -> Option<Seq<char>> {
    match item.expression {
        Expression::Variable(v) => Some(v@),
        _ => None,
    }
}

/// The columns a RETURN list names, in order.
pub open spec fn columns_of(items: Seq<ReturnItem>) -> Seq<Seq<char>>
    decreases items.len(),
{
    if items.len() == 0 {
        Seq::empty()
    } else {
        match item_column(items.last()) {
            Some(c) => columns_of(items.drop_last()).push(c),
            None => columns_of(items.drop_last()),
        }
    }
}

fn project_columns(items: &Vec<ReturnItem>) -> (r: Vec<String>)
    ensures
        r@.map_values(|c: String| c@) == columns_of(items@),
{
    let mut cols: Vec<String> = Vec::new();
    let mut i: usize = 0;
    proof {
        assert(items@.subrange(0, 0) =~= Seq::<ReturnItem>::empty());
        assert(cols@.map_values(|c: String| c@) =~= Seq::empty());
    }
    while i < items.len()
        invariant
            i <= items@.len(),
            columns_of(items@.subrange(0, i as int)) == cols@.map_values(|c: String| c@),
        decreases items.len() - i,
    {
        let ghost sub = items@.subrange(0, i + 1);
        let ghost before = cols@.map_values(|c: String| c@);
        proof {
            assert(sub.drop_last() =~= items@.subrange(0, i as int));
            assert(sub.last() == items@[i as int]);
        }
        match &items[i].expression {
            Expression::Variable(v) => {
                cols.push(v.clone());
            },
            _ => {},
        }
        proof {
            match item_column(items@[i as int]) {
                Some(c) => {
                    assert(cols@.map_values(|c: String| c@) =~= before.push(c));
                },
                None => {
                    assert(cols@.map_values(|c: String| c@) =~= before);
                },
            }
        }
        i = i + 1;
    }
    proof {
        assert(items@.subrange(0, items@.len() as int) =~= items@);
    }
    cols
}

/// The first node pattern of a read query, if it starts with one.
pub open spec fn first_node(q: ReadQuery) -> Option<NodePattern> {
    if q.patterns@.len() > 0 && q.patterns@[0].elements@.len() > 0 {
        match q.patterns@[0].elements@[0] {
            PatternElement::Node(np) => Some(np),
            _ => None,
        }
    } else {
        None
    }
}

/// `p` scans the variable and labels of the query's first node pattern (an
/// empty name and no labels when there is none).
pub open spec fn scan_matches(p: LogicalPlan, q: ReadQuery) -> bool {
    match p {
        LogicalPlan::NodeScan { variable, labels } => match first_node(q) {
            Some(np) => labels == np.labels && match np.variable {
                Some(v) => variable == v,
                None => variable@ == Seq::<char>::empty(),
            },
            None => labels@.len() == 0 && variable@ == Seq::<char>::empty(),
        },
        _ => false,
    }
}

/// `p` is the logical plan of the read query `q`: from the top, a limit when
/// the query has one, a projection on the query's return items, a filter on
/// its WHERE condition when it has one, and the scan of its first node pattern.
pub open spec fn plan_of(p: LogicalPlan, q: ReadQuery) -> bool {
    let proj = match q.return_clause.limit {
        Some(n) => match p {
            LogicalPlan::Limit { source, count } => if count == n { Some(*source) } else { None },
            _ => None,
        },
        None => Some(p),
    };
    match proj {
        Some(LogicalPlan::Project { source, items }) => items == q.return_clause.items && match q.where_clause {
            Some(c) => match *source {
                LogicalPlan::Filter { source: s2, condition } => condition == c && scan_matches(*s2, q),
                _ => false,
            },
            None => scan_matches(*source, q),
        },
        _ => false,
    }
}

/// `q` is the physical lowering of `l`.
pub open spec fn lowered(l: LogicalPlan, q: PhysicalPlan) -> bool
    decreases l,
{
    match l {
        LogicalPlan::NodeScan { variable, labels } => match q {
            PhysicalPlan::Scan { label } => match label {
                Some(x) => scan_label(labels@) == Some(x@),
                None => scan_label(labels@) is None,
            },
            _ => false,
        },
        LogicalPlan::Filter { source, condition } => match q {
            PhysicalPlan::Filter { source: s, predicate } => predicate == condition && lowered(*source, *s),
            _ => false,
        },
        LogicalPlan::Project { source, items } => match q {
            PhysicalPlan::Project { source: s, columns } => columns@.map_values(|c: String| c@) == columns_of(items@)
                && lowered(*source, *s),
            _ => false,
        },
        LogicalPlan::Limit { source, count } => lowered(*source, q),
        _ => q == PhysicalPlan::Scan { label: None },
    }
}

/// `floor(log2(n))`, with 0 for `n <= 1`.
pub open spec fn log2_floor(n: nat) -> nat
    decreases n,
{
    if n <= 1 {
        0
    } else {
        1 + log2_floor(n / 2)
    }
}

/// Estimated cost of a plan, in tenths of a row: a scan reads every node, an
/// index lookup about `log2 |N|`, a filter adds a tenth of a row per node, a
/// projection one row, a limit caps its input and a join multiplies.
pub open spec fn cost(plan: LogicalPlan, nodes: nat) -> nat
    decreases plan,
{
    match plan {
        LogicalPlan::NodeScan { .. } => 10 * nodes,
        LogicalPlan::IndexLookup { .. } => 10 * log2_floor(nodes),
        LogicalPlan::Filter { source, .. } => cost(*source, nodes) + nodes,
        LogicalPlan::Project { source, .. } => cost(*source, nodes) + 10,
        LogicalPlan::Limit { source, count } => {
            let c = cost(*source, nodes);
            let cap = if count < 0 { 0 } else { 10 * count as nat };
            if c < cap { c } else { cap }
        },
        LogicalPlan::Join { left, right } => cost(*left, nodes) * cost(*right, nodes) / 10,
    }
}

/// Every intermediate cost of `plan` fits in 128 bits.
pub open spec fn cost_fits(plan: LogicalPlan, nodes: nat) -> bool
    decreases plan,
{
    match plan {
        LogicalPlan::NodeScan { .. } => 10 * nodes <= u128::MAX,
        LogicalPlan::IndexLookup { .. } => true,
        LogicalPlan::Filter { source, .. } => cost_fits(*source, nodes) && cost(*source, nodes) + nodes <= u128::MAX,
        LogicalPlan::Project { source, .. } => cost_fits(*source, nodes) && cost(*source, nodes) + 10 <= u128::MAX,
        LogicalPlan::Limit { source, .. } => cost_fits(*source, nodes),
        LogicalPlan::Join { left, right } => cost_fits(*left, nodes) && cost_fits(*right, nodes) && cost(*left, nodes) * cost(
            *right,
            nodes,
        ) <= u128::MAX,
    }
}

fn log2_of(n: u64) -> (r: u64)
    ensures
        r == log2_floor(n as nat),
{
    let mut m = n;
    let mut r: u64 = 0;
    proof {
        lemma_log2_le(n as nat);
    }
    while m > 1
        invariant
            log2_floor(n as nat) == r + log2_floor(m as nat),
            log2_floor(n as nat) <= n,
        decreases m,
    {
        m = m / 2;
        r = r + 1;
    }
    r
}

proof fn lemma_log2_le(n: nat)
    ensures
        log2_floor(n) <= n,
    decreases n,
{
    if n > 1 {
        lemma_log2_le(n / 2);
    }
}

impl QueryPlanner {
    /// The estimated cost of `plan` (see `cost`), or `None` when it does not
    /// fit in 128 bits along the way.
    pub fn estimate_cost(&self, plan: &LogicalPlan) -> (r: Option<u128>)
        ensures
            r is Some <==> cost_fits(*plan, self.stats.node_count as nat),
            r is Some ==> r->Some_0 == cost(*plan, self.stats.node_count as nat),
        decreases plan,
    {
        let n = self.stats.node_count as u128;
        match plan {
            LogicalPlan::NodeScan { .. } => Some(10 * n),
            LogicalPlan::IndexLookup { .. } => {
                let l = log2_of(self.stats.node_count as u64);
                Some(10 * l as u128)
            },
            LogicalPlan::Filter { source, .. } => {
                let c = self.estimate_cost(source)?;
                c.checked_add(n)
            },
            LogicalPlan::Project { source, .. } => {
                let c = self.estimate_cost(source)?;
                c.checked_add(10)
            },
            LogicalPlan::Limit { source, count } => {
                let c = self.estimate_cost(source)?;
                let cap: u128 = if *count < 0 { 0 } else { 10 * (*count as u128) };
                Some(if c < cap { c } else { cap })
            },
            LogicalPlan::Join { left, right } => {
                let a = self.estimate_cost(left)?;
                let b = self.estimate_cost(right)?;
                match a.checked_mul(b) {
                    Some(p) => Some(p / 10),
                    None => None,
                }
            },
        }
    }
}

} // verus!
