//! Expression evaluation over rows and the pull-based operators.
use vstd::prelude::*;

use crate::error::DeepGraphError;
use crate::graph::{
    NodeView, PVal, PropertyValue, Properties, keys_unique, lemma_prop_get_unique, node_wf, prop_get, props_clone, props_find,
    props_set, props_view, uuid_text, Node,
};
use crate::memory::{MemoryStorage, lists_nodes, node_views};
use crate::query::ast::Expression;
use crate::query::ast::Query;
use crate::query::parser::{CypherParser, is_read_text};
use crate::query::ast::ReadQuery;
use crate::query::planner::{LogicalPlan, PhysicalPlan, QueryPlanner, lowered, plan_of};
use crate::text::chars_of;

verus! {

broadcast use vstd::std_specs::vec::axiom_vec_index_decreases;

/// A result row: column names with values, names distinct.
pub type Row = Properties;

/// The value of column `k` in a row (null when absent).
pub open spec fn column(row: Seq<(Seq<char>, PVal)>, k: Seq<char>) -> PVal {
    match prop_get(row, k) {
        Some(v) => v,
        None => PVal::Null,
    }
}

/// Truthiness: a boolean is itself, null is false, anything else is true.
pub open spec fn truthy(v: PVal) -> bool {
    match v {
        PVal::Bool(b) => b,
        PVal::Null => false,
        _ => true,
    }
}

/// Whether two values carry the same tag.
pub open spec fn same_kind(a: PVal, b: PVal) -> bool {
    match (a, b) {
        (PVal::Str(_), PVal::Str(_)) => true,
        (PVal::Int(_), PVal::Int(_)) => true,
        (PVal::Float(_), PVal::Float(_)) => true,
        (PVal::Bool(_), PVal::Bool(_)) => true,
        (PVal::Null, PVal::Null) => true,
        (PVal::List(_), PVal::List(_)) => true,
        (PVal::Dict(_), PVal::Dict(_)) => true,
        _ => false,
    }
}

/// Lexicographic order on character sequences.
pub open spec fn seq_lt(a: Seq<char>, b: Seq<char>) -> bool
    decreases a.len(),
{
    if a.len() == 0 {
        b.len() > 0
    } else if b.len() == 0 {
        false
    } else if a[0] != b[0] {
        a[0] < b[0]
    } else {
        seq_lt(a.drop_first(), b.drop_first())
    }
}

/// `a < b` for two integers or two strings; `None` for other pairs.
pub open spec fn less(a: PVal, b: PVal) -> Option<bool> {
    match (a, b) {
        (PVal::Int(x), PVal::Int(y)) => Some(x < y),
        (PVal::Str(x), PVal::Str(y)) => Some(seq_lt(x, y)),
        _ => None,
    }
}

pub open spec fn in_i64(x: int) -> bool {
    i64::MIN <= x <= i64::MAX
}

/// Integer division rounding toward zero.
pub open spec fn tdiv(a: int, b: int) -> int {
    let q = abs(a) / abs(b);
    if (a < 0) != (b < 0) {
        -q
    } else {
        q
    }
}

/// Remainder of the division rounding toward zero (sign of the dividend).
pub open spec fn trem(a: int, b: int) -> int {
    let m = abs(a) % abs(b);
    if a < 0 {
        -m
    } else {
        m
    }
}

pub open spec fn abs(a: int) -> int {
    if a < 0 {
        -a
    } else {
        a
    }
}

/// An integer result, or `None` when it leaves the 64-bit range.
pub open spec fn int_result(x: int) -> Option<PVal> {
    if in_i64(x) {
        Some(PVal::Int(x))
    } else {
        None
    }
}

/// Arithmetic on two evaluated operands; `op` is 0 for `+`, 1 for `-`, 2 for
/// `*`, 3 for `/` and 4 for `%`.
pub open spec fn arith(op: int, a: PVal, b: PVal) -> Option<PVal> {
    match (a, b) {
        (PVal::Int(x), PVal::Int(y)) => if op == 0 {
            int_result(x + y)
        } else if op == 1 {
            int_result(x - y)
        } else if op == 2 {
            int_result(x * y)
        } else if y == 0 {
            None
        } else if op == 3 {
            int_result(tdiv(x, y))
        } else {
            int_result(trem(x, y))
        },
        (PVal::Str(x), PVal::Str(y)) => if op == 0 {
            Some(PVal::Str(x + y))
        } else {
            None
        },
        _ => None,
    }
}

/// Comparison of two evaluated operands; `op` is 0 for `=`, 1 for `<>`, 2 for
/// `<`, 3 for `<=`, 4 for `>` and 5 for `>=`.
pub open spec fn compare(op: int, a: PVal, b: PVal) -> Option<PVal> {
    if op == 0 || op == 1 {
        if same_kind(a, b) {
            Some(PVal::Bool(if op == 0 { a == b } else { a != b }))
        } else {
            None
        }
    } else {
        match (less(a, b), less(b, a)) {
            (Some(lt), Some(gt)) => Some(
                PVal::Bool(
                    if op == 2 {
                        lt
                    } else if op == 3 {
                        !gt
                    } else if op == 4 {
                        gt
                    } else {
                        !lt
                    },
                ),
            ),
            _ => None,
        }
    }
}

/// The value of an expression on a row, or `None` where evaluation fails
/// (a type mismatch, division by zero, an integer overflow, or a construct
/// the evaluator does not support).
pub open spec fn eval(e: Expression, row: Seq<(Seq<char>, PVal)>) -> Option<PVal>
    decreases e,
{
    match e {
        Expression::Literal(v) => Some(v@),
        Expression::Variable(n) => Some(column(row, n@)),
        Expression::Property(b, k) => match *b {
            Expression::Variable(_) => Some(column(row, k@)),
            _ => None,
        },
        Expression::And(a, b) => match (eval(*a, row), eval(*b, row)) {
            (Some(x), Some(y)) => Some(PVal::Bool(truthy(x) && truthy(y))),
            _ => None,
        },
        Expression::Or(a, b) => match (eval(*a, row), eval(*b, row)) {
            (Some(x), Some(y)) => Some(PVal::Bool(truthy(x) || truthy(y))),
            _ => None,
        },
        Expression::Not(a) => match eval(*a, row) {
            Some(x) => Some(PVal::Bool(!truthy(x))),
            None => None,
        },
        Expression::Neg(a) => match eval(*a, row) {
            Some(PVal::Int(x)) => int_result(-x),
            _ => None,
        },
        Expression::Eq(a, b) => bin(0, eval(*a, row), eval(*b, row), false),
        Expression::Ne(a, b) => bin(1, eval(*a, row), eval(*b, row), false),
        Expression::Lt(a, b) => bin(2, eval(*a, row), eval(*b, row), false),
        Expression::Le(a, b) => bin(3, eval(*a, row), eval(*b, row), false),
        Expression::Gt(a, b) => bin(4, eval(*a, row), eval(*b, row), false),
        Expression::Ge(a, b) => bin(5, eval(*a, row), eval(*b, row), false),
        Expression::Add(a, b) => bin(0, eval(*a, row), eval(*b, row), true),
        Expression::Sub(a, b) => bin(1, eval(*a, row), eval(*b, row), true),
        Expression::Mul(a, b) => bin(2, eval(*a, row), eval(*b, row), true),
        Expression::Div(a, b) => bin(3, eval(*a, row), eval(*b, row), true),
        Expression::Mod(a, b) => bin(4, eval(*a, row), eval(*b, row), true),
        _ => None,
    }
}

/// A binary arithmetic (`is_arith`) or comparison operator on evaluated operands.
pub open spec fn bin(op: int, a: Option<PVal>, b: Option<PVal>, is_arith: bool) -> Option<PVal> {
    match (a, b) {
        (Some(x), Some(y)) => if is_arith {
            arith(op, x, y)
        } else {
            compare(op, x, y)
        },
        _ => None,
    }
}

/// `a` followed by `b`.
fn concat(a: &str, b: &str) -> (r: String)
    ensures
        r@ == a@ + b@,
{
    let s = <String as vstd::string::StringExecFns>::from_str(a);
    vstd::string::StringExecFns::concat(s, b)
}

fn invalid() -> (r: DeepGraphError) {
    DeepGraphError::InvalidOperation("unsupported operand types".to_string())
}

/// Lexicographic comparison of two strings.
fn str_lt(a: &str, b: &str) -> (r: bool)
    ensures
        r == seq_lt(a@, b@),
{
    let x = chars_of(a);
    let y = chars_of(b);
    let mut i: usize = 0;
    proof {
        assert(x@.subrange(0, x@.len() as int) =~= x@);
        assert(y@.subrange(0, y@.len() as int) =~= y@);
    }
    while i < x.len() && i < y.len() && x[i] == y[i]
        invariant
            i <= x@.len(),
            i <= y@.len(),
            seq_lt(a@, b@) == seq_lt(x@.subrange(i as int, x@.len() as int), y@.subrange(i as int, y@.len() as int)),
        decreases x.len() - i,
    {
        proof {
            let xs = x@.subrange(i as int, x@.len() as int);
            let ys = y@.subrange(i as int, y@.len() as int);
            assert(xs.drop_first() =~= x@.subrange(i + 1, x@.len() as int));
            assert(ys.drop_first() =~= y@.subrange(i + 1, y@.len() as int));
        }
        i = i + 1;
    }
    if i == x.len() {
        i < y.len()
    } else if i == y.len() {
        false
    } else {
        x[i] < y[i]
    }
}

fn truthy_exec(v: &PropertyValue) -> (r: bool)
    ensures
        r == truthy(v@),
{
    match v {
        PropertyValue::Boolean(b) => *b,
        PropertyValue::Null => false,
        _ => true,
    }
}

fn same_kind_exec(a: &PropertyValue, b: &PropertyValue) -> (r: bool)
    ensures
        r == same_kind(a@, b@),
{
    match (a, b) {
        (PropertyValue::String(_), PropertyValue::String(_)) => true,
        (PropertyValue::Integer(_), PropertyValue::Integer(_)) => true,
        (PropertyValue::Float(_), PropertyValue::Float(_)) => true,
        (PropertyValue::Boolean(_), PropertyValue::Boolean(_)) => true,
        (PropertyValue::Null, PropertyValue::Null) => true,
        (PropertyValue::List(_), PropertyValue::List(_)) => true,
        (PropertyValue::Dict(_), PropertyValue::Dict(_)) => true,
        _ => false,
    }
}

fn less_exec(a: &PropertyValue, b: &PropertyValue) -> (r: Option<bool>)
    ensures
        r == less(a@, b@),
{
    match (a, b) {
        (PropertyValue::Integer(x), PropertyValue::Integer(y)) => Some(*x < *y),
        (PropertyValue::String(x), PropertyValue::String(y)) => Some(str_lt(x.as_str(), y.as_str())),
        _ => None,
    }
}

/// Applies a comparison operator (see `compare`).
pub fn compare_values(op: u8, a: &PropertyValue, b: &PropertyValue) -> (r: Result<PropertyValue, DeepGraphError>)
    requires
        op <= 5,
    ensures
        match compare(op as int, a@, b@) {
            Some(v) => r is Ok && r->Ok_0@ == v,
            None => r is Err,
        },
{
    if op == 0 || op == 1 {
        if !same_kind_exec(a, b) {
            return Err(invalid());
        }
        let eq = a.equals(b);
        return Ok(PropertyValue::Boolean(if op == 0 { eq } else { !eq }));
    }
    match (less_exec(a, b), less_exec(b, a)) {
        (Some(lt), Some(gt)) => {
            let res = if op == 2 {
                lt
            } else if op == 3 {
                !gt
            } else if op == 4 {
                gt
            } else {
                !lt
            };
            Ok(PropertyValue::Boolean(res))
        },
        _ => Err(invalid()),
    }
}

/// Applies an arithmetic operator (see `arith`).
pub fn arith_values(op: u8, a: &PropertyValue, b: &PropertyValue) -> (r: Result<PropertyValue, DeepGraphError>)
    requires
        op <= 4,
    ensures
        match arith(op as int, a@, b@) {
            Some(v) => r is Ok && r->Ok_0@ == v,
            None => r is Err,
        },
{
    match (a, b) {
        (PropertyValue::Integer(x), PropertyValue::Integer(y)) => {
            let x = *x;
            let y = *y;
            if op == 0 {
                match x.checked_add(y) {
                    Some(z) => Ok(PropertyValue::Integer(z)),
                    None => Err(DeepGraphError::InvalidOperation("integer overflow".to_string())),
                }
            } else if op == 1 {
                match x.checked_sub(y) {
                    Some(z) => Ok(PropertyValue::Integer(z)),
                    None => Err(DeepGraphError::InvalidOperation("integer overflow".to_string())),
                }
            } else if op == 2 {
                match x.checked_mul(y) {
                    Some(z) => Ok(PropertyValue::Integer(z)),
                    None => Err(DeepGraphError::InvalidOperation("integer overflow".to_string())),
                }
            } else if y == 0 {
                Err(DeepGraphError::InvalidOperation("division by zero".to_string()))
            } else {
                let ux: u64 = if x < 0 { (-(x as i128)) as u64 } else { x as u64 };
                let uy: u64 = if y < 0 { (-(y as i128)) as u64 } else { y as u64 };
                if op == 3 {
                    let q = ux / uy;
                    let neg = (x < 0) != (y < 0);
                    if neg {
                        Ok(PropertyValue::Integer((-(q as i128)) as i64))
                    } else if q <= i64::MAX as u64 {
                        Ok(PropertyValue::Integer(q as i64))
                    } else {
                        Err(DeepGraphError::InvalidOperation("integer overflow".to_string()))
                    }
                } else {
                    let m = ux % uy;
                    proof {
                        assert(m < uy);
                    }
                    if x < 0 {
                        Ok(PropertyValue::Integer((-(m as i128)) as i64))
                    } else {
                        Ok(PropertyValue::Integer(m as i64))
                    }
                }
            }
        },
        (PropertyValue::String(x), PropertyValue::String(y)) => {
            if op == 0 {
                Ok(PropertyValue::String(concat(x.as_str(), y.as_str())))
            } else {
                Err(invalid())
            }
        },
        _ => Err(invalid()),
    }
}

/// The value of column `key` in a row (null when absent).
pub fn get_column(row: &Row, key: &str) -> (r: PropertyValue)
    requires
        keys_unique(props_view(row@)),
    ensures
        r@ == column(props_view(row@), key@),
{
    match props_find(row, key) {
        Some(i) => {
            proof {
                crate::graph::lemma_prop_get_unique(props_view(row@), i as int);
            }
            row[i].1.deep_clone()
        },
        None => {
            proof {
                assert forall|j: int| 0 <= j < props_view(row@).len() implies props_view(row@)[j].0 != key@ by {
                    assert(props_view(row@)[j].0 == row@[j].0@);
                }
            }
            PropertyValue::Null
        },
    }
}

/// Evaluates an expression on a row.
pub fn evaluate(e: &Expression, row: &Row) -> (r: Result<PropertyValue, DeepGraphError>)
    requires
        keys_unique(props_view(row@)),
    ensures
        match eval(*e, props_view(row@)) {
            Some(v) => r is Ok && r->Ok_0@ == v,
            None => r is Err,
        },
    decreases e,
{
    match e {
        Expression::Literal(v) => Ok(v.deep_clone()),
        Expression::Variable(n) => Ok(get_column(row, n.as_str())),
        Expression::Property(b, k) => match &**b {
            Expression::Variable(_) => Ok(get_column(row, k.as_str())),
            _ => Err(DeepGraphError::InvalidOperation("property access on a non-variable".to_string())),
        },
        Expression::And(a, b) => {
            let x = evaluate(a, row)?;
            let y = evaluate(b, row)?;
            Ok(PropertyValue::Boolean(truthy_exec(&x) && truthy_exec(&y)))
        },
        Expression::Or(a, b) => {
            let x = evaluate(a, row)?;
            let y = evaluate(b, row)?;
            Ok(PropertyValue::Boolean(truthy_exec(&x) || truthy_exec(&y)))
        },
        Expression::Not(a) => {
            let x = evaluate(a, row)?;
            Ok(PropertyValue::Boolean(!truthy_exec(&x)))
        },
        Expression::Neg(a) => {
            let x = evaluate(a, row)?;
            match x {
                PropertyValue::Integer(i) => match 0i64.checked_sub(i) {
                    Some(z) => Ok(PropertyValue::Integer(z)),
                    None => Err(DeepGraphError::InvalidOperation("integer overflow".to_string())),
                },
                _ => Err(invalid()),
            }
        },
        Expression::Eq(a, b) => {
            let x = evaluate(a, row)?;
            let y = evaluate(b, row)?;
            compare_values(0, &x, &y)
        },
        Expression::Ne(a, b) => {
            let x = evaluate(a, row)?;
            let y = evaluate(b, row)?;
            compare_values(1, &x, &y)
        },
        Expression::Lt(a, b) => {
            let x = evaluate(a, row)?;
            let y = evaluate(b, row)?;
            compare_values(2, &x, &y)
        },
        Expression::Le(a, b) => {
            let x = evaluate(a, row)?;
            let y = evaluate(b, row)?;
            compare_values(3, &x, &y)
        },
        Expression::Gt(a, b) => {
            let x = evaluate(a, row)?;
            let y = evaluate(b, row)?;
            compare_values(4, &x, &y)
        },
        Expression::Ge(a, b) => {
            let x = evaluate(a, row)?;
            let y = evaluate(b, row)?;
            compare_values(5, &x, &y)
        },
        Expression::Add(a, b) => {
            let x = evaluate(a, row)?;
            let y = evaluate(b, row)?;
            arith_values(0, &x, &y)
        },
        Expression::Sub(a, b) => {
            let x = evaluate(a, row)?;
            let y = evaluate(b, row)?;
            arith_values(1, &x, &y)
        },
        Expression::Mul(a, b) => {
            let x = evaluate(a, row)?;
            let y = evaluate(b, row)?;
            arith_values(2, &x, &y)
        },
        Expression::Div(a, b) => {
            let x = evaluate(a, row)?;
            let y = evaluate(b, row)?;
            arith_values(3, &x, &y)
        },
        Expression::Mod(a, b) => {
            let x = evaluate(a, row)?;
            let y = evaluate(b, row)?;
            arith_values(4, &x, &y)
        },
        _ => Err(DeepGraphError::InvalidOperation("unsupported expression".to_string())),
    }
}

/// The name of the column that carries a node's identifier.
pub open spec fn id_column() -> Seq<char> {
    seq!['_', 'n', 'o', 'd', 'e', '_', 'i', 'd']
}

/// The row of a scanned node: its properties plus `_node_id`.
pub open spec fn node_row_ok(row: Seq<(Seq<char>, PVal)>, n: NodeView) -> bool {
    &&& keys_unique(row)
    &&& prop_get(row, id_column()) == Some(PVal::Str(uuid_text(n.id)))
    &&& forall|k: Seq<char>| k != id_column() ==> #[trigger] prop_get(row, k) == prop_get(n.props, k)
}

/// The row for one node.
pub fn node_row(n: &Node) -> (r: Row)
    requires
        node_wf(n@),
    ensures
        node_row_ok(props_view(r@), n@),
{
    let mut row = props_clone(&n.properties);
    let key = chars_to_string_id();
    props_set(&mut row, key, PropertyValue::String(n.id.to_string()));
    row
}

fn chars_to_string_id() -> (r: String)
    ensures
        r@ == id_column(),
{
    let r = "_node_id".to_string();
    proof {
        vstd::string::to_string_from_display_ensures_for_str("_node_id", r);
        reveal_strlit("_node_id");
        assert(r@ =~= id_column());
    }
    r
}

/// Keeps the rows on which the predicate evaluates to boolean true; rows where
/// evaluation fails or yields anything else are dropped.
pub fn filter_rows(rows: Vec<Row>, predicate: &Expression) -> (r: Vec<Row>)
    requires
        forall|i: int| 0 <= i < rows@.len() ==> keys_unique(props_view(#[trigger] rows@[i]@)),
    ensures
        forall|i: int| 0 <= i < r@.len() ==> keys_unique(props_view(#[trigger] r@[i]@)),
        rows_view(r@) == filter_spec(rows_view(rows@), *predicate),
{
    let ghost f = |row: Seq<(Seq<char>, PVal)>| eval(*predicate, row) == Some(PVal::Bool(true));
    let ghost all = rows_view(rows@);
    let mut out: Vec<Row> = Vec::new();
    let mut rest = rows;
    proof {
        assert(all =~= rows_view(rest@));
    }
    while rest.len() > 0
        invariant
            forall|i: int| 0 <= i < rest@.len() ==> keys_unique(props_view(#[trigger] rest@[i]@)),
            forall|i: int| 0 <= i < out@.len() ==> keys_unique(props_view(#[trigger] out@[i]@)),
            rows_view(out@) + rows_view(rest@).filter(f) == all.filter(f),
            f == |row: Seq<(Seq<char>, PVal)>| eval(*predicate, row) == Some(PVal::Bool(true)),
        decreases rest.len(),
    {
        let ghost before = rest@;
        let ghost o0 = out@;
        let row = rest.remove(0);
        proof {
            assert(keys_unique(props_view(before[0]@)));
            assert(rows_view(before) =~= seq![props_view(row@)] + rows_view(rest@));
            crate::mvcc::lemma_filter_cons_pub(props_view(row@), rows_view(rest@), f);
            assert forall|i: int| 0 <= i < rest@.len() implies keys_unique(props_view(#[trigger] rest@[i]@)) by {
                assert(rest@[i] == before[i + 1]);
            }
        }
        let res = evaluate(predicate, &row);
        let keep = match res {
            Ok(PropertyValue::Boolean(true)) => true,
            _ => false,
        };
        proof {
            assert(keep == f(props_view(row@)));
        }
        if keep {
            out.push(row);
            proof {
                assert(rows_view(out@) =~= rows_view(o0).push(props_view(out@[out@.len() - 1]@)));
                assert(rows_view(out@) + rows_view(rest@).filter(f) =~= rows_view(o0) + (seq![props_view(out@[out@.len() - 1]@)] + rows_view(rest@).filter(f)));
            }
        } else {
            proof {
                assert(rows_view(out@) == rows_view(o0));
            }
        }
    }
    proof {
        assert(rows_view(rest@) =~= Seq::empty());
        assert(rows_view(rest@).filter(f) =~= Seq::empty());
        assert(filter_spec(all, *predicate) == all.filter(f));
        assert(rows_view(out@) + Seq::<Seq<(Seq<char>, PVal)>>::empty() =~= rows_view(out@));
    }
    out
}

/// The rows on which the predicate evaluates to boolean true.
pub open spec fn filter_spec(rows: Seq<Seq<(Seq<char>, PVal)>>, predicate: Expression) -> Seq<Seq<(Seq<char>, PVal)>> {
    rows.filter(|row: Seq<(Seq<char>, PVal)>| eval(predicate, row) == Some(PVal::Bool(true)))
}

/// Every row projected on the columns.
pub open spec fn project_all(rows: Seq<Seq<(Seq<char>, PVal)>>, cols: Seq<Seq<char>>) -> Seq<Seq<(Seq<char>, PVal)>> {
    rows.map_values(|row: Seq<(Seq<char>, PVal)>| project_spec(row, cols))
}

/// The names of a list of columns.
pub open spec fn names_view(cols: Seq<String>) -> Seq<Seq<char>> {
    cols.map_values(|c: String| c@)
}

/// The models of a list of rows.
pub open spec fn rows_view(rows: Seq<Row>) -> Seq<Seq<(Seq<char>, PVal)>> {
    rows.map_values(|r: Row| props_view(r@))
}

/// The projection of a row on the given columns, in column order, skipping
/// columns the row lacks and columns already taken.
pub open spec fn project_spec(row: Seq<(Seq<char>, PVal)>, cols: Seq<Seq<char>>) -> Seq<(Seq<char>, PVal)>
    decreases cols.len(),
{
    if cols.len() == 0 {
        Seq::empty()
    } else {
        let init = project_spec(row, cols.drop_last());
        match prop_get(row, cols.last()) {
            Some(v) => if prop_get(init, cols.last()) is None {
                init.push((cols.last(), v))
            } else {
                init
            },
            None => init,
        }
    }
}

/// Restricts a row to the given columns.
pub fn project_row(row: &Row, columns: &Vec<String>) -> (r: Row)
    requires
        keys_unique(props_view(row@)),
    ensures
        props_view(r@) == project_spec(props_view(row@), columns@.map_values(|c: String| c@)),
{
    let ghost cols = columns@.map_values(|c: String| c@);
    let mut out: Row = Vec::new();
    let mut i: usize = 0;
    proof {
        assert(props_view(out@) =~= Seq::empty());
    }
    while i < columns.len()
        invariant
            keys_unique(props_view(row@)),
            keys_unique(props_view(out@)),
            cols == columns@.map_values(|c: String| c@),
            i <= columns@.len(),
            props_view(out@) == project_spec(props_view(row@), cols.subrange(0, i as int)),
        decreases columns.len() - i,
    {
        let ghost sub = cols.subrange(0, i + 1);
        proof {
            assert(sub.drop_last() =~= cols.subrange(0, i as int));
            assert(sub.last() == columns@[i as int]@);
        }
        let taken = props_find(&out, columns[i].as_str());
        proof {
            match taken {
                Some(t) => {
                    lemma_prop_get_unique(props_view(out@), t as int);
                },
                None => {
                    assert forall|k: int| 0 <= k < props_view(out@).len() implies props_view(out@)[k].0 != sub.last() by {
                        assert(props_view(out@)[k].0 == out@[k].0@);
                    }
                },
            }
        }
        match props_find(row, columns[i].as_str()) {
            Some(j) => {
                proof {
                    lemma_prop_get_unique(props_view(row@), j as int);
                }
                if taken.is_none() {
                    let ghost o0 = props_view(out@);
                    out.push((columns[i].clone(), row[j].1.deep_clone()));
                    proof {
                        assert(props_view(out@) =~= o0.push((sub.last(), props_view(row@)[j as int].1)));
                        assert forall|a: int, b: int|
                            0 <= a < props_view(out@).len() && 0 <= b < props_view(out@).len() && a != b implies props_view(
                            out@,
                        )[a].0 != props_view(out@)[b].0 by {
                            if a < o0.len() && b < o0.len() {
                            } else if a == o0.len() {
                                assert(o0[b].0 != sub.last());
                            } else {
                                assert(o0[a].0 != sub.last());
                            }
                        }
                    }
                }
            },
            None => {
                proof {
                    assert forall|k: int| 0 <= k < props_view(row@).len() implies props_view(row@)[k].0 != sub.last() by {
                        assert(props_view(row@)[k].0 == row@[k].0@);
                    }
                }
            },
        }
        i = i + 1;
    }
    proof {
        assert(cols.subrange(0, columns@.len() as int) =~= cols);
    }
    out
}

/// The tabular result of a query.
#[derive(Debug)]
pub struct QueryResult {
    pub columns: Vec<String>,
    pub rows: Vec<Row>,
    pub row_count: usize,
    pub execution_time_ms: u64,
}

impl QueryResult {
    pub fn empty() -> (r: QueryResult)
        ensures
            r.columns@.len() == 0,
            r.rows@.len() == 0,
            r.row_count == 0,
            r.execution_time_ms == 0,
    {
        QueryResult { columns: Vec::new(), rows: Vec::new(), row_count: 0, execution_time_ms: 0 }
    }

    pub fn with_data(columns: Vec<String>, rows: Vec<Row>) -> (r: QueryResult)
        ensures
            r.columns@ == columns@,
            r.rows@ == rows@,
            r.row_count == rows@.len(),
            r.execution_time_ms == 0,
    {
        let row_count = rows.len();
        QueryResult { columns, rows, row_count, execution_time_ms: 0 }
    }
}

/// Whether a scan for `label` (every node when None) keeps node `n`.
pub open spec fn label_filter(label: Option<Seq<char>>, n: NodeView) -> bool {
    match label {
        Some(l) => n.labels.contains(l),
        None => true,
    }
}

pub open spec fn opt_str_view(l: Option<&str>) -> Option<Seq<char>> {
    match l {
        Some(x) => Some(x@),
        None => None,
    }
}

pub open spec fn opt_string_view(l: Option<String>) -> Option<Seq<char>> {
    match l {
        Some(x) => Some(x@),
        None => None,
    }
}

/// `rows` are the rows of `ns`, which lists the nodes a scan for `label` keeps.
pub open spec fn scan_result(
    rows: Seq<Seq<(Seq<char>, PVal)>>,
    ns: Seq<NodeView>,
    nodes: Map<u128, NodeView>,
    label: Option<Seq<char>>,
) -> bool {
    rows_of_nodes(rows, ns) && lists_nodes(ns, nodes, |n: NodeView| label_filter(label, n))
}

/// Row `i` is the row of node `i`.
pub open spec fn rows_of_nodes(rows: Seq<Seq<(Seq<char>, PVal)>>, ns: Seq<NodeView>) -> bool {
    &&& ns.len() == rows.len()
    &&& forall|i: int| 0 <= i < rows.len() ==> node_row_ok(#[trigger] rows[i], ns[i])
}

/// One row per node that carries `label` (every node when `label` is None).
pub fn scan_rows(storage: &MemoryStorage, label: Option<&str>) -> (r: Vec<Row>)
    requires
        storage.wf(),
    ensures
        forall|i: int| 0 <= i < r@.len() ==> keys_unique(props_view(#[trigger] r@[i]@)),
        exists|ns: Seq<NodeView>|
            #[trigger] scan_result(rows_view(r@), ns, storage@.nodes, opt_str_view(label)),
{
    let nodes = match label {
        Some(l) => storage.get_nodes_by_label(l),
        None => storage.get_all_nodes(),
    };
    proof {
        let lv = match label {
            Some(l) => Some(l@),
            None => None,
        };
        match label {
            Some(l) => {
                assert((|n: NodeView| label_filter(lv, n)) =~= (|n: NodeView| n.labels.contains(l@)));
            },
            None => {
                assert((|n: NodeView| label_filter(lv, n)) =~= (|n: NodeView| true));
            },
        }
    }
    proof {
        storage.lemma_wf();
        let nv = node_views(nodes@);
        assert forall|i: int| 0 <= i < nodes@.len() implies node_wf(#[trigger] nodes@[i]@) by {
            assert(nv[i] == nodes@[i]@);
            assert(storage@.nodes.contains_key(nv[i].id));
        }
    }
    let mut rows: Vec<Row> = Vec::new();
    let mut i: usize = 0;
    while i < nodes.len()
        invariant
            i <= nodes@.len(),
            rows@.len() == i,
            forall|k: int| 0 <= k < nodes@.len() ==> node_wf(#[trigger] nodes@[k]@),
            forall|k: int| 0 <= k < i ==> node_row_ok(props_view(#[trigger] rows@[k]@), nodes@[k]@),
        decreases nodes.len() - i,
    {
        rows.push(node_row(&nodes[i]));
        i = i + 1;
    }
    proof {
        let nv = node_views(nodes@);
        assert forall|k: int| 0 <= k < rows@.len() implies node_row_ok(#[trigger] rows_view(rows@)[k], nv[k]) by {
            assert(nv[k] == nodes@[k]@);
            assert(rows_view(rows@)[k] == props_view(rows@[k]@));
        }
        assert(rows_of_nodes(rows_view(rows@), nv));
        let lv = opt_str_view(label);
        assert(scan_result(rows_view(rows@), nv, storage@.nodes, lv));
    }
    rows
}

/// `rows` is a possible result of `plan` on the graph `g` (scans list nodes in
/// an unspecified order).
pub open spec fn result_of(plan: PhysicalPlan, g: crate::memory::GraphView, rows: Seq<Seq<(Seq<char>, PVal)>>) -> bool
    decreases plan,
{
    match plan {
        PhysicalPlan::Scan { label } => exists|ns: Seq<NodeView>|
            #[trigger] scan_result(rows, ns, g.nodes, opt_string_view(label)),
        PhysicalPlan::Filter { source, predicate } => exists|src: Seq<Seq<(Seq<char>, PVal)>>|
            rows == #[trigger] filter_spec(src, predicate) && result_of(*source, g, src),
        PhysicalPlan::Project { source, columns } => exists|src: Seq<Seq<(Seq<char>, PVal)>>|
            rows == #[trigger] project_all(src, names_view(columns@)) && result_of(*source, g, src),
        _ => rows.len() == 0,
    }
}

/// The distinct column names of some rows, in order of first appearance.
fn collect_columns(rows: &Vec<Row>) -> (r: Vec<String>) {
    let mut cols: Vec<String> = Vec::new();
    let mut i: usize = 0;
    while i < rows.len()
        invariant
            i <= rows@.len(),
        decreases rows.len() - i,
    {
        let row = &rows[i];
        let mut j: usize = 0;
        while j < row.len()
            invariant
                j <= row@.len(),
            decreases row.len() - j,
        {
            let mut seen = false;
            let mut k: usize = 0;
            while k < cols.len()
                invariant
                    j < row@.len(),
                    k <= cols@.len(),
                decreases cols.len() - k,
            {
                if crate::graph::str_eq(cols[k].as_str(), row[j].0.as_str()) {
                    seen = true;
                }
                k = k + 1;
            }
            if !seen {
                cols.push(row[j].0.clone());
            }
            j = j + 1;
        }
        i = i + 1;
    }
    cols
}

/// Runs a physical plan against the store, pulling rows from the scan up
/// through filters and projections. Index scans yield no rows here.
pub fn execute(storage: &MemoryStorage, plan: &PhysicalPlan) -> (r: QueryResult)
    requires
        storage.wf(),
    ensures
        result_of(*plan, storage@, rows_view(r.rows@)),
        r.row_count == r.rows@.len(),
        forall|i: int| 0 <= i < r.rows@.len() ==> keys_unique(props_view(#[trigger] r.rows@[i]@)),
    decreases plan,
{
    match plan {
        PhysicalPlan::Scan { label } => {
            let arg: Option<&str> = match label {
                Some(l) => Some(l.as_str()),
                None => None,
            };
            let rows = scan_rows(storage, arg);
            let columns = collect_columns(&rows);
            let res = QueryResult::with_data(columns, rows);
            proof {
                let a = opt_string_view(*label);
                let b = opt_str_view(arg);
                assert(a == b);
                let ns = choose|ns: Seq<NodeView>| #[trigger] scan_result(rows_view(res.rows@), ns, storage@.nodes, b);
                assert(scan_result(rows_view(res.rows@), ns, storage@.nodes, a));
                assert(*plan == PhysicalPlan::Scan { label: *label });
                assert(result_of(PhysicalPlan::Scan { label: *label }, storage@, rows_view(res.rows@)));
            }
            res
        },
        PhysicalPlan::Filter { source, predicate } => {
            let src = execute(storage, source);
            let ghost sv = rows_view(src.rows@);
            let rows = filter_rows(src.rows, predicate);
            let res = QueryResult::with_data(src.columns, rows);
            proof {
                assert(result_of(**source, storage@, sv));
                assert(rows_view(res.rows@) == filter_spec(sv, *predicate));
                assert(*plan == PhysicalPlan::Filter { source: *source, predicate: *predicate });
                assert(result_of(*plan, storage@, rows_view(res.rows@)));
            }
            res
        },
        PhysicalPlan::Project { source, columns } => {
            let src = execute(storage, source);
            let ghost sv = rows_view(src.rows@);
            let ghost cs = columns@.map_values(|c: String| c@);
            let mut rows: Vec<Row> = Vec::new();
            let mut i: usize = 0;
            while i < src.rows.len()
                invariant
                    i <= src.rows@.len(),
                    rows@.len() == i,
                    sv == rows_view(src.rows@),
                    cs == columns@.map_values(|c: String| c@),
                    forall|k: int| 0 <= k < src.rows@.len() ==> keys_unique(props_view(#[trigger] src.rows@[k]@)),
                    forall|k: int| 0 <= k < i ==> props_view(#[trigger] rows@[k]@) == project_spec(sv[k], cs),
                    forall|k: int| 0 <= k < i ==> keys_unique(props_view(#[trigger] rows@[k]@)),
                decreases src.rows.len() - i,
            {
                let pr = project_row(&src.rows[i], columns);
                proof {
                    assert(sv[i as int] == props_view(src.rows@[i as int]@));
                    lemma_project_unique(sv[i as int], cs);
                }
                rows.push(pr);
                i = i + 1;
            }
            proof {
                assert(rows_view(rows@) =~= project_all(sv, cs));
                assert(cs == names_view(columns@));
                assert(result_of(**source, storage@, sv));
            }
            let mut names: Vec<String> = Vec::new();
            let mut j: usize = 0;
            while j < columns.len()
                decreases columns.len() - j,
            {
                names.push(columns[j].clone());
                j = j + 1;
            }
            let res = QueryResult::with_data(names, rows);
            proof {
                assert(*plan == PhysicalPlan::Project { source: *source, columns: *columns });
                assert(rows_view(res.rows@) == project_all(sv, names_view(columns@)));
                assert(result_of(*plan, storage@, rows_view(res.rows@)));
            }
            res
        },
        _ => {
            let res = QueryResult::empty();
            proof {
                assert(rows_view(res.rows@).len() == 0);
            }
            res
        },
    }
}

/// A projection never repeats a column name.
proof fn lemma_project_unique(row: Seq<(Seq<char>, PVal)>, cols: Seq<Seq<char>>)
    ensures
        keys_unique(project_spec(row, cols)),
    decreases cols.len(),
{
    if cols.len() > 0 {
        let init = project_spec(row, cols.drop_last());
        lemma_project_unique(row, cols.drop_last());
        let c = cols.last();
        if prop_get(row, c) is Some && prop_get(init, c) is None {
            let p = init.push((c, prop_get(row, c)->Some_0));
            assert forall|a: int, b: int| 0 <= a < p.len() && 0 <= b < p.len() && a != b implies p[a].0 != p[b].0 by {
                if a < init.len() && b < init.len() {
                    assert(p[a] == init[a] && p[b] == init[b]);
                } else if a == init.len() {
                    assert(p[b] == init[b]);
                } else {
                    assert(p[a] == init[a]);
                }
            }
        }
    }
}

/// `lp` and `pp` are the logical and physical plans of `rq`, and `rows` is a
/// result of `pp` on the graph `g`.
pub open spec fn pipeline(
    rq: ReadQuery,
    lp: LogicalPlan,
    pp: PhysicalPlan,
    g: crate::memory::GraphView,
    rows: Seq<Seq<(Seq<char>, PVal)>>,
) -> bool {
    plan_of(lp, rq) && lowered(lp, pp) && result_of(pp, g, rows)
}

/// `rows` answer the read query `rq` on `g`.
pub open spec fn answers(rq: ReadQuery, g: crate::memory::GraphView, rows: Seq<Seq<(Seq<char>, PVal)>>) -> bool {
    exists|lp: LogicalPlan, pp: PhysicalPlan| #[trigger] pipeline(rq, lp, pp, g, rows)
}

/// Plans and runs a parsed statement: a read query is answered through its
/// logical and physical plans; a write statement is refused.
pub fn execute_query(storage: &MemoryStorage, q: Query) -> (r: Result<QueryResult, DeepGraphError>)
    requires
        storage.wf(),
    ensures
        match q {
            Query::Read(rq) => r is Ok && r->Ok_0.row_count == r->Ok_0.rows@.len() && answers(
                rq,
                storage@,
                rows_view(r->Ok_0.rows@),
            ),
            Query::Write(_) => r is Err,
        },
{
    match q {
        Query::Read(read) => {
            let ghost rq = read;
            let planner = QueryPlanner::new();
            let logical = planner.logical_plan(read);
            let ghost lp = logical;
            let physical = planner.physical_plan(logical);
            let res = execute(storage, &physical);
            proof {
                assert(pipeline(rq, lp, physical, storage@, rows_view(res.rows@)));
            }
            Ok(res)
        },
        Query::Write(_) => Err(DeepGraphError::InvalidOperation("write statements are not run by the query pipeline".to_string())),
    }
}

/// Parses a statement and runs it with `execute_query`; a parse error is
/// returned as is.
pub fn execute_cypher(storage: &MemoryStorage, query: &str) -> (r: Result<QueryResult, DeepGraphError>)
    requires
        storage.wf(),
    ensures
        r is Ok <==> is_read_text(query@),
        r is Ok ==> r->Ok_0.row_count == r->Ok_0.rows@.len() && exists|rq: ReadQuery| #[trigger] answers(
            rq,
            storage@,
            rows_view(r->Ok_0.rows@),
        ),
{
    let parsed = CypherParser::parse(query)?;
    let ghost q = parsed;
    let r = execute_query(storage, parsed);
    proof {
        if r is Ok {
            if let Query::Read(rq) = q {
                assert(answers(rq, storage@, rows_view(r->Ok_0.rows@)));
            }
        }
    }
    r
}

} // verus!
