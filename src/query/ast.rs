//! Syntax tree of the Cypher subset.
use vstd::prelude::*;

use crate::graph::PropertyValue;

verus! {

/// Direction of a relationship pattern.
#[derive(Debug, Clone, Copy, PartialEq, Eq, Structural)]
pub enum Direction {
    Left,
    Right,
    Both,
}

/// An expression.
#[derive(Debug)]
pub enum Expression {
    Literal(PropertyValue),
    Variable(String),
    Property(Box<Expression>, String),
    And(Box<Expression>, Box<Expression>),
    Or(Box<Expression>, Box<Expression>),
    Eq(Box<Expression>, Box<Expression>),
    Ne(Box<Expression>, Box<Expression>),
    Lt(Box<Expression>, Box<Expression>),
    Le(Box<Expression>, Box<Expression>),
    Gt(Box<Expression>, Box<Expression>),
    Ge(Box<Expression>, Box<Expression>),
    Add(Box<Expression>, Box<Expression>),
    Sub(Box<Expression>, Box<Expression>),
    Mul(Box<Expression>, Box<Expression>),
    Div(Box<Expression>, Box<Expression>),
    Mod(Box<Expression>, Box<Expression>),
    Not(Box<Expression>),
    Neg(Box<Expression>),
    FunctionCall { name: String, args: Vec<Expression>, distinct: bool },
    Parameter(String),
}

impl Expression {
    pub fn literal(value: PropertyValue) -> (r: Expression)
        ensures
            r == Expression::Literal(value),
    {
        Expression::Literal(value)
    }

    pub fn variable(name: String) -> (r: Expression)
        ensures
            r == Expression::Variable(name),
    {
        Expression::Variable(name)
    }

    pub fn property(expr: Expression, prop: String) -> (r: Expression)
        ensures
            r == Expression::Property(Box::new(expr), prop),
    {
        Expression::Property(Box::new(expr), prop)
    }
}

/// A node pattern `(v:L1:L2 {k: e, ...})`.
#[derive(Debug)]
pub struct NodePattern {
    pub variable: Option<String>,
    pub labels: Vec<String>,
    pub properties: Vec<(String, Expression)>,
}

/// A relationship pattern `-[v:T {k: e}]->`.
#[derive(Debug)]
pub struct RelationshipPattern {
    pub variable: Option<String>,
    pub rel_type: Option<String>,
    pub direction: Direction,
    pub properties: Vec<(String, Expression)>,
}

/// One element of a path pattern.
#[derive(Debug)]
pub enum PatternElement {
    Node(NodePattern),
    Relationship(RelationshipPattern),
}

/// A path pattern.
#[derive(Debug)]
pub struct Pattern {
    pub elements: Vec<PatternElement>,
}

/// One item of a RETURN clause.
#[derive(Debug)]
pub struct ReturnItem {
    pub expression: Expression,
    pub alias: Option<String>,
}

/// One key of ORDER BY.
#[derive(Debug)]
pub struct OrderItem {
    pub expression: Expression,
    pub ascending: bool,
}

/// The RETURN clause.
#[derive(Debug)]
pub struct ReturnClause {
    pub distinct: bool,
    pub items: Vec<ReturnItem>,
    pub order_by: Option<Vec<OrderItem>>,
    pub limit: Option<i64>,
}

/// `MATCH patterns [WHERE condition] RETURN ...`.
#[derive(Debug)]
pub struct ReadQuery {
    pub patterns: Vec<Pattern>,
    pub where_clause: Option<Expression>,
    pub return_clause: ReturnClause,
}

/// One assignment of a SET clause.
#[derive(Debug)]
pub struct SetItem {
    pub variable: String,
    pub property: String,
    pub value: Expression,
}

/// The write statements.
#[derive(Debug)]
pub enum WriteQuery {
    Create(Vec<Pattern>),
    Delete(Vec<Expression>),
    Assign(Vec<SetItem>),
    Merge(Pattern),
}

/// A statement.
#[derive(Debug)]
pub enum Query {
    Read(ReadQuery),
    Write(WriteQuery),
}

} // verus!
