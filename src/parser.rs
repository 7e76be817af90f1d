//! Classification of a query by its leading keyword.
use vstd::prelude::*;

use crate::error::DeepGraphError;
use crate::text::{chars_of, starts_with_ci, starts_with_keyword, trim_chars, trim_spec};

verus! {

/// A query and the kind of statement it starts with.
#[derive(Debug)]
pub struct CypherQuery {
    pub raw_query: String,
    pub query_type: QueryType,
}

/// The statement kinds told apart by the leading keyword.
#[derive(Debug, Clone, Copy, PartialEq, Eq, Structural)]
pub enum QueryType {
    Match,
    Create,
    Merge,
    Delete,
    SetClause,
    Unknown,
}

/// The kind of a query whose text, trimmed, is `t` (`None` when `t` is empty).
pub open spec fn classify(t: Seq<char>) -> Option<QueryType> {
    if starts_with_ci(t, seq!['M', 'A', 'T', 'C', 'H']) {
        Some(QueryType::Match)
    } else if starts_with_ci(t, seq!['C', 'R', 'E', 'A', 'T', 'E']) {
        Some(QueryType::Create)
    } else if starts_with_ci(t, seq!['M', 'E', 'R', 'G', 'E']) {
        Some(QueryType::Merge)
    } else if starts_with_ci(t, seq!['D', 'E', 'L', 'E', 'T', 'E']) {
        Some(QueryType::Delete)
    } else if starts_with_ci(t, seq!['S', 'E', 'T']) {
        Some(QueryType::SetClause)
    } else if t.len() == 0 {
        None
    } else {
        Some(QueryType::Unknown)
    }
}

/// Classifies queries by their first keyword.
#[derive(Debug)]
pub struct CypherParser;

impl CypherParser {
    pub fn new() -> (r: CypherParser) {
        CypherParser
    }

    /// Reads the leading keyword (case-insensitive, after white space);
    /// an empty or blank query is an error.
    pub fn parse(&self, query: &str) -> (r: Result<CypherQuery, DeepGraphError>)
        ensures
            match classify(trim_spec(query@)) {
                Some(k) => r is Ok && r->Ok_0.query_type == k && r->Ok_0.raw_query@ == query@,
                None => r is Err,
            },
    {
        let all = chars_of(query);
        let t = trim_chars(&all);
        let k_match = vec!['M', 'A', 'T', 'C', 'H'];
        let k_create = vec!['C', 'R', 'E', 'A', 'T', 'E'];
        let k_merge = vec!['M', 'E', 'R', 'G', 'E'];
        let k_delete = vec!['D', 'E', 'L', 'E', 'T', 'E'];
        let k_set = vec!['S', 'E', 'T'];
        proof {
            assert(k_match@ =~= seq!['M', 'A', 'T', 'C', 'H']);
            assert(k_create@ =~= seq!['C', 'R', 'E', 'A', 'T', 'E']);
            assert(k_merge@ =~= seq!['M', 'E', 'R', 'G', 'E']);
            assert(k_delete@ =~= seq!['D', 'E', 'L', 'E', 'T', 'E']);
            assert(k_set@ =~= seq!['S', 'E', 'T']);
        }
        let query_type = if starts_with_keyword(&t, &k_match) {
            QueryType::Match
        } else if starts_with_keyword(&t, &k_create) {
            QueryType::Create
        } else if starts_with_keyword(&t, &k_merge) {
            QueryType::Merge
        } else if starts_with_keyword(&t, &k_delete) {
            QueryType::Delete
        } else if starts_with_keyword(&t, &k_set) {
            QueryType::SetClause
        } else if t.len() == 0 {
            return Err(DeepGraphError::ParserError("Empty query".to_string()));
        } else {
            QueryType::Unknown
        };
        Ok(CypherQuery { raw_query: query.to_string(), query_type })
    }

    /// Accepts a query unless its text is blank.
    pub fn validate(&self, query: &CypherQuery) -> (r: Result<(), DeepGraphError>)
        ensures
            r is Ok <==> trim_spec(query.raw_query@).len() > 0,
    {
        let t = trim_chars(&chars_of(query.raw_query.as_str()));
        if t.len() == 0 {
            Err(DeepGraphError::ParserError("Empty query".to_string()))
        } else {
            Ok(())
        }
    }
}

} // verus!
