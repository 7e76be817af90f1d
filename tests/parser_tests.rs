use deepgraph::parser::{CypherParser as KeywordParser, CypherQuery, QueryType};
use deepgraph::query::parser::{tokenize, CypherParser, Token};

#[test]
fn test_parser_creation() {
    let _parser = CypherParser::new();
}

#[test]
fn test_simple_match_validation() {
    let query = "MATCH (n) RETURN n;";
    assert!(CypherParser::validate(query).is_ok());
}

#[test]
fn test_invalid_query() {
    let query = "INVALID SYNTAX!!!";
    assert!(CypherParser::validate(query).is_err());
}

#[test]
fn parser_test_match_with_label() {
    let query = "MATCH (n:Person) RETURN n;";
    assert!(CypherParser::validate(query).is_ok());
}

#[test]
fn test_match_with_where() {
    let query = "MATCH (n:Person) WHERE n.age > 25 RETURN n;";
    assert!(CypherParser::validate(query).is_ok());
}

#[test]
fn test_create_query() {
    let query = "CREATE (n:Person {name: \"Alice\"});";
    assert!(CypherParser::validate(query).is_ok());
}

#[test]
fn test_parse_match_query() {
    let parser = KeywordParser::new();
    let query = parser.parse("MATCH (n:Person) RETURN n").unwrap();
    assert_eq!(query.query_type, QueryType::Match);
}

#[test]
fn test_parse_create_query() {
    let parser = KeywordParser::new();
    let query = parser.parse("CREATE (n:Person {name: 'Alice'})").unwrap();
    assert_eq!(query.query_type, QueryType::Create);
}

#[test]
fn test_parse_empty_query() {
    let parser = KeywordParser::new();
    let result = parser.parse("");
    assert!(result.is_err());
}

#[test]
fn test_parse_unknown_query() {
    let parser = KeywordParser::new();
    let query = parser.parse("SOME UNKNOWN QUERY").unwrap();
    assert_eq!(query.query_type, QueryType::Unknown);
}

#[test]
fn test_validate_query() {
    let parser = KeywordParser::new();
    let query = CypherQuery { raw_query: "MATCH (n) RETURN n".to_string(), query_type: QueryType::Match };
    assert!(parser.validate(&query).is_ok());
}

#[test]
fn keyword_parser_ignores_case_and_leading_space() {
    let parser = KeywordParser::new();
    assert_eq!(parser.parse("   merge (n)").unwrap().query_type, QueryType::Merge);
    assert_eq!(parser.parse("delete n").unwrap().query_type, QueryType::Delete);
    assert_eq!(parser.parse("Set n.x = 1").unwrap().query_type, QueryType::SetClause);
    assert!(parser.parse("   \t ").is_err());
    let blank = CypherQuery { raw_query: "  ".to_string(), query_type: QueryType::Unknown };
    assert!(parser.validate(&blank).is_err());
}

#[test]
fn grammar_rejects_missing_semicolon_and_bad_tokens() {
    assert!(CypherParser::validate("MATCH (n) RETURN n").is_err());
    assert!(CypherParser::validate("MATCH (n RETURN n;").is_err());
    assert!(CypherParser::validate("MATCH (n) WHERE n.age > RETURN n;").is_err());
    assert!(CypherParser::validate("MATCH (a)-[:KNOWS]->(b), (c) WHERE NOT a.x = 1 AND b.y <> 'z' RETURN a.name AS n ORDER BY n DESC LIMIT 5;").is_ok());
    assert!(CypherParser::validate("match (a)<-[r]-(b) return count(a);").is_ok());
    assert!(CypherParser::validate("SET n.age = n.age + 1;").is_ok());
    assert!(CypherParser::validate("DELETE n, m;").is_ok());
    assert!(CypherParser::validate("MERGE (n:Person {id: $id});").is_ok());
}

#[test]
fn tokenizer_output() {
    let t = tokenize("MATCH (n:P) WHERE n.x >= 12 RETURN $p, 'a b';").unwrap();
    assert_eq!(t.len(), 17);
    assert!(matches!(t[0], Token::Ident(ref w) if w == "MATCH"));
    assert!(matches!(t[10], Token::Op2('>', '=')));
    assert!(matches!(t[11], Token::Int(12)));
    assert!(matches!(t[13], Token::Param(ref w) if w == "p"));
    assert!(matches!(t[15], Token::Str(ref w) if w == "a b"));
    assert!(matches!(t[16], Token::Sym(';')));
    assert!(tokenize("x = 1.5").is_err());
    assert!(tokenize("x = 99999999999999999999").is_err());
    assert!(tokenize("'open").is_err());
    assert!(tokenize("a # b").is_err());
}
