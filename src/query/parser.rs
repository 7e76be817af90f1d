//! Lexer and recursive-descent parser for the Cypher subset.
use vstd::prelude::*;

use crate::error::DeepGraphError;
use crate::graph::PropertyValue;
use crate::query::ast::{
    Direction, Expression, NodePattern, OrderItem, Pattern, PatternElement, Query, ReadQuery, RelationshipPattern,
    ReturnClause, ReturnItem, SetItem, WriteQuery,
};
use crate::text::{ascii_upper, chars_of, is_whitespace, is_ws, string_of, upper};

verus! {

/// A lexical token.
#[derive(Debug)]
pub enum Token {
    Ident(String),
    Int(i64),
    Str(String),
    Param(String),
    Sym(char),
    Op2(char, char),
}

fn is_alpha(c: char) -> (r: bool)
    ensures
        r == (('a' <= c && c <= 'z') || ('A' <= c && c <= 'Z') || c == '_'),
{
    ('a' <= c && c <= 'z') || ('A' <= c && c <= 'Z') || c == '_'
}

fn is_digit(c: char) -> (r: bool)
    ensures
        r == ('0' <= c && c <= '9'),
{
    '0' <= c && c <= '9'
}

fn err(msg: &str) -> (r: DeepGraphError) {
    DeepGraphError::ParserError(msg.to_string())
}

/// Model of a token.
pub enum TokV {
    Ident(Seq<char>),
    Int(int),
    Str(Seq<char>),
    Param(Seq<char>),
    Sym(char),
    Op2(char, char),
}

impl Token {
    pub open spec fn view(&self) -> TokV {
        match self {
            Token::Ident(w) => TokV::Ident(w@),
            Token::Int(v) => TokV::Int(*v as int),
            Token::Str(w) => TokV::Str(w@),
            Token::Param(w) => TokV::Param(w@),
            Token::Sym(c) => TokV::Sym(*c),
            Token::Op2(a, b) => TokV::Op2(*a, *b),
        }
    }
}

/// The models of a token list.
pub open spec fn toks_view(t: Seq<Token>) -> Seq<TokV> {
    t.map_values(|x: Token| x@)
}

pub open spec fn alpha(c: char) -> bool {
    ('a' <= c && c <= 'z') || ('A' <= c && c <= 'Z') || c == '_'
}

pub open spec fn digit(c: char) -> bool {
    '0' <= c && c <= '9'
}

/// The one-character symbols.
pub open spec fn sym_char(c: char) -> bool {
    c == '(' || c == ')' || c == '[' || c == ']' || c == '{' || c == '}' || c == ':' || c == ',' || c == '.' || c == ';'
        || c == '=' || c == '<' || c == '>' || c == '+' || c == '-' || c == '*' || c == '/' || c == '%'
}

/// Whether a two-character operator (`<>`, `<=`, `<-`, `>=`, `!=`, `->`)
/// starts at `i`.
pub open spec fn op2_at(cs: Seq<char>, i: int) -> bool {
    i + 1 < cs.len() && ((cs[i] == '<' && (cs[i + 1] == '>' || cs[i + 1] == '=' || cs[i + 1] == '-')) || ((cs[i] == '>'
        || cs[i] == '!') && cs[i + 1] == '=') || (cs[i] == '-' && cs[i + 1] == '>'))
}

pub open spec fn prepend(t: TokV, rest: Option<Seq<TokV>>) -> Option<Seq<TokV>> {
    match rest {
        Some(s) => Some(seq![t] + s),
        None => None,
    }
}

/// The tokens of `cs` from position `i`, or `None` on a lexical error:
/// white space separates tokens; identifiers (letters, digits, `_`, not
/// starting with a digit), `$`-parameters, decimal integers (no fraction, at
/// most `i64::MAX`), quoted strings (no escapes), two-character operators and
/// one-character symbols.
pub open spec fn lex(cs: Seq<char>, i: int) -> Option<Seq<TokV>>
    decreases cs.len() - i, 1int,
{
    if i < 0 || i >= cs.len() {
        Some(Seq::empty())
    } else if is_ws(cs[i]) {
        lex(cs, i + 1)
    } else if alpha(cs[i]) {
        lex_word(cs, i, i + 1, false)
    } else if cs[i] == '$' && i + 1 < cs.len() && alpha(cs[i + 1]) {
        lex_word(cs, i + 1, i + 2, true)
    } else if digit(cs[i]) {
        lex_num(cs, i + 1, cs[i] as int - '0' as int)
    } else if cs[i] == '"' || cs[i] == '\'' {
        lex_str(cs, i, i + 1)
    } else if op2_at(cs, i) {
        prepend(TokV::Op2(cs[i], cs[i + 1]), lex(cs, i + 2))
    } else if sym_char(cs[i]) {
        prepend(TokV::Sym(cs[i]), lex(cs, i + 1))
    } else {
        None
    }
}

/// An identifier (or parameter name) begun at `start`, scanned up to `j`.
pub open spec fn lex_word(cs: Seq<char>, start: int, j: int, param: bool) -> Option<Seq<TokV>>
    decreases cs.len() - j, 2int,
{
    if 0 <= j < cs.len() && (alpha(cs[j]) || digit(cs[j])) {
        lex_word(cs, start, j + 1, param)
    } else {
        let w = cs.subrange(start, j);
        prepend(if param { TokV::Param(w) } else { TokV::Ident(w) }, lex(cs, j))
    }
}

/// A decimal literal scanned up to `j`, with value `v` so far.
pub open spec fn lex_num(cs: Seq<char>, j: int, v: int) -> Option<Seq<TokV>>
    decreases cs.len() - j, 2int,
{
    if 0 <= j < cs.len() && digit(cs[j]) {
        let v2 = v * 10 + (cs[j] as int - '0' as int);
        if v2 > i64::MAX {
            None
        } else {
            lex_num(cs, j + 1, v2)
        }
    } else if 0 <= j < cs.len() && cs[j] == '.' {
        None
    } else {
        prepend(TokV::Int(v), lex(cs, j))
    }
}

/// A string opened by the quote at `open`, scanned up to `j`.
pub open spec fn lex_str(cs: Seq<char>, open: int, j: int) -> Option<Seq<TokV>>
    decreases cs.len() - j, 2int,
{
    if j < 0 || j >= cs.len() || open < 0 || open >= cs.len() {
        None
    } else if cs[j] == cs[open] {
        prepend(TokV::Str(cs.subrange(open + 1, j)), lex(cs, j + 1))
    } else {
        lex_str(cs, open, j + 1)
    }
}

pub open spec fn glue(prefix: Seq<TokV>, rest: Option<Seq<TokV>>) -> Option<Seq<TokV>> {
    match rest {
        Some(s) => Some(prefix + s),
        None => None,
    }
}

proof fn lemma_glue_push(prefix: Seq<TokV>, t: TokV, rest: Option<Seq<TokV>>)
    ensures
        glue(prefix, prepend(t, rest)) == glue(prefix.push(t), rest),
{
    if let Some(s) = rest {
        assert(prefix + (seq![t] + s) =~= prefix.push(t) + s);
    }
}

/// Splits a query into tokens; the tokens are `lex(query@, 0)`, and a
/// lexical error is reported where `lex` has none.
pub fn tokenize(query: &str) -> (r: Result<Vec<Token>, DeepGraphError>)
    ensures
        match lex(query@, 0) {
            Some(ts) => r is Ok && toks_view(r->Ok_0@) == ts,
            None => r is Err,
        },
{
    let cs = chars_of(query);
    let n = cs.len();
    let mut toks: Vec<Token> = Vec::new();
    let mut i: usize = 0;
    proof {
        assert(toks_view(toks@) =~= Seq::<TokV>::empty());
        assert(glue(Seq::empty(), lex(cs@, 0)) == lex(cs@, 0)) by {
            if let Some(s) = lex(cs@, 0) {
                assert(Seq::<TokV>::empty() + s =~= s);
            }
        }
    }
    while i < n
        invariant
            n == cs@.len(),
            cs@ == query@,
            i <= n,
            lex(cs@, 0) == glue(toks_view(toks@), lex(cs@, i as int)),
        decreases n - i,
    {
        let c = cs[i];
        let ghost tv = toks_view(toks@);
        if is_whitespace(c) {
            i = i + 1;
        } else if is_alpha(c) || (c == '$' && i + 1 < n && is_alpha(cs[i + 1])) {
            let dollar = !is_alpha(c);
            let start = if dollar { i + 1 } else { i };
            let mut j = start + 1;
            proof {
                if dollar {
                    assert(lex(cs@, i as int) == lex_word(cs@, start as int, start + 1, true));
                } else {
                    assert(lex(cs@, i as int) == lex_word(cs@, start as int, start + 1, false));
                }
            }
            while j < n && (is_alpha(cs[j]) || is_digit(cs[j]))
                invariant
                    n == cs@.len(),
                    start < j <= n,
                    lex(cs@, i as int) == lex_word(cs@, start as int, j as int, dollar),
                decreases n - j,
            {
                j = j + 1;
            }
            let word = string_of(&cs.as_slice()[start..j]);
            let ghost w = cs@.subrange(start as int, j as int);
            if dollar {
                toks.push(Token::Param(word));
            } else {
                toks.push(Token::Ident(word));
            }
            proof {
                assert(toks_view(toks@) =~= tv.push(if dollar { TokV::Param(w) } else { TokV::Ident(w) }));
                lemma_glue_push(tv, if dollar { TokV::Param(w) } else { TokV::Ident(w) }, lex(cs@, j as int));
            }
            i = j;
        } else if is_digit(c) {
            let mut v: i64 = 0;
            let mut j = i;
            proof {
                assert(lex(cs@, i as int) == lex_num(cs@, i + 1, cs@[i as int] as int - '0' as int));
            }
            while j < n && is_digit(cs[j])
                invariant
                    n == cs@.len(),
                    cs@ == query@,
                    lex(cs@, 0) == glue(toks_view(toks@), lex(cs@, i as int)),
                    i <= j <= n,
                    v >= 0,
                    j == i ==> v == 0,
                    j > i ==> lex(cs@, i as int) == lex_num(cs@, j as int, v as int),
                    lex(cs@, i as int) == lex_num(cs@, i + 1, cs@[i as int] as int - '0' as int),
                decreases n - j,
            {
                let d = (cs[j] as u32 - '0' as u32) as i64;
                if v > (i64::MAX - d) / 10 {
                    proof {
                        assert(v * 10 + d > i64::MAX) by (nonlinear_arith)
                            requires
                                v > (i64::MAX - d) / 10,
                                0 <= d <= 9,
                        ;
                        assert(j > i);
                        assert(lex_num(cs@, j as int, v as int) is None);
                    }
                    return Err(err("integer literal out of range"));
                }
                proof {
                    assert(v * 10 + d <= i64::MAX) by (nonlinear_arith)
                        requires
                            v <= (i64::MAX - d) / 10,
                            0 <= d <= 9,
                            v >= 0,
                    ;
                }
                proof {
                    assert(d as int == cs@[j as int] as int - '0' as int);
                    if j == i {
                    } else {
                        assert(lex_num(cs@, j as int, v as int) == lex_num(cs@, j + 1, v * 10 + d));
                    }
                }
                v = v * 10 + d;
                j = j + 1;
            }
            proof {
                assert(j > i);
            }
            if j < n && cs[j] == '.' {
                return Err(err("floating-point literals are not supported"));
            }
            toks.push(Token::Int(v));
            proof {
                assert(toks_view(toks@) =~= tv.push(TokV::Int(v as int)));
                lemma_glue_push(tv, TokV::Int(v as int), lex(cs@, j as int));
            }
            i = j;
        } else if c == '"' || c == '\'' {
            let mut j = i + 1;
            while j < n && cs[j] != c
                invariant
                    n == cs@.len(),
                    cs@ == query@,
                    lex(cs@, 0) == glue(toks_view(toks@), lex(cs@, i as int)),
                    i < j <= n,
                    c == cs@[i as int],
                    lex(cs@, i as int) == lex_str(cs@, i as int, j as int),
                decreases n - j,
            {
                j = j + 1;
            }
            if j >= n {
                return Err(err("unterminated string"));
            }
            let ghost w = cs@.subrange(i + 1, j as int);
            toks.push(Token::Str(string_of(&cs.as_slice()[i + 1..j])));
            proof {
                assert(toks_view(toks@) =~= tv.push(TokV::Str(w)));
                lemma_glue_push(tv, TokV::Str(w), lex(cs@, j + 1));
            }
            i = j + 1;
        } else if i + 1 < n && ((c == '<' && (cs[i + 1] == '>' || cs[i + 1] == '=' || cs[i + 1] == '-')) || ((c == '>'
            || c == '!') && cs[i + 1] == '=') || (c == '-' && cs[i + 1] == '>')) {
            toks.push(Token::Op2(c, cs[i + 1]));
            proof {
                assert(toks_view(toks@) =~= tv.push(TokV::Op2(c, cs@[i + 1])));
                lemma_glue_push(tv, TokV::Op2(c, cs@[i + 1]), lex(cs@, i + 2));
            }
            i = i + 2;
        } else if c == '(' || c == ')' || c == '[' || c == ']' || c == '{' || c == '}' || c == ':' || c == ','
            || c == '.' || c == ';' || c == '=' || c == '<' || c == '>' || c == '+' || c == '-' || c == '*' || c == '/'
            || c == '%' {
            toks.push(Token::Sym(c));
            proof {
                assert(toks_view(toks@) =~= tv.push(TokV::Sym(c)));
                lemma_glue_push(tv, TokV::Sym(c), lex(cs@, i + 1));
            }
            i = i + 1;
        } else {
            return Err(err("unexpected character"));
        }
    }
    proof {
        assert(toks_view(toks@) + Seq::<TokV>::empty() =~= toks_view(toks@));
    }
    Ok(toks)
}

/// Token `p` is the symbol `c`.
pub open spec fn sym_tok(ts: Seq<TokV>, p: int, c: char) -> bool {
    0 <= p < ts.len() && ts[p] == TokV::Sym(c)
}

/// Token `p` is the two-character operator `ab`.
pub open spec fn op2_tok(ts: Seq<TokV>, p: int, a: char, b: char) -> bool {
    0 <= p < ts.len() && ts[p] == TokV::Op2(a, b)
}

/// Token `p` is an identifier.
pub open spec fn ident_tok(ts: Seq<TokV>, p: int) -> bool {
    0 <= p < ts.len() && ts[p] is Ident
}

/// Token `p` is the keyword `k` (upper case), written in any ASCII case.
pub open spec fn kw_tok(ts: Seq<TokV>, p: int, k: Seq<char>) -> bool {
    &&& 0 <= p < ts.len()
    &&& ts[p] is Ident
    &&& ts[p]->Ident_0.len() == k.len()
    &&& forall|i: int| 0 <= i < k.len() ==> ascii_upper(#[trigger] ts[p]->Ident_0[i]) == k[i]
}

/// Whether token `p` is the symbol `c`.
fn is_sym(t: &Vec<Token>, p: usize, c: char) -> (r: bool)
    ensures
        r ==> p < t.len(),
        r == (p < t@.len() && t@[p as int] == Token::Sym(c)),
        r == sym_tok(toks_view(t@), p as int, c),
{
    p < t.len() && match &t[p] {
        Token::Sym(x) => *x == c,
        _ => false,
    }
}

fn is_op2(t: &Vec<Token>, p: usize, a: char, b: char) -> (r: bool)
    ensures
        r ==> p < t.len(),
        r == op2_tok(toks_view(t@), p as int, a, b),
{
    p < t.len() && match &t[p] {
        Token::Op2(x, y) => *x == a && *y == b,
        _ => false,
    }
}

/// Whether token `p` is the keyword `kw` (given in upper case), in any case.
fn is_kw(t: &Vec<Token>, p: usize, kw: &str) -> (r: bool)
    ensures
        r ==> p < t.len(),
        r == kw_tok(toks_view(t@), p as int, kw@),
{
    if p >= t.len() {
        return false;
    }
    match &t[p] {
        Token::Ident(w) => {
            let a = chars_of(w.as_str());
            let b = chars_of(kw);
            proof {
                assert(toks_view(t@)[p as int] == t@[p as int]@);
            }
            if a.len() != b.len() {
                return false;
            }
            let mut i: usize = 0;
            proof {
                assert(toks_view(t@)[p as int] == t@[p as int]@);
            }
            while i < a.len()
                invariant
                    a@.len() == b@.len(),
                    p < t@.len(),
                    toks_view(t@)[p as int] == TokV::Ident(a@),
                    b@ == kw@,
                    i <= a@.len(),
                    forall|j: int| 0 <= j < i ==> ascii_upper(#[trigger] a@[j]) == b@[j],
                decreases a.len() - i,
            {
                if upper(a[i]) != b[i] {
                    return false;
                }
                i = i + 1;
            }
            true
        },
        _ => false,
    }
}

/// The identifier at `p`, if token `p` is one.
fn ident_at(t: &Vec<Token>, p: usize) -> (r: Option<String>)
    ensures
        r is Some ==> p < t.len(),
        r is Some == ident_tok(toks_view(t@), p as int),
{
    if p < t.len() {
        match &t[p] {
            Token::Ident(w) => Some(w.clone()),
            _ => None,
        }
    } else {
        None
    }
}

/// A parse result: the value and the position after it, which lies past `p`.
pub open spec fn advanced<T>(r: Result<(T, usize), DeepGraphError>, p: usize, len: nat) -> bool {
    match r {
        Ok((_, q)) => p < q <= len,
        Err(_) => true,
    }
}

/// A parse result agrees with the grammar: it succeeds exactly when the
/// grammar accepts, ending where the grammar ends.
pub open spec fn agrees<T>(r: Result<(T, usize), DeepGraphError>, g: Option<int>) -> bool {
    match g {
        Some(q) => r is Ok && r->Ok_0.1 == q,
        None => r is Err,
    }
}

/// `q` lies past `p` and within the tokens.
pub open spec fn past(ts: Seq<TokV>, p: int, q: int) -> bool {
    p < q <= ts.len()
}

/// End of `OrExpr := AndExpr ('OR' AndExpr)*` begun at `p`.
pub open spec fn g_or(ts: Seq<TokV>, p: int) -> Option<int>
    decreases ts.len() - p, 7int,
{
    match g_and(ts, p) {
        Some(q) => if past(ts, p, q) { g_or_tail(ts, q) } else { None },
        None => None,
    }
}

pub open spec fn g_or_tail(ts: Seq<TokV>, q: int) -> Option<int>
    decreases ts.len() - q, 8int,
{
    if kw_tok(ts, q, "OR"@) {
        match g_and(ts, q + 1) {
            Some(q2) => if past(ts, q, q2) { g_or_tail(ts, q2) } else { None },
            None => None,
        }
    } else {
        Some(q)
    }
}

/// End of `AndExpr := NotExpr ('AND' NotExpr)*`.
pub open spec fn g_and(ts: Seq<TokV>, p: int) -> Option<int>
    decreases ts.len() - p, 6int,
{
    match g_not(ts, p) {
        Some(q) => if past(ts, p, q) { g_and_tail(ts, q) } else { None },
        None => None,
    }
}

pub open spec fn g_and_tail(ts: Seq<TokV>, q: int) -> Option<int>
    decreases ts.len() - q, 7int,
{
    if kw_tok(ts, q, "AND"@) {
        match g_not(ts, q + 1) {
            Some(q2) => if past(ts, q, q2) { g_and_tail(ts, q2) } else { None },
            None => None,
        }
    } else {
        Some(q)
    }
}

/// End of `NotExpr := 'NOT' NotExpr | Comparison`.
pub open spec fn g_not(ts: Seq<TokV>, p: int) -> Option<int>
    decreases ts.len() - p, 5int,
{
    if kw_tok(ts, p, "NOT"@) {
        g_not(ts, p + 1)
    } else {
        g_cmp(ts, p)
    }
}

/// A comparison operator at `q`.
pub open spec fn cmp_op(ts: Seq<TokV>, q: int) -> bool {
    sym_tok(ts, q, '=') || op2_tok(ts, q, '<', '>') || op2_tok(ts, q, '!', '=') || op2_tok(ts, q, '<', '=') || op2_tok(
        ts,
        q,
        '>',
        '=',
    ) || sym_tok(ts, q, '<') || sym_tok(ts, q, '>')
}

/// End of `Comparison := Additive (op Additive)?`.
pub open spec fn g_cmp(ts: Seq<TokV>, p: int) -> Option<int>
    decreases ts.len() - p, 4int,
{
    match g_add(ts, p) {
        Some(q) => if !past(ts, p, q) {
            None
        } else if cmp_op(ts, q) {
            g_add(ts, q + 1)
        } else {
            Some(q)
        },
        None => None,
    }
}

/// End of `Additive := Multiplicative (('+' | '-') Multiplicative)*`.
pub open spec fn g_add(ts: Seq<TokV>, p: int) -> Option<int>
    decreases ts.len() - p, 3int,
{
    match g_mul(ts, p) {
        Some(q) => if past(ts, p, q) { g_add_tail(ts, q) } else { None },
        None => None,
    }
}

pub open spec fn g_add_tail(ts: Seq<TokV>, q: int) -> Option<int>
    decreases ts.len() - q, 4int,
{
    if sym_tok(ts, q, '+') || sym_tok(ts, q, '-') {
        match g_mul(ts, q + 1) {
            Some(q2) => if past(ts, q, q2) { g_add_tail(ts, q2) } else { None },
            None => None,
        }
    } else {
        Some(q)
    }
}

/// End of `Multiplicative := Unary (('*' | '/' | '%') Unary)*`.
pub open spec fn g_mul(ts: Seq<TokV>, p: int) -> Option<int>
    decreases ts.len() - p, 2int,
{
    match g_unary(ts, p) {
        Some(q) => if past(ts, p, q) { g_mul_tail(ts, q) } else { None },
        None => None,
    }
}

pub open spec fn g_mul_tail(ts: Seq<TokV>, q: int) -> Option<int>
    decreases ts.len() - q, 3int,
{
    if sym_tok(ts, q, '*') || sym_tok(ts, q, '/') || sym_tok(ts, q, '%') {
        match g_unary(ts, q + 1) {
            Some(q2) => if past(ts, q, q2) { g_mul_tail(ts, q2) } else { None },
            None => None,
        }
    } else {
        Some(q)
    }
}

/// End of `Unary := '-' Unary | Atom`.
pub open spec fn g_unary(ts: Seq<TokV>, p: int) -> Option<int>
    decreases ts.len() - p, 1int,
{
    if sym_tok(ts, p, '-') {
        g_unary(ts, p + 1)
    } else {
        g_atom(ts, p)
    }
}

/// End of an atom: `( Expr )`, `TRUE`, `FALSE`, `NULL`, a literal, a
/// parameter, `v.prop`, `f(DISTINCT? args)` or a variable.
pub open spec fn g_atom(ts: Seq<TokV>, p: int) -> Option<int>
    decreases ts.len() - p, 0int,
{
    if p < 0 || p >= ts.len() {
        None
    } else if sym_tok(ts, p, '(') {
        match g_or(ts, p + 1) {
            Some(q) => if past(ts, p, q) && sym_tok(ts, q, ')') { Some(q + 1) } else { None },
            None => None,
        }
    } else if kw_tok(ts, p, "TRUE"@) || kw_tok(ts, p, "FALSE"@) || kw_tok(ts, p, "NULL"@) {
        Some(p + 1)
    } else {
        match ts[p] {
            TokV::Int(_) => Some(p + 1),
            TokV::Str(_) => Some(p + 1),
            TokV::Param(_) => Some(p + 1),
            TokV::Ident(_) => if sym_tok(ts, p + 1, '.') {
                if ident_tok(ts, p + 2) {
                    Some(p + 3)
                } else {
                    None
                }
            } else if sym_tok(ts, p + 1, '(') {
                let q = if kw_tok(ts, p + 2, "DISTINCT"@) { p + 3 } else { p + 2 };
                if sym_tok(ts, q, ')') {
                    Some(q + 1)
                } else {
                    g_args(ts, q)
                }
            } else {
                Some(p + 1)
            },
            _ => None,
        }
    }
}

/// End of `Expr (',' Expr)* ')'` begun at `q`.
pub open spec fn g_args(ts: Seq<TokV>, q: int) -> Option<int>
    decreases ts.len() - q, 8int,
{
    match g_or(ts, q) {
        Some(q2) => if !past(ts, q, q2) {
            None
        } else if sym_tok(ts, q2, ',') {
            if q2 + 1 <= ts.len() { g_args(ts, q2 + 1) } else { None }
        } else if sym_tok(ts, q2, ')') {
            Some(q2 + 1)
        } else {
            None
        },
        None => None,
    }
}

/// `OrExpr := AndExpr ('OR' AndExpr)*`
fn parse_or(t: &Vec<Token>, p: usize) -> (r: Result<(Expression, usize), DeepGraphError>)
    requires
        p <= t@.len(),
    ensures
        advanced(r, p, t@.len()),
        agrees(r, g_or(toks_view(t@), p as int)),
    decreases t@.len() - p, 7nat,
{
    let (mut e, mut q) = parse_and(t, p)?;
    while is_kw(t, q, "OR")
        invariant
            p < q <= t@.len(),
            g_or(toks_view(t@), p as int) == g_or_tail(toks_view(t@), q as int),
        decreases t@.len() - q,
    {
        let (rhs, q2) = parse_and(t, q + 1)?;
        e = Expression::Or(Box::new(e), Box::new(rhs));
        q = q2;
    }
    Ok((e, q))
}

/// `AndExpr := NotExpr ('AND' NotExpr)*`
fn parse_and(t: &Vec<Token>, p: usize) -> (r: Result<(Expression, usize), DeepGraphError>)
    requires
        p <= t@.len(),
    ensures
        advanced(r, p, t@.len()),
        agrees(r, g_and(toks_view(t@), p as int)),
    decreases t@.len() - p, 6nat,
{
    let (mut e, mut q) = parse_not(t, p)?;
    while is_kw(t, q, "AND")
        invariant
            p < q <= t@.len(),
            g_and(toks_view(t@), p as int) == g_and_tail(toks_view(t@), q as int),
        decreases t@.len() - q,
    {
        let (rhs, q2) = parse_not(t, q + 1)?;
        e = Expression::And(Box::new(e), Box::new(rhs));
        q = q2;
    }
    Ok((e, q))
}

/// `NotExpr := 'NOT' NotExpr | Comparison`
fn parse_not(t: &Vec<Token>, p: usize) -> (r: Result<(Expression, usize), DeepGraphError>)
    requires
        p <= t@.len(),
    ensures
        advanced(r, p, t@.len()),
        agrees(r, g_not(toks_view(t@), p as int)),
    decreases t@.len() - p, 5nat,
{
    if is_kw(t, p, "NOT") {
        let (e, q) = parse_not(t, p + 1)?;
        Ok((Expression::Not(Box::new(e)), q))
    } else {
        parse_cmp(t, p)
    }
}

/// `Comparison := Additive (op Additive)?` (comparisons do not chain; `!=`
/// is read as `<>`)
fn parse_cmp(t: &Vec<Token>, p: usize) -> (r: Result<(Expression, usize), DeepGraphError>)
    requires
        p <= t@.len(),
    ensures
        advanced(r, p, t@.len()),
        agrees(r, g_cmp(toks_view(t@), p as int)),
    decreases t@.len() - p, 4nat,
{
    let (lhs, q) = parse_add(t, p)?;
    let op: u8 = if is_sym(t, q, '=') {
        1
    } else if is_op2(t, q, '<', '>') || is_op2(t, q, '!', '=') {
        2
    } else if is_op2(t, q, '<', '=') {
        3
    } else if is_op2(t, q, '>', '=') {
        4
    } else if is_sym(t, q, '<') {
        5
    } else if is_sym(t, q, '>') {
        6
    } else {
        0
    };
    if op == 0 {
        return Ok((lhs, q));
    }
    let (rhs, q2) = parse_add(t, q + 1)?;
    let a = Box::new(lhs);
    let b = Box::new(rhs);
    let e = if op == 1 {
        Expression::Eq(a, b)
    } else if op == 2 {
        Expression::Ne(a, b)
    } else if op == 3 {
        Expression::Le(a, b)
    } else if op == 4 {
        Expression::Ge(a, b)
    } else if op == 5 {
        Expression::Lt(a, b)
    } else {
        Expression::Gt(a, b)
    };
    Ok((e, q2))
}

/// `Additive := Multiplicative (('+' | '-') Multiplicative)*`
fn parse_add(t: &Vec<Token>, p: usize) -> (r: Result<(Expression, usize), DeepGraphError>)
    requires
        p <= t@.len(),
    ensures
        advanced(r, p, t@.len()),
        agrees(r, g_add(toks_view(t@), p as int)),
    decreases t@.len() - p, 3nat,
{
    let (mut e, mut q) = parse_mul(t, p)?;
    while is_sym(t, q, '+') || is_sym(t, q, '-')
        invariant
            p < q <= t@.len(),
            g_add(toks_view(t@), p as int) == g_add_tail(toks_view(t@), q as int),
        decreases t@.len() - q,
    {
        let plus = is_sym(t, q, '+');
        let (rhs, q2) = parse_mul(t, q + 1)?;
        e = if plus {
            Expression::Add(Box::new(e), Box::new(rhs))
        } else {
            Expression::Sub(Box::new(e), Box::new(rhs))
        };
        q = q2;
    }
    Ok((e, q))
}

/// `Multiplicative := Unary (('*' | '/' | '%') Unary)*`
fn parse_mul(t: &Vec<Token>, p: usize) -> (r: Result<(Expression, usize), DeepGraphError>)
    requires
        p <= t@.len(),
    ensures
        advanced(r, p, t@.len()),
        agrees(r, g_mul(toks_view(t@), p as int)),
    decreases t@.len() - p, 2nat,
{
    let (mut e, mut q) = parse_unary(t, p)?;
    while is_sym(t, q, '*') || is_sym(t, q, '/') || is_sym(t, q, '%')
        invariant
            p < q <= t@.len(),
            g_mul(toks_view(t@), p as int) == g_mul_tail(toks_view(t@), q as int),
        decreases t@.len() - q,
    {
        let op = if is_sym(t, q, '*') {
            0u8
        } else if is_sym(t, q, '/') {
            1u8
        } else {
            2u8
        };
        let (rhs, q2) = parse_unary(t, q + 1)?;
        e = if op == 0 {
            Expression::Mul(Box::new(e), Box::new(rhs))
        } else if op == 1 {
            Expression::Div(Box::new(e), Box::new(rhs))
        } else {
            Expression::Mod(Box::new(e), Box::new(rhs))
        };
        q = q2;
    }
    Ok((e, q))
}

/// `Unary := '-' Unary | Atom`
fn parse_unary(t: &Vec<Token>, p: usize) -> (r: Result<(Expression, usize), DeepGraphError>)
    requires
        p <= t@.len(),
    ensures
        advanced(r, p, t@.len()),
        agrees(r, g_unary(toks_view(t@), p as int)),
    decreases t@.len() - p, 1nat,
{
    if is_sym(t, p, '-') {
        let (e, q) = parse_unary(t, p + 1)?;
        Ok((Expression::Neg(Box::new(e)), q))
    } else {
        parse_atom(t, p)
    }
}

/// Literals, variables, `v.prop`, `f(args)`, `$param` and parenthesised
/// expressions.
fn parse_atom(t: &Vec<Token>, p: usize) -> (r: Result<(Expression, usize), DeepGraphError>)
    requires
        p <= t@.len(),
    ensures
        advanced(r, p, t@.len()),
        agrees(r, g_atom(toks_view(t@), p as int)),
    decreases t@.len() - p, 0nat,
{
    if p >= t.len() {
        return Err(err("unexpected end of query"));
    }
    if is_sym(t, p, '(') {
        let (e, q) = parse_or(t, p + 1)?;
        if !is_sym(t, q, ')') {
            return Err(err("expected ')'"));
        }
        return Ok((e, q + 1));
    }
    if is_kw(t, p, "TRUE") {
        return Ok((Expression::Literal(PropertyValue::Boolean(true)), p + 1));
    }
    if is_kw(t, p, "FALSE") {
        return Ok((Expression::Literal(PropertyValue::Boolean(false)), p + 1));
    }
    if is_kw(t, p, "NULL") {
        return Ok((Expression::Literal(PropertyValue::Null), p + 1));
    }
    match &t[p] {
        Token::Int(v) => Ok((Expression::Literal(PropertyValue::Integer(*v)), p + 1)),
        Token::Str(s) => Ok((Expression::Literal(PropertyValue::String(s.clone())), p + 1)),
        Token::Param(s) => Ok((Expression::Parameter(s.clone()), p + 1)),
        Token::Ident(name) => {
            if is_sym(t, p + 1, '.') {
                match ident_at(t, p + 2) {
                    Some(prop) => Ok((Expression::Property(Box::new(Expression::Variable(name.clone())), prop), p + 3)),
                    None => Err(err("expected a property name")),
                }
            } else if is_sym(t, p + 1, '(') {
                let mut args: Vec<Expression> = Vec::new();
                let mut q = p + 2;
                let mut distinct = false;
                if is_kw(t, q, "DISTINCT") {
                    distinct = true;
                    q = q + 1;
                }
                if is_sym(t, q, ')') {
                    return Ok((Expression::FunctionCall { name: name.clone(), args, distinct }, q + 1));
                }
                proof {
                    assert(toks_view(t@)[p as int] == t@[p as int]@);
                    assert(g_atom(toks_view(t@), p as int) == g_args(toks_view(t@), q as int));
                }
                loop
                    invariant
                        p < q <= t@.len(),
                        g_atom(toks_view(t@), p as int) == g_args(toks_view(t@), q as int),
                    decreases t@.len() - q,
                {
                    let (a, q2) = parse_or(t, q)?;
                    args.push(a);
                    if is_sym(t, q2, ',') {
                        q = q2 + 1;
                    } else if is_sym(t, q2, ')') {
                        return Ok((Expression::FunctionCall { name: name.clone(), args, distinct }, q2 + 1));
                    } else {
                        return Err(err("expected ',' or ')' in arguments"));
                    }
                }
            } else {
                Ok((Expression::Variable(name.clone()), p + 1))
            }
        },
        _ => Err(err("unexpected token")),
    }
}

/// `Props := '{' Key ':' Expr (',' Key ':' Expr)* '}'`, at a `{`.
fn parse_props(t: &Vec<Token>, p: usize) -> (r: Result<(Vec<(String, Expression)>, usize), DeepGraphError>)
    requires
        p <= t@.len(),
    ensures
        advanced(r, p, t@.len()),
        agrees(r, g_props(toks_view(t@), p as int)),
{
    if !is_sym(t, p, '{') {
        return Err(err("expected '{'"));
    }
    let mut props: Vec<(String, Expression)> = Vec::new();
    let mut q = p + 1;
    loop
        invariant
            p < q <= t@.len(),
            g_props(toks_view(t@), p as int) == g_props_tail(toks_view(t@), q as int),
        decreases t@.len() - q,
    {
        let key = match ident_at(t, q) {
            Some(k) => k,
            None => {
                return Err(err("expected a property key"));
            },
        };
        if !is_sym(t, q + 1, ':') {
            return Err(err("expected ':'"));
        }
        let (e, q2) = parse_or(t, q + 2)?;
        props.push((key, e));
        if is_sym(t, q2, ',') {
            q = q2 + 1;
        } else if is_sym(t, q2, '}') {
            return Ok((props, q2 + 1));
        } else {
            return Err(err("expected ',' or '}'"));
        }
    }
}

/// End of `Props := '{' Key ':' Expr (',' Key ':' Expr)* '}'`.
pub open spec fn g_props(ts: Seq<TokV>, p: int) -> Option<int>
    decreases ts.len() - p, 10int,
{
    if sym_tok(ts, p, '{') {
        g_props_tail(ts, p + 1)
    } else {
        None
    }
}

pub open spec fn g_props_tail(ts: Seq<TokV>, q: int) -> Option<int>
    decreases ts.len() - q, 9int,
{
    if !ident_tok(ts, q) || !sym_tok(ts, q + 1, ':') {
        None
    } else {
        match g_or(ts, q + 2) {
            Some(q2) => if !past(ts, q, q2) {
                None
            } else if sym_tok(ts, q2, ',') {
                g_props_tail(ts, q2 + 1)
            } else if sym_tok(ts, q2, '}') {
                Some(q2 + 1)
            } else {
                None
            },
            None => None,
        }
    }
}

/// End of `NodePat := '(' Var? (':' Label)* Props? ')'`.
pub open spec fn g_node(ts: Seq<TokV>, p: int) -> Option<int>
    decreases ts.len() - p, 13int,
{
    if !sym_tok(ts, p, '(') {
        None
    } else {
        g_node_labels(ts, if ident_tok(ts, p + 1) { p + 2 } else { p + 1 })
    }
}

pub open spec fn g_node_labels(ts: Seq<TokV>, q: int) -> Option<int>
    decreases ts.len() - q, 12int,
{
    if sym_tok(ts, q, ':') {
        if ident_tok(ts, q + 1) {
            g_node_labels(ts, q + 2)
        } else {
            None
        }
    } else {
        g_close(ts, q, ')')
    }
}

/// End of `Props? c` at `q`.
pub open spec fn g_close(ts: Seq<TokV>, q: int, c: char) -> Option<int>
    decreases ts.len() - q, 11int,
{
    if sym_tok(ts, q, '{') {
        match g_props(ts, q) {
            Some(q2) => if past(ts, q, q2) && sym_tok(ts, q2, c) { Some(q2 + 1) } else { None },
            None => None,
        }
    } else if sym_tok(ts, q, c) {
        Some(q + 1)
    } else {
        None
    }
}

/// End of `RelPat := ('-' | '<-') '[' Var? (':' Type)? Props? ']' ('->' | '-')`.
pub open spec fn g_rel(ts: Seq<TokV>, p: int) -> Option<int>
    decreases ts.len() - p, 13int,
{
    if !(op2_tok(ts, p, '<', '-') || sym_tok(ts, p, '-')) || !sym_tok(ts, p + 1, '[') {
        None
    } else {
        let q = if ident_tok(ts, p + 2) { p + 3 } else { p + 2 };
        if sym_tok(ts, q, ':') && !ident_tok(ts, q + 1) {
            None
        } else {
            let q1 = if sym_tok(ts, q, ':') { q + 2 } else { q };
            match g_close(ts, q1, ']') {
                Some(q2) => if past(ts, p, q2) && (op2_tok(ts, q2, '-', '>') || sym_tok(ts, q2, '-')) {
                    Some(q2 + 1)
                } else {
                    None
                },
                None => None,
            }
        }
    }
}

/// End of `Pattern := NodePat (RelPat NodePat)*`.
pub open spec fn g_pattern(ts: Seq<TokV>, p: int) -> Option<int>
    decreases ts.len() - p, 15int,
{
    match g_node(ts, p) {
        Some(q) => if past(ts, p, q) { g_pattern_tail(ts, q) } else { None },
        None => None,
    }
}

pub open spec fn g_pattern_tail(ts: Seq<TokV>, q: int) -> Option<int>
    decreases ts.len() - q, 14int,
{
    if sym_tok(ts, q, '-') || op2_tok(ts, q, '<', '-') {
        match g_rel(ts, q) {
            Some(q2) => if !past(ts, q, q2) {
                None
            } else {
                match g_node(ts, q2) {
                    Some(q3) => if past(ts, q2, q3) { g_pattern_tail(ts, q3) } else { None },
                    None => None,
                }
            },
            None => None,
        }
    } else {
        Some(q)
    }
}

/// End of `Pattern (',' Pattern)*`.
pub open spec fn g_patterns(ts: Seq<TokV>, p: int) -> Option<int>
    decreases ts.len() - p, 17int,
{
    match g_pattern(ts, p) {
        Some(q) => if past(ts, p, q) { g_patterns_tail(ts, q) } else { None },
        None => None,
    }
}

pub open spec fn g_patterns_tail(ts: Seq<TokV>, q: int) -> Option<int>
    decreases ts.len() - q, 16int,
{
    if sym_tok(ts, q, ',') {
        match g_pattern(ts, q + 1) {
            Some(q2) => if past(ts, q, q2) { g_patterns_tail(ts, q2) } else { None },
            None => None,
        }
    } else {
        Some(q)
    }
}

/// End of `Expr (',' Expr)*`.
pub open spec fn g_exprs(ts: Seq<TokV>, p: int) -> Option<int>
    decreases ts.len() - p, 17int,
{
    match g_or(ts, p) {
        Some(q) => if past(ts, p, q) { g_exprs_tail(ts, q) } else { None },
        None => None,
    }
}

pub open spec fn g_exprs_tail(ts: Seq<TokV>, q: int) -> Option<int>
    decreases ts.len() - q, 16int,
{
    if sym_tok(ts, q, ',') {
        match g_or(ts, q + 1) {
            Some(q2) => if past(ts, q, q2) { g_exprs_tail(ts, q2) } else { None },
            None => None,
        }
    } else {
        Some(q)
    }
}

/// End of `ReturnClause := 'RETURN' 'DISTINCT'? Item (',' Item)* Order? Limit?`.
pub open spec fn g_return(ts: Seq<TokV>, p: int) -> Option<int>
    decreases ts.len() - p, 20int,
{
    if !kw_tok(ts, p, "RETURN"@) {
        None
    } else {
        g_items(ts, if kw_tok(ts, p + 1, "DISTINCT"@) { p + 2 } else { p + 1 })
    }
}

/// End of `Item := Expr ('AS' Var)?` and what follows it.
pub open spec fn g_items(ts: Seq<TokV>, q: int) -> Option<int>
    decreases ts.len() - q, 19int,
{
    match g_or(ts, q) {
        Some(q2) => if !past(ts, q, q2) {
            None
        } else if kw_tok(ts, q2, "AS"@) && !ident_tok(ts, q2 + 1) {
            None
        } else {
            let q3 = if kw_tok(ts, q2, "AS"@) { q2 + 2 } else { q2 };
            if sym_tok(ts, q3, ',') {
                g_items(ts, q3 + 1)
            } else {
                g_order(ts, q3)
            }
        },
        None => None,
    }
}

/// End of `('ORDER' 'BY' Key (',' Key)*)? Limit?`.
pub open spec fn g_order(ts: Seq<TokV>, q: int) -> Option<int>
    decreases ts.len() - q, 18int,
{
    if kw_tok(ts, q, "ORDER"@) {
        if kw_tok(ts, q + 1, "BY"@) {
            g_keys(ts, q + 2)
        } else {
            None
        }
    } else {
        g_limit(ts, q)
    }
}

/// End of `Key := Expr ('DESC' | 'ASC')?` and what follows it.
pub open spec fn g_keys(ts: Seq<TokV>, q: int) -> Option<int>
    decreases ts.len() - q, 17int,
{
    match g_or(ts, q) {
        Some(q2) => if !past(ts, q, q2) {
            None
        } else {
            let q3 = if kw_tok(ts, q2, "DESC"@) || kw_tok(ts, q2, "ASC"@) { q2 + 1 } else { q2 };
            if sym_tok(ts, q3, ',') {
                g_keys(ts, q3 + 1)
            } else {
                g_limit(ts, q3)
            }
        },
        None => None,
    }
}

/// End of `('LIMIT' Int)?`.
pub open spec fn g_limit(ts: Seq<TokV>, q: int) -> Option<int> {
    if kw_tok(ts, q, "LIMIT"@) {
        if q + 1 < ts.len() && ts[q + 1] is Int {
            Some(q + 2)
        } else {
            None
        }
    } else {
        Some(q)
    }
}

/// End of `SetItem (',' SetItem)*` with `SetItem := Var '.' Key '=' Expr`.
pub open spec fn g_set_items(ts: Seq<TokV>, q: int) -> Option<int>
    decreases ts.len() - q, 17int,
{
    if !ident_tok(ts, q) || !sym_tok(ts, q + 1, '.') || !ident_tok(ts, q + 2) || !sym_tok(ts, q + 3, '=') {
        None
    } else {
        match g_or(ts, q + 4) {
            Some(q2) => if !past(ts, q, q2) {
                None
            } else if sym_tok(ts, q2, ',') {
                g_set_items(ts, q2 + 1)
            } else {
                Some(q2)
            },
            None => None,
        }
    }
}

/// End of the query part of a statement (before its `;`).
pub open spec fn g_query(ts: Seq<TokV>) -> Option<int> {
    if kw_tok(ts, 0, "MATCH"@) {
        match g_patterns(ts, 1) {
            Some(q1) => if !past(ts, 1, q1) {
                None
            } else if kw_tok(ts, q1, "WHERE"@) {
                match g_or(ts, q1 + 1) {
                    Some(q2) => if past(ts, q1, q2) { g_return(ts, q2) } else { None },
                    None => None,
                }
            } else {
                g_return(ts, q1)
            },
            None => None,
        }
    } else if kw_tok(ts, 0, "CREATE"@) {
        g_patterns(ts, 1)
    } else if kw_tok(ts, 0, "MERGE"@) {
        g_pattern(ts, 1)
    } else if kw_tok(ts, 0, "DELETE"@) {
        g_exprs(ts, 1)
    } else if kw_tok(ts, 0, "SET"@) {
        g_set_items(ts, 1)
    } else {
        None
    }
}

/// The tokens form one statement: a query followed by `;` and nothing else.
pub open spec fn accepts(ts: Seq<TokV>) -> bool {
    match g_query(ts) {
        Some(q) => sym_tok(ts, q, ';') && q + 1 == ts.len(),
        None => false,
    }
}

/// The text is one statement of the grammar.
pub open spec fn accepts_text(text: Seq<char>) -> bool {
    match lex(text, 0) {
        Some(ts) => accepts(ts),
        None => false,
    }
}

/// The text is an accepted read query (it starts with `MATCH`).
pub open spec fn is_read_text(text: Seq<char>) -> bool {
    accepts_text(text) && kw_tok(lex(text, 0)->Some_0, 0, "MATCH"@)
}

/// `NodePat := '(' Var? (':' Label)* Props? ')'`
fn parse_node(t: &Vec<Token>, p: usize) -> (r: Result<(NodePattern, usize), DeepGraphError>)
    requires
        p <= t@.len(),
    ensures
        advanced(r, p, t@.len()),
        agrees(r, g_node(toks_view(t@), p as int)),
{
    if !is_sym(t, p, '(') {
        return Err(err("expected '('"));
    }
    let mut q = p + 1;
    let variable = match ident_at(t, q) {
        Some(v) => {
            q = q + 1;
            Some(v)
        },
        None => None,
    };
    let mut labels: Vec<String> = Vec::new();
    while is_sym(t, q, ':')
        invariant
            p < q <= t@.len(),
            g_node(toks_view(t@), p as int) == g_node_labels(toks_view(t@), q as int),
        decreases t@.len() - q,
    {
        match ident_at(t, q + 1) {
            Some(l) => {
                labels.push(l);
                q = q + 2;
            },
            None => {
                return Err(err("expected a label"));
            },
        }
    }
    let mut properties: Vec<(String, Expression)> = Vec::new();
    if is_sym(t, q, '{') {
        let (ps, q2) = parse_props(t, q)?;
        properties = ps;
        q = q2;
    }
    if !is_sym(t, q, ')') {
        return Err(err("expected ')'"));
    }
    Ok((NodePattern { variable, labels, properties }, q + 1))
}

/// `RelPat := ('-' | '<-') '[' Var? (':' Type)? Props? ']' ('->' | '-')`
fn parse_rel(t: &Vec<Token>, p: usize) -> (r: Result<(RelationshipPattern, usize), DeepGraphError>)
    requires
        p <= t@.len(),
    ensures
        advanced(r, p, t@.len()),
        agrees(r, g_rel(toks_view(t@), p as int)),
{
    let left = is_op2(t, p, '<', '-');
    if !left && !is_sym(t, p, '-') {
        return Err(err("expected a relationship"));
    }
    let mut q = p + 1;
    if !is_sym(t, q, '[') {
        return Err(err("expected '['"));
    }
    q = q + 1;
    let variable = match ident_at(t, q) {
        Some(v) => {
            q = q + 1;
            Some(v)
        },
        None => None,
    };
    let mut rel_type: Option<String> = None;
    if is_sym(t, q, ':') {
        match ident_at(t, q + 1) {
            Some(ty) => {
                rel_type = Some(ty);
                q = q + 2;
            },
            None => {
                return Err(err("expected a relationship type"));
            },
        }
    }
    let mut properties: Vec<(String, Expression)> = Vec::new();
    if is_sym(t, q, '{') {
        let (ps, q2) = parse_props(t, q)?;
        properties = ps;
        q = q2;
    }
    if !is_sym(t, q, ']') {
        return Err(err("expected ']'"));
    }
    q = q + 1;
    let right = is_op2(t, q, '-', '>');
    if !right && !is_sym(t, q, '-') {
        return Err(err("expected '-' or '->'"));
    }
    let direction = if left && !right {
        Direction::Left
    } else if right && !left {
        Direction::Right
    } else {
        Direction::Both
    };
    Ok((RelationshipPattern { variable, rel_type, direction, properties }, q + 1))
}

/// `Pattern := NodePat (RelPat NodePat)*`
fn parse_pattern(t: &Vec<Token>, p: usize) -> (r: Result<(Pattern, usize), DeepGraphError>)
    requires
        p <= t@.len(),
    ensures
        advanced(r, p, t@.len()),
        agrees(r, g_pattern(toks_view(t@), p as int)),
{
    let (n0, mut q) = parse_node(t, p)?;
    let mut elements: Vec<PatternElement> = Vec::new();
    elements.push(PatternElement::Node(n0));
    while is_sym(t, q, '-') || is_op2(t, q, '<', '-')
        invariant
            p < q <= t@.len(),
            g_pattern(toks_view(t@), p as int) == g_pattern_tail(toks_view(t@), q as int),
        decreases t@.len() - q,
    {
        let (rel, q2) = parse_rel(t, q)?;
        let (node, q3) = parse_node(t, q2)?;
        elements.push(PatternElement::Relationship(rel));
        elements.push(PatternElement::Node(node));
        q = q3;
    }
    Ok((Pattern { elements }, q))
}

/// `Pattern (',' Pattern)*`
fn parse_patterns(t: &Vec<Token>, p: usize) -> (r: Result<(Vec<Pattern>, usize), DeepGraphError>)
    requires
        p <= t@.len(),
    ensures
        advanced(r, p, t@.len()),
        agrees(r, g_patterns(toks_view(t@), p as int)),
{
    let (first, mut q) = parse_pattern(t, p)?;
    let mut ps: Vec<Pattern> = Vec::new();
    ps.push(first);
    while is_sym(t, q, ',')
        invariant
            p < q <= t@.len(),
            g_patterns(toks_view(t@), p as int) == g_patterns_tail(toks_view(t@), q as int),
        decreases t@.len() - q,
    {
        let (next, q2) = parse_pattern(t, q + 1)?;
        ps.push(next);
        q = q2;
    }
    Ok((ps, q))
}

/// `Expr (',' Expr)*`
fn parse_exprs(t: &Vec<Token>, p: usize) -> (r: Result<(Vec<Expression>, usize), DeepGraphError>)
    requires
        p <= t@.len(),
    ensures
        advanced(r, p, t@.len()),
        agrees(r, g_exprs(toks_view(t@), p as int)),
{
    let (first, mut q) = parse_or(t, p)?;
    let mut es: Vec<Expression> = Vec::new();
    es.push(first);
    while is_sym(t, q, ',')
        invariant
            p < q <= t@.len(),
            g_exprs(toks_view(t@), p as int) == g_exprs_tail(toks_view(t@), q as int),
        decreases t@.len() - q,
    {
        let (next, q2) = parse_or(t, q + 1)?;
        es.push(next);
        q = q2;
    }
    Ok((es, q))
}

/// `ReturnClause`, at `RETURN`.
fn parse_return(t: &Vec<Token>, p: usize) -> (r: Result<(ReturnClause, usize), DeepGraphError>)
    requires
        p <= t@.len(),
    ensures
        advanced(r, p, t@.len()),
        agrees(r, g_return(toks_view(t@), p as int)),
{
    if !is_kw(t, p, "RETURN") {
        return Err(err("expected RETURN"));
    }
    let mut q = p + 1;
    let distinct = is_kw(t, q, "DISTINCT");
    if distinct {
        q = q + 1;
    }
    let mut items: Vec<ReturnItem> = Vec::new();
    loop
        invariant_except_break
            p < q <= t@.len(),
            g_return(toks_view(t@), p as int) == g_items(toks_view(t@), q as int),
        ensures
            p < q <= t@.len(),
            g_return(toks_view(t@), p as int) == g_order(toks_view(t@), q as int),
        decreases t@.len() - q,
    {
        let (e, q2) = parse_or(t, q)?;
        let mut q3 = q2;
        let mut alias: Option<String> = None;
        if is_kw(t, q3, "AS") {
            match ident_at(t, q3 + 1) {
                Some(a) => {
                    alias = Some(a);
                    q3 = q3 + 2;
                },
                None => {
                    return Err(err("expected an alias"));
                },
            }
        }
        items.push(ReturnItem { expression: e, alias });
        if is_sym(t, q3, ',') {
            q = q3 + 1;
        } else {
            q = q3;
            break;
        }
    }
    let mut order_by: Option<Vec<OrderItem>> = None;
    if is_kw(t, q, "ORDER") {
        if !is_kw(t, q + 1, "BY") {
            return Err(err("expected BY"));
        }
        q = q + 2;
        let mut keys: Vec<OrderItem> = Vec::new();
        loop
            invariant_except_break
                p < q <= t@.len(),
                g_return(toks_view(t@), p as int) == g_keys(toks_view(t@), q as int),
            ensures
                p < q <= t@.len(),
                g_return(toks_view(t@), p as int) == g_limit(toks_view(t@), q as int),
            decreases t@.len() - q,
        {
            let (e, q2) = parse_or(t, q)?;
            let mut q3 = q2;
            let mut ascending = true;
            if is_kw(t, q3, "DESC") {
                ascending = false;
                q3 = q3 + 1;
            } else if is_kw(t, q3, "ASC") {
                q3 = q3 + 1;
            }
            keys.push(OrderItem { expression: e, ascending });
            if is_sym(t, q3, ',') {
                q = q3 + 1;
            } else {
                q = q3;
                break;
            }
        }
        order_by = Some(keys);
    } else {
        proof {
            assert(g_order(toks_view(t@), q as int) == g_limit(toks_view(t@), q as int));
        }
    }
    let mut limit: Option<i64> = None;
    if is_kw(t, q, "LIMIT") {
        if q + 1 < t.len() {
            match &t[q + 1] {
                Token::Int(v) => {
                    limit = Some(*v);
                    q = q + 2;
                },
                _ => {
                    return Err(err("expected an integer after LIMIT"));
                },
            }
        } else {
            return Err(err("expected an integer after LIMIT"));
        }
    }
    Ok((ReturnClause { distinct, items, order_by, limit }, q))
}

/// `SetItem := Var '.' Key '=' Expr`
fn parse_set_items(t: &Vec<Token>, p: usize) -> (r: Result<(Vec<SetItem>, usize), DeepGraphError>)
    requires
        p <= t@.len(),
    ensures
        advanced(r, p, t@.len()),
        agrees(r, g_set_items(toks_view(t@), p as int)),
{
    let mut items: Vec<SetItem> = Vec::new();
    let mut q = p;
    loop
        invariant
            p <= q <= t@.len(),
            q > p || items@.len() == 0,
            g_set_items(toks_view(t@), p as int) == g_set_items(toks_view(t@), q as int),
        decreases t@.len() - q,
    {
        let variable = match ident_at(t, q) {
            Some(v) => v,
            None => {
                return Err(err("expected a variable"));
            },
        };
        if !is_sym(t, q + 1, '.') {
            return Err(err("expected '.'"));
        }
        let property = match ident_at(t, q + 2) {
            Some(k) => k,
            None => {
                return Err(err("expected a property name"));
            },
        };
        if !is_sym(t, q + 3, '=') {
            return Err(err("expected '='"));
        }
        let (value, q2) = parse_or(t, q + 4)?;
        items.push(SetItem { variable, property, value });
        if is_sym(t, q2, ',') {
            q = q2 + 1;
        } else {
            return Ok((items, q2));
        }
    }
}

/// `Statement := Query ';'`.
pub fn parse_statement(t: &Vec<Token>) -> (r: Result<Query, DeepGraphError>)
    ensures
        r is Ok <==> accepts(toks_view(t@)),
        r is Ok ==> (r->Ok_0 is Read <==> kw_tok(toks_view(t@), 0, "MATCH"@)),
        r is Ok ==> t@.len() > 1 && t@.last() == Token::Sym(';'),
{
    let (query, q) = if is_kw(t, 0, "MATCH") {
        let (patterns, q1) = parse_patterns(t, 1)?;
        let mut q = q1;
        let mut where_clause: Option<Expression> = None;
        if is_kw(t, q, "WHERE") {
            let (cond, q2) = parse_or(t, q + 1)?;
            where_clause = Some(cond);
            q = q2;
        }
        let (return_clause, q3) = parse_return(t, q)?;
        (Query::Read(ReadQuery { patterns, where_clause, return_clause }), q3)
    } else if is_kw(t, 0, "CREATE") {
        let (patterns, q1) = parse_patterns(t, 1)?;
        (Query::Write(WriteQuery::Create(patterns)), q1)
    } else if is_kw(t, 0, "MERGE") {
        let (pattern, q1) = parse_pattern(t, 1)?;
        (Query::Write(WriteQuery::Merge(pattern)), q1)
    } else if is_kw(t, 0, "DELETE") {
        let (es, q1) = parse_exprs(t, 1)?;
        (Query::Write(WriteQuery::Delete(es)), q1)
    } else if is_kw(t, 0, "SET") {
        let (items, q1) = parse_set_items(t, 1)?;
        (Query::Write(WriteQuery::Assign(items)), q1)
    } else {
        return Err(err("expected MATCH, CREATE, MERGE, DELETE or SET"));
    };
    if !is_sym(t, q, ';') {
        return Err(err("expected ';'"));
    }
    if q + 1 != t.len() {
        return Err(err("unexpected input after ';'"));
    }
    proof {
        assert(t@[q as int] == Token::Sym(';'));
    }
    Ok(query)
}

/// Parses queries of the Cypher subset.
#[derive(Debug)]
pub struct CypherParser;

impl CypherParser {
    pub fn new() -> (r: CypherParser) {
        CypherParser
    }

    /// Parses one statement (which ends with `;`). It succeeds exactly on the
    /// texts of the grammar, and gives a read query exactly for `MATCH`.
    pub fn parse(query: &str) -> (r: Result<Query, DeepGraphError>)
        ensures
            r is Ok <==> accepts_text(query@),
            r is Ok ==> (r->Ok_0 is Read <==> is_read_text(query@)),
    {
        let toks = tokenize(query)?;
        parse_statement(&toks)
    }

    /// Checks the syntax of one statement.
    pub fn validate(query: &str) -> (r: Result<(), DeepGraphError>)
        ensures
            r is Ok <==> accepts_text(query@),
    {
        match CypherParser::parse(query) {
            Ok(_) => Ok(()),
            Err(e) => Err(e),
        }
    }
}

} // verus!
