//! Recursive-descent parser for the SQL dialect: `CREATE TABLE`, `INSERT
//! INTO ... VALUES`, `SELECT ... FROM ... [WHERE ...]`, `EXIT` and `HELP`.
//!
//! Each parsing function is specified by a function on the token values
//! (`spec_*`), and the executable one is proved to compute it, error
//! messages included. Unknown tokens (white space and other characters) are
//! skipped between the parts of a statement.

use vstd::prelude::*;
use vstd::string::StrSliceExecFns;

use crate::text::{
    all_ascii, char_to_string, decimal, lower, push_str, str_eq, to_lower, to_owned_string,
    to_upper, trim_white_space, trimmed, upper, usize_to_string,
};
use crate::tokenizer::{tokens_of, Token, TokenType, TokenView, Tokenizer};

verus! {

#[derive(Debug, Clone)]
pub struct ColumnDef {
    pub name: String,
    pub col_type: String,
}

#[derive(Debug)]
pub enum Statement {
    Exit,
    Help,
    CreateTable { table: String, columns: Vec<ColumnDef> },
    Insert { table: String, values: Vec<Expression> },
    /// `columns` holds `"*"` alone for all columns.
    Select { columns: Vec<String>, table: String, where_clause: Option<Expression> },
}

#[derive(Debug)]
pub enum Expression {
    Literal(String),
    ColumnRef(String),
    BinaryOp { op: String, left: Box<Expression>, right: Box<Expression> },
    And(Box<Expression>, Box<Expression>),
    Or(Box<Expression>, Box<Expression>),
}

/// An expression as a value.
pub enum ExprV {
    Literal(Seq<char>),
    ColumnRef(Seq<char>),
    BinaryOp(Seq<char>, Box<ExprV>, Box<ExprV>),
    And(Box<ExprV>, Box<ExprV>),
    Or(Box<ExprV>, Box<ExprV>),
}

/// A column definition as a value.
pub struct ColumnDefV {
    pub name: Seq<char>,
    pub col_type: Seq<char>,
}

/// A statement as a value.
pub enum StatementV {
    Exit,
    Help,
    CreateTable(Seq<char>, Seq<ColumnDefV>),
    Insert(Seq<char>, Seq<ExprV>),
    Select(Seq<Seq<char>>, Seq<char>, Option<ExprV>),
}

pub open spec fn expr_view(e: Expression) -> ExprV
    decreases e,
{
    match e {
        Expression::Literal(s) => ExprV::Literal(s@),
        Expression::ColumnRef(s) => ExprV::ColumnRef(s@),
        Expression::BinaryOp { op, left, right } => ExprV::BinaryOp(
            op@,
            Box::new(expr_view(*left)),
            Box::new(expr_view(*right)),
        ),
        Expression::And(l, r) => ExprV::And(Box::new(expr_view(*l)), Box::new(expr_view(*r))),
        Expression::Or(l, r) => ExprV::Or(Box::new(expr_view(*l)), Box::new(expr_view(*r))),
    }
}

impl View for Expression {
    type V = ExprV;

    open spec fn view(&self) -> ExprV {
        expr_view(*self)
    }
}

impl View for ColumnDef {
    type V = ColumnDefV;

    open spec fn view(&self) -> ColumnDefV {
        ColumnDefV { name: self.name@, col_type: self.col_type@ }
    }
}

impl View for Statement {
    type V = StatementV;

    open spec fn view(&self) -> StatementV {
        match self {
            Statement::Exit => StatementV::Exit,
            Statement::Help => StatementV::Help,
            Statement::CreateTable { table, columns } => StatementV::CreateTable(
                table@,
                columns@.map_values(|c: ColumnDef| c@),
            ),
            Statement::Insert { table, values } => StatementV::Insert(
                table@,
                values@.map_values(|e: Expression| e@),
            ),
            Statement::Select { columns, table, where_clause } => StatementV::Select(
                columns@.map_values(|c: String| c@),
                table@,
                match where_clause {
                    Some(e) => Some(e@),
                    None => None,
                },
            ),
        }
    }
}

/// The values of a sequence of tokens.
pub open spec fn token_views(tokens: Seq<Token>) -> Seq<TokenView> {
    tokens.map_values(|t: Token| t@)
}

// ---------------------------------------------------------------------------
// The grammar, as functions on token values.
// ---------------------------------------------------------------------------

/// The first position at or after `pos` that is not an unknown token.
pub open spec fn spec_skip(ts: Seq<TokenView>, pos: int) -> int
    decreases ts.len() - pos,
{
    if 0 <= pos < ts.len() && ts[pos].0 == TokenType::Unknown {
        spec_skip(ts, pos + 1)
    } else {
        pos
    }
}

/// The text of a parse error at token `pos`.
pub open spec fn spec_error(msg: Seq<char>, pos: int) -> Seq<char> {
    "Parse error at token "@ + decimal(pos as nat) + ": "@ + msg
}

pub open spec fn spec_expect_keyword(ts: Seq<TokenView>, pos: int, kw: Seq<char>) -> Result<int, Seq<char>> {
    let p = spec_skip(ts, pos);
    if p >= ts.len() {
        Err(spec_error("expected keyword '"@ + kw + "', got end of input"@, p))
    } else if ts[p].0 == TokenType::Keyword && upper(ts[p].1) == upper(kw) {
        Ok(p + 1)
    } else {
        Err(spec_error("expected keyword '"@ + kw + "', got '"@ + ts[p].1 + "'"@, p))
    }
}

pub open spec fn spec_expect_symbol(ts: Seq<TokenView>, pos: int, sym: Seq<char>) -> Result<int, Seq<char>> {
    let p = spec_skip(ts, pos);
    if p >= ts.len() {
        Err(spec_error("expected '"@ + sym + "', got end of input"@, p))
    } else if ts[p].0 == TokenType::Symbol && ts[p].1 == sym {
        Ok(p + 1)
    } else {
        Err(spec_error("expected '"@ + sym + "', got '"@ + ts[p].1 + "'"@, p))
    }
}

pub open spec fn spec_expect_identifier(ts: Seq<TokenView>, pos: int) -> Result<(Seq<char>, int), Seq<char>> {
    let p = spec_skip(ts, pos);
    if p >= ts.len() {
        Err(spec_error("expected identifier, got end of input"@, p))
    } else if ts[p].0 == TokenType::Identifier {
        Ok((ts[p].1, p + 1))
    } else {
        Err(spec_error("expected identifier, got '"@ + ts[p].1 + "'"@, p))
    }
}

pub open spec fn spec_parse_primary(ts: Seq<TokenView>, pos: int) -> Result<(ExprV, int), Seq<char>> {
    let p = spec_skip(ts, pos);
    if p >= ts.len() {
        Err(spec_error("expected value, got end of input"@, p))
    } else {
        match ts[p].0 {
            TokenType::Number => Ok((ExprV::Literal(ts[p].1), p + 1)),
            TokenType::Identifier => Ok((ExprV::ColumnRef(ts[p].1), p + 1)),
            TokenType::Unknown => Ok((ExprV::Literal(ts[p].1), p + 1)),
            TokenType::Keyword => Ok((ExprV::Literal(ts[p].1), p + 1)),
            TokenType::Symbol => Err(spec_error("unexpected symbol '"@ + ts[p].1 + "'"@, p)),
        }
    }
}

/// The operator at `pos`: a two-symbol `!=`, `<=` or `>=`, else the token
/// at `pos` alone.
pub open spec fn spec_collect_operator(ts: Seq<TokenView>, pos: int) -> (Seq<char>, int) {
    let first = ts[pos].1;
    if pos + 1 < ts.len() && ts[pos + 1].0 == TokenType::Symbol {
        let combined = first + ts[pos + 1].1;
        if combined == "!="@ || combined == "<="@ || combined == ">="@ {
            (combined, pos + 2)
        } else {
            (first, pos + 1)
        }
    } else {
        (first, pos + 1)
    }
}

/// The token texts that start a comparison operator.
pub open spec fn starts_operator(v: Seq<char>) -> bool {
    v == "="@ || v == "!"@ || v == "<"@ || v == ">"@
}

/// A value, optionally followed by a comparison operator and a second value.
pub open spec fn spec_parse_comparison(ts: Seq<TokenView>, pos: int) -> Result<(ExprV, int), Seq<char>> {
    let p = spec_skip(ts, pos);
    if p >= ts.len() {
        Err(spec_error("expected expression"@, p))
    } else {
        match spec_parse_primary(ts, p) {
            Err(e) => Err(e),
            Ok((left, p2)) => {
                let p3 = spec_skip(ts, p2);
                if p3 >= ts.len() || !starts_operator(ts[p3].1) {
                    Ok((left, p3))
                } else {
                    let (op, p4) = spec_collect_operator(ts, p3);
                    match spec_parse_primary(ts, spec_skip(ts, p4)) {
                        Err(e) => Err(e),
                        Ok((right, p6)) => Ok((ExprV::BinaryOp(op, Box::new(left), Box::new(right)), p6)),
                    }
                }
            },
        }
    }
}

/// The `AND` / `OR` chain after `left`, grouped to the left.
pub open spec fn spec_expr_rest(ts: Seq<TokenView>, left: ExprV, pos: int) -> Result<(ExprV, int), Seq<char>>
    decreases ts.len() - pos,
{
    let p = spec_skip(ts, pos);
    if pos < 0 || p >= ts.len() {
        Ok((left, pos))
    } else {
        let u = upper(ts[p].1);
        if u == "AND"@ || u == "OR"@ {
            match spec_parse_comparison(ts, spec_skip(ts, p + 1)) {
                Err(e) => Err(e),
                Ok((right, next)) => {
                    let e = if u == "AND"@ {
                        ExprV::And(Box::new(left), Box::new(right))
                    } else {
                        ExprV::Or(Box::new(left), Box::new(right))
                    };
                    if pos < next <= ts.len() {
                        spec_expr_rest(ts, e, next)
                    } else {
                        Ok((e, next))
                    }
                },
            }
        } else {
            Ok((left, pos))
        }
    }
}

/// Comparisons joined by `AND` and `OR`, grouped to the left.
pub open spec fn spec_parse_expr(ts: Seq<TokenView>, pos: int) -> Result<(ExprV, int), Seq<char>> {
    match spec_parse_comparison(ts, spec_skip(ts, pos)) {
        Err(e) => Err(e),
        Ok((left, q)) => spec_expr_rest(ts, left, q),
    }
}

/// The column list of `CREATE TABLE` from `pos` on, after the columns `acc`:
/// `name type` pairs separated by optional commas, up to `)`. The type is kept
/// in upper case.
pub open spec fn spec_column_list(ts: Seq<TokenView>, acc: Seq<ColumnDefV>, pos: int) -> Result<Seq<ColumnDefV>, Seq<char>>
    decreases ts.len() - pos,
{
    let p = spec_skip(ts, pos);
    if pos < 0 || p >= ts.len() {
        Err(spec_error("unexpected end inside CREATE TABLE column list"@, p))
    } else if ts[p].0 == TokenType::Symbol && ts[p].1 == ")"@ {
        Ok(acc)
    } else if ts[p].0 == TokenType::Symbol && ts[p].1 == ","@ {
        if pos < p + 1 {
            spec_column_list(ts, acc, p + 1)
        } else {
            Ok(acc)
        }
    } else {
        match spec_expect_identifier(ts, p) {
            Err(e) => Err(e),
            Ok((name, p2)) => {
                let p3 = spec_skip(ts, p2);
                if p3 >= ts.len() {
                    Err(spec_error("expected column type"@, p3))
                } else if pos < p3 + 1 {
                    spec_column_list(
                        ts,
                        acc.push(ColumnDefV { name: name, col_type: upper(ts[p3].1) }),
                        p3 + 1,
                    )
                } else {
                    Ok(acc)
                }
            },
        }
    }
}

/// `CREATE` has been read; the rest is `TABLE name ( columns )`.
pub open spec fn spec_parse_create_table(ts: Seq<TokenView>, pos: int) -> Result<StatementV, Seq<char>> {
    match spec_expect_keyword(ts, pos, "TABLE"@) {
        Err(e) => Err(e),
        Ok(p1) => match spec_expect_identifier(ts, p1) {
            Err(e) => Err(e),
            Ok((table, p2)) => match spec_expect_symbol(ts, p2, "("@) {
                Err(e) => Err(e),
                Ok(p3) => match spec_column_list(ts, Seq::empty(), p3) {
                    Err(e) => Err(e),
                    Ok(cols) => Ok(StatementV::CreateTable(table, cols)),
                },
            },
        },
    }
}

/// The value list of `INSERT` from `pos` on, after the values `acc`: values
/// separated by optional commas, up to `)`.
pub open spec fn spec_value_list(ts: Seq<TokenView>, acc: Seq<ExprV>, pos: int) -> Result<Seq<ExprV>, Seq<char>>
    decreases ts.len() - pos,
{
    let p = spec_skip(ts, pos);
    if pos < 0 || p >= ts.len() {
        Err(spec_error("unexpected end inside VALUES list"@, p))
    } else if ts[p].0 == TokenType::Symbol && ts[p].1 == ")"@ {
        Ok(acc)
    } else if ts[p].0 == TokenType::Symbol && ts[p].1 == ","@ {
        if pos < p + 1 {
            spec_value_list(ts, acc, p + 1)
        } else {
            Ok(acc)
        }
    } else {
        match spec_parse_primary(ts, p) {
            Err(e) => Err(e),
            Ok((e, next)) => if pos < next {
                spec_value_list(ts, acc.push(e), next)
            } else {
                Ok(acc)
            },
        }
    }
}

/// `INSERT` has been read; the rest is `INTO name VALUES ( values )`.
pub open spec fn spec_parse_insert(ts: Seq<TokenView>, pos: int) -> Result<StatementV, Seq<char>> {
    match spec_expect_keyword(ts, pos, "INTO"@) {
        Err(e) => Err(e),
        Ok(p1) => match spec_expect_identifier(ts, p1) {
            Err(e) => Err(e),
            Ok((table, p2)) => match spec_expect_keyword(ts, p2, "VALUES"@) {
                Err(e) => Err(e),
                Ok(p3) => match spec_expect_symbol(ts, p3, "("@) {
                    Err(e) => Err(e),
                    Ok(p4) => match spec_value_list(ts, Seq::empty(), p4) {
                        Err(e) => Err(e),
                        Ok(vals) => Ok(StatementV::Insert(table, vals)),
                    },
                },
            },
        },
    }
}

/// The named columns of `SELECT` from `pos` on, after the columns `acc`:
/// identifiers separated by optional commas, up to the next keyword or the
/// end. Gives the columns and the position where the list stopped.
pub open spec fn spec_select_columns(ts: Seq<TokenView>, acc: Seq<Seq<char>>, pos: int) -> Result<(Seq<Seq<char>>, int), Seq<char>>
    decreases ts.len() - pos,
{
    let p = spec_skip(ts, pos);
    if pos < 0 || p >= ts.len() {
        Ok((acc, p))
    } else if ts[p].0 == TokenType::Symbol && ts[p].1 == ","@ {
        if pos < p + 1 {
            spec_select_columns(ts, acc, p + 1)
        } else {
            Ok((acc, p))
        }
    } else if ts[p].0 == TokenType::Keyword {
        Ok((acc, p))
    } else {
        match spec_expect_identifier(ts, p) {
            Err(e) => Err(e),
            Ok((c, next)) => if pos < next {
                spec_select_columns(ts, acc.push(c), next)
            } else {
                Ok((acc, p))
            },
        }
    }
}

/// The column part of `SELECT`: `*`, or a list of names.
pub open spec fn spec_select_head(ts: Seq<TokenView>, pos: int) -> Result<(Seq<Seq<char>>, int), Seq<char>> {
    let p = spec_skip(ts, pos);
    if p < ts.len() && ts[p].0 == TokenType::Symbol && ts[p].1 == "*"@ {
        Ok((seq!["*"@], p + 1))
    } else {
        spec_select_columns(ts, Seq::empty(), p)
    }
}

/// `SELECT` has been read; the rest is `columns FROM name [WHERE expr]`.
/// Tokens after the statement are ignored.
pub open spec fn spec_parse_select(ts: Seq<TokenView>, pos: int) -> Result<StatementV, Seq<char>> {
    match spec_select_head(ts, pos) {
        Err(e) => Err(e),
        Ok((cols, p1)) => match spec_expect_keyword(ts, p1, "FROM"@) {
            Err(e) => Err(e),
            Ok(p2) => match spec_expect_identifier(ts, p2) {
                Err(e) => Err(e),
                Ok((table, p3)) => {
                    let p4 = spec_skip(ts, p3);
                    if p4 < ts.len() && ts[p4].0 == TokenType::Keyword && upper(ts[p4].1) == "WHERE"@ {
                        match spec_parse_expr(ts, p4 + 1) {
                            Err(e) => Err(e),
                            Ok((w, _)) => Ok(StatementV::Select(cols, table, Some(w))),
                        }
                    } else {
                        Ok(StatementV::Select(cols, table, None))
                    }
                },
            },
        },
    }
}

/// A statement, from its tokens.
pub open spec fn spec_parse_tokens(ts: Seq<TokenView>) -> Result<StatementV, Seq<char>> {
    let p = spec_skip(ts, 0);
    if p >= ts.len() {
        Err(spec_error("empty input"@, 0))
    } else if ts[p].0 == TokenType::Keyword {
        let kw = upper(ts[p].1);
        if kw == "SELECT"@ {
            spec_parse_select(ts, p + 1)
        } else if kw == "INSERT"@ {
            spec_parse_insert(ts, p + 1)
        } else if kw == "CREATE"@ {
            spec_parse_create_table(ts, p + 1)
        } else if kw == "EXIT"@ {
            Ok(StatementV::Exit)
        } else if kw == "HELP"@ {
            Ok(StatementV::Help)
        } else {
            Err(spec_error("unknown keyword '"@ + ts[p].1 + "'"@, p))
        }
    } else {
        Err(spec_error("expected SQL statement, got '"@ + ts[p].1 + "'"@, p))
    }
}

/// A statement, from a line of input: `exit`, `.exit`, `help` and `.help` in
/// any case, else the statement its tokens spell. Leading and trailing white
/// space are ignored.
pub open spec fn spec_parse(input: Seq<char>) -> Result<StatementV, Seq<char>> {
    let t = trimmed(input);
    let l = lower(t);
    if l == ".exit"@ || l == "exit"@ {
        Ok(StatementV::Exit)
    } else if l == ".help"@ || l == "help"@ {
        Ok(StatementV::Help)
    } else {
        spec_parse_tokens(tokens_of(t))
    }
}

proof fn lemma_skip_bounds(ts: Seq<TokenView>, pos: int)
    requires
        0 <= pos,
    ensures
        pos <= spec_skip(ts, pos),
        pos <= ts.len() ==> spec_skip(ts, pos) <= ts.len(),
    decreases ts.len() - pos,
{
    if 0 <= pos < ts.len() && ts[pos].0 == TokenType::Unknown {
        lemma_skip_bounds(ts, pos + 1);
    }
}

/// Skipping again from where skipping stopped stays there.
proof fn lemma_skip_idempotent(ts: Seq<TokenView>, pos: int)
    ensures
        spec_skip(ts, spec_skip(ts, pos)) == spec_skip(ts, pos),
    decreases ts.len() - pos,
{
    if 0 <= pos < ts.len() && ts[pos].0 == TokenType::Unknown {
        lemma_skip_idempotent(ts, pos + 1);
    }
}

/// A successful comparison ends after its start, within the tokens.
proof fn lemma_comparison_advances(ts: Seq<TokenView>, pos: int)
    requires
        0 <= pos,
    ensures
        spec_parse_comparison(ts, pos) matches Ok((e, next)) ==> pos < next <= ts.len(),
{
    lemma_skip_bounds(ts, pos);
    let p = spec_skip(ts, pos);
    if p < ts.len() {
        lemma_skip_bounds(ts, p);
        if let Ok((left, p2)) = spec_parse_primary(ts, p) {
            lemma_skip_bounds(ts, p2);
            let p3 = spec_skip(ts, p2);
            if p3 < ts.len() && starts_operator(ts[p3].1) {
                let (op, p4) = spec_collect_operator(ts, p3);
                lemma_skip_bounds(ts, p4);
                lemma_skip_bounds(ts, spec_skip(ts, p4));
            }
        }
    }
}

// ---------------------------------------------------------------------------
// Executable parsing.
// ---------------------------------------------------------------------------

/// `a + b + c` as a new string.
fn concat3(a: &str, b: &str, c: &str) -> (s: String)
    ensures
        s@ == a@ + b@ + c@,
{
    let mut s = to_owned_string(a);
    push_str(&mut s, b);
    push_str(&mut s, c);
    s
}

/// The first position at or after `pos` that is not an unknown token.
fn skip_whitespace(tokens: &[Token], pos: usize) -> (p: usize)
    ensures
        p == spec_skip(token_views(tokens@), pos as int),
        pos <= p,
        p <= pos || p <= tokens@.len(),
{
    let ghost ts = token_views(tokens@);
    let mut i = pos;
    while i < tokens.len()
        invariant
            ts == token_views(tokens@),
            pos <= i,
            i <= pos || i <= tokens@.len(),
            spec_skip(ts, i as int) == spec_skip(ts, pos as int),
        ensures
            pos <= i,
            i <= pos || i <= tokens@.len(),
            spec_skip(ts, i as int) == spec_skip(ts, pos as int),
            i >= tokens@.len() || tokens@[i as int].token_type != TokenType::Unknown,
        decreases tokens@.len() - i,
    {
        assert(ts[i as int] == tokens@[i as int]@);
        if tokens[i].token_type == TokenType::Unknown {
            i += 1;
        } else {
            break;
        }
    }
    if i < tokens.len() {
        assert(ts[i as int] == tokens@[i as int]@);
    }
    i
}

/// The text of a parse error.
fn parse_error(msg: &str, pos: usize) -> (s: String)
    ensures
        s@ == spec_error(msg@, pos as int),
{
    let mut s = to_owned_string("Parse error at token ");
    let n = usize_to_string(pos);
    push_str(&mut s, n.as_str());
    push_str(&mut s, ": ");
    push_str(&mut s, msg);
    s
}

fn expect_keyword(tokens: &[Token], pos: usize, kw: &str) -> (r: Result<usize, String>)
    ensures
        match (r, spec_expect_keyword(token_views(tokens@), pos as int, kw@)) {
            (Ok(p), Ok(sp)) => p == sp,
            (Err(m), Err(sm)) => m@ == sm,
            _ => false,
        },
{
    let pos = skip_whitespace(tokens, pos);
    if pos >= tokens.len() {
        let msg = concat3("expected keyword '", kw, "', got end of input");
        return Err(parse_error(msg.as_str(), pos));
    }
    if tokens[pos].token_type == TokenType::Keyword {
        let a = to_upper(tokens[pos].value.as_str());
        let b = to_upper(kw);
        if str_eq(a.as_str(), b.as_str()) {
            return Ok(pos + 1);
        }
    }
    let mut msg = concat3("expected keyword '", kw, "', got '");
    push_str(&mut msg, tokens[pos].value.as_str());
    push_str(&mut msg, "'");
    Err(parse_error(msg.as_str(), pos))
}

fn expect_symbol(tokens: &[Token], pos: usize, sym: &str) -> (r: Result<usize, String>)
    ensures
        match (r, spec_expect_symbol(token_views(tokens@), pos as int, sym@)) {
            (Ok(p), Ok(sp)) => p == sp,
            (Err(m), Err(sm)) => m@ == sm,
            _ => false,
        },
{
    let pos = skip_whitespace(tokens, pos);
    if pos >= tokens.len() {
        let msg = concat3("expected '", sym, "', got end of input");
        return Err(parse_error(msg.as_str(), pos));
    }
    if tokens[pos].token_type == TokenType::Symbol {
        if str_eq(tokens[pos].value.as_str(), sym) {
            return Ok(pos + 1);
        }
    }
    let mut msg = concat3("expected '", sym, "', got '");
    push_str(&mut msg, tokens[pos].value.as_str());
    push_str(&mut msg, "'");
    Err(parse_error(msg.as_str(), pos))
}

fn expect_identifier(tokens: &[Token], pos: usize) -> (r: Result<(String, usize), String>)
    ensures
        match (r, spec_expect_identifier(token_views(tokens@), pos as int)) {
            (Ok((name, p)), Ok((sname, sp))) => name@ == sname && p == sp,
            (Err(m), Err(sm)) => m@ == sm,
            _ => false,
        },
{
    let pos = skip_whitespace(tokens, pos);
    if pos >= tokens.len() {
        return Err(parse_error("expected identifier, got end of input", pos));
    }
    if tokens[pos].token_type == TokenType::Identifier {
        return Ok((tokens[pos].value.clone(), pos + 1));
    }
    let msg = concat3("expected identifier, got '", tokens[pos].value.as_str(), "'");
    Err(parse_error(msg.as_str(), pos))
}

fn parse_primary(tokens: &[Token], pos: usize) -> (r: Result<(Expression, usize), String>)
    ensures
        match (r, spec_parse_primary(token_views(tokens@), pos as int)) {
            (Ok((e, p)), Ok((se, sp))) => e@ == se && p == sp,
            (Err(m), Err(sm)) => m@ == sm,
            _ => false,
        },
{
    let pos = skip_whitespace(tokens, pos);
    if pos >= tokens.len() {
        return Err(parse_error("expected value, got end of input", pos));
    }
    let ghost ts = token_views(tokens@);
    assert(ts[pos as int] == tokens@[pos as int]@);
    match tokens[pos].token_type {
        TokenType::Number => Ok((Expression::Literal(tokens[pos].value.clone()), pos + 1)),
        TokenType::Identifier => Ok((Expression::ColumnRef(tokens[pos].value.clone()), pos + 1)),
        TokenType::Unknown => {
            let v = tokens[pos].value.clone();
            Ok((Expression::Literal(v), pos + 1))
        },
        TokenType::Keyword => Ok((Expression::Literal(tokens[pos].value.clone()), pos + 1)),
        TokenType::Symbol => {
            let msg = concat3("unexpected symbol '", tokens[pos].value.as_str(), "'");
            Err(parse_error(msg.as_str(), pos))
        },
    }
}

fn collect_operator(tokens: &[Token], pos: usize) -> (r: (String, usize))
    requires
        pos < tokens@.len(),
    ensures
        r.0@ == spec_collect_operator(token_views(tokens@), pos as int).0,
        r.1 == spec_collect_operator(token_views(tokens@), pos as int).1,
{
    let ghost ts = token_views(tokens@);
    let first = &tokens[pos].value;
    assert(ts[pos as int] == tokens@[pos as int]@);
    if pos + 1 < tokens.len() {
        assert(ts[pos + 1] == tokens@[pos + 1]@);
        if tokens[pos + 1].token_type == TokenType::Symbol {
            let mut combined = to_owned_string(first.as_str());
            push_str(&mut combined, tokens[pos + 1].value.as_str());
            if str_eq(combined.as_str(), "!=") || str_eq(combined.as_str(), "<=") || str_eq(
                combined.as_str(),
                ">=",
            ) {
                return (combined, pos + 2);
            }
        }
    }
    (first.clone(), pos + 1)
}

fn parse_comparison(tokens: &[Token], pos: usize) -> (r: Result<(Expression, usize), String>)
    ensures
        match (r, spec_parse_comparison(token_views(tokens@), pos as int)) {
            (Ok((e, p)), Ok((se, sp))) => e@ == se && p == sp,
            (Err(m), Err(sm)) => m@ == sm,
            _ => false,
        },
{
    let ghost ts = token_views(tokens@);
    let pos = skip_whitespace(tokens, pos);
    if pos >= tokens.len() {
        return Err(parse_error("expected expression", pos));
    }
    let (left, pos2) = match parse_primary(tokens, pos) {
        Ok(v) => v,
        Err(e) => {
            return Err(e);
        },
    };
    proof {
        lemma_skip_bounds(ts, pos as int);
    }
    let pos = skip_whitespace(tokens, pos2);
    if pos >= tokens.len() {
        return Ok((left, pos));
    }
    assert(ts[pos as int] == tokens@[pos as int]@);
    let op_val = tokens[pos].value.as_str();
    let is_op = str_eq(op_val, "=") || str_eq(op_val, "!") || str_eq(op_val, "<") || str_eq(
        op_val,
        ">",
    );
    if !is_op {
        return Ok((left, pos));
    }
    let (op, pos) = collect_operator(tokens, pos);
    let pos = skip_whitespace(tokens, pos);
    let (right, pos) = match parse_primary(tokens, pos) {
        Ok(v) => v,
        Err(e) => {
            return Err(e);
        },
    };
    Ok((Expression::BinaryOp { op, left: Box::new(left), right: Box::new(right) }, pos))
}

fn parse_expr(tokens: &[Token], pos: usize) -> (r: Result<(Expression, usize), String>)
    ensures
        match (r, spec_parse_expr(token_views(tokens@), pos as int)) {
            (Ok((e, p)), Ok((se, sp))) => e@ == se && p == sp,
            (Err(m), Err(sm)) => m@ == sm,
            _ => false,
        },
{
    let ghost ts = token_views(tokens@);
    let p0 = skip_whitespace(tokens, pos);
    proof {
        lemma_comparison_advances(ts, p0 as int);
    }
    let (mut left, mut cur) = match parse_comparison(tokens, p0) {
        Ok(v) => v,
        Err(e) => {
            return Err(e);
        },
    };
    loop
        invariant_except_break
            ts == token_views(tokens@),
            cur <= tokens@.len(),
            spec_expr_rest(ts, left@, cur as int) == spec_parse_expr(ts, pos as int),
        ensures
            spec_parse_expr(ts, pos as int) == Ok::<(ExprV, int), Seq<char>>((left@, cur as int)),
        decreases tokens@.len() - cur,
    {
        let p = skip_whitespace(tokens, cur);
        if p >= tokens.len() {
            break;
        }
        assert(ts[p as int] == tokens@[p as int]@);
        let u = to_upper(tokens[p].value.as_str());
        let is_and = str_eq(u.as_str(), "AND");
        let is_or = str_eq(u.as_str(), "OR");
        if !is_and && !is_or {
            break;
        }
        let q = skip_whitespace(tokens, p + 1);
        proof {
            lemma_comparison_advances(ts, q as int);
        }
        assert(u@ == upper(ts[p as int].1));
        assert(is_and ==> upper(ts[p as int].1) == "AND"@);
        assert(is_or ==> upper(ts[p as int].1) == "OR"@);
        let (right, next) = match parse_comparison(tokens, q) {
            Ok(v) => v,
            Err(e) => {
                assert(spec_expr_rest(ts, left@, cur as int) == Err::<(ExprV, int), Seq<char>>(e@));
                return Err(e);
            },
        };
        left = if is_and {
            Expression::And(Box::new(left), Box::new(right))
        } else {
            Expression::Or(Box::new(left), Box::new(right))
        };
        cur = next;
    }
    Ok((left, cur))
}


/// The values of a list of column definitions.
pub open spec fn column_views(cols: Seq<ColumnDef>) -> Seq<ColumnDefV> {
    cols.map_values(|c: ColumnDef| c@)
}

/// The values of a list of expressions.
pub open spec fn expr_views(es: Seq<Expression>) -> Seq<ExprV> {
    es.map_values(|e: Expression| e@)
}

/// The values of a list of strings.
pub open spec fn string_views(ss: Seq<String>) -> Seq<Seq<char>> {
    ss.map_values(|c: String| c@)
}

fn parse_create_table(tokens: &[Token], pos: usize) -> (r: Result<Statement, String>)
    ensures
        match (r, spec_parse_create_table(token_views(tokens@), pos as int)) {
            (Ok(st), Ok(sst)) => st@ == sst,
            (Err(m), Err(sm)) => m@ == sm,
            _ => false,
        },
{
    let ghost ts = token_views(tokens@);
    let p1 = match expect_keyword(tokens, pos, "TABLE") {
        Ok(p) => p,
        Err(e) => {
            return Err(e);
        },
    };
    let (table, p2) = match expect_identifier(tokens, p1) {
        Ok(v) => v,
        Err(e) => {
            return Err(e);
        },
    };
    let p3 = match expect_symbol(tokens, p2, "(") {
        Ok(p) => p,
        Err(e) => {
            return Err(e);
        },
    };
    let mut columns: Vec<ColumnDef> = Vec::new();
    let mut cur = p3;
    assert(column_views(columns@) =~= Seq::<ColumnDefV>::empty());
    loop
        invariant_except_break
            ts == token_views(tokens@),
            cur <= tokens@.len(),
            spec_parse_create_table(ts, pos as int) == match spec_column_list(
                ts,
                Seq::empty(),
                p3 as int,
            ) {
                Err(e) => Err(e),
                Ok(cols) => Ok(StatementV::CreateTable(table@, cols)),
            },
            spec_column_list(ts, column_views(columns@), cur as int) == spec_column_list(
                ts,
                Seq::empty(),
                p3 as int,
            ),
        ensures
            spec_column_list(ts, Seq::empty(), p3 as int) == Ok::<Seq<ColumnDefV>, Seq<char>>(
                column_views(columns@),
            ),
        decreases tokens@.len() - cur,
    {
        let p = skip_whitespace(tokens, cur);
        proof {
            lemma_skip_idempotent(ts, cur as int);
        }
        if p >= tokens.len() {
            return Err(parse_error("unexpected end inside CREATE TABLE column list", p));
        }
        assert(ts[p as int] == tokens@[p as int]@);
        if tokens[p].token_type == TokenType::Symbol {
            if str_eq(tokens[p].value.as_str(), ")") {
                break;
            }
            if str_eq(tokens[p].value.as_str(), ",") {
                cur = p + 1;
                continue;
            }
        }
        let (col_name, next) = match expect_identifier(tokens, p) {
            Ok(v) => v,
            Err(e) => {
                return Err(e);
            },
        };
        let q = skip_whitespace(tokens, next);
        if q >= tokens.len() {
            return Err(parse_error("expected column type", q));
        }
        assert(ts[q as int] == tokens@[q as int]@);
        let col_type = to_upper(tokens[q].value.as_str());
        let ghost before = column_views(columns@);
        columns.push(ColumnDef { name: col_name, col_type });
        assert(column_views(columns@) =~= before.push(columns@.last()@));
        cur = q + 1;
    }
    Ok(Statement::CreateTable { table, columns })
}

fn parse_insert(tokens: &[Token], pos: usize) -> (r: Result<Statement, String>)
    ensures
        match (r, spec_parse_insert(token_views(tokens@), pos as int)) {
            (Ok(st), Ok(sst)) => st@ == sst,
            (Err(m), Err(sm)) => m@ == sm,
            _ => false,
        },
{
    let ghost ts = token_views(tokens@);
    let p1 = match expect_keyword(tokens, pos, "INTO") {
        Ok(p) => p,
        Err(e) => {
            return Err(e);
        },
    };
    let (table, p2) = match expect_identifier(tokens, p1) {
        Ok(v) => v,
        Err(e) => {
            return Err(e);
        },
    };
    let p3 = match expect_keyword(tokens, p2, "VALUES") {
        Ok(p) => p,
        Err(e) => {
            return Err(e);
        },
    };
    let p4 = match expect_symbol(tokens, p3, "(") {
        Ok(p) => p,
        Err(e) => {
            return Err(e);
        },
    };
    let mut values: Vec<Expression> = Vec::new();
    let mut cur = p4;
    assert(expr_views(values@) =~= Seq::<ExprV>::empty());
    loop
        invariant_except_break
            ts == token_views(tokens@),
            cur <= tokens@.len(),
            spec_parse_insert(ts, pos as int) == match spec_value_list(
                ts,
                Seq::empty(),
                p4 as int,
            ) {
                Err(e) => Err(e),
                Ok(vals) => Ok(StatementV::Insert(table@, vals)),
            },
            spec_value_list(ts, expr_views(values@), cur as int) == spec_value_list(
                ts,
                Seq::empty(),
                p4 as int,
            ),
        ensures
            spec_value_list(ts, Seq::empty(), p4 as int) == Ok::<Seq<ExprV>, Seq<char>>(
                expr_views(values@),
            ),
        decreases tokens@.len() - cur,
    {
        let p = skip_whitespace(tokens, cur);
        proof {
            lemma_skip_idempotent(ts, cur as int);
        }
        if p >= tokens.len() {
            return Err(parse_error("unexpected end inside VALUES list", p));
        }
        assert(ts[p as int] == tokens@[p as int]@);
        if tokens[p].token_type == TokenType::Symbol {
            if str_eq(tokens[p].value.as_str(), ")") {
                break;
            }
            if str_eq(tokens[p].value.as_str(), ",") {
                cur = p + 1;
                continue;
            }
        }
        let (expr, next) = match parse_primary(tokens, p) {
            Ok(v) => v,
            Err(e) => {
                return Err(e);
            },
        };
        let ghost before = expr_views(values@);
        values.push(expr);
        assert(expr_views(values@) =~= before.push(values@.last()@));
        cur = next;
    }
    Ok(Statement::Insert { table, values })
}

fn parse_select(tokens: &[Token], pos: usize) -> (r: Result<Statement, String>)
    requires
        pos <= tokens@.len(),
    ensures
        match (r, spec_parse_select(token_views(tokens@), pos as int)) {
            (Ok(st), Ok(sst)) => st@ == sst,
            (Err(m), Err(sm)) => m@ == sm,
            _ => false,
        },
{
    let ghost ts = token_views(tokens@);
    let mut columns: Vec<String> = Vec::new();
    let p0 = skip_whitespace(tokens, pos);
    let mut cur = p0;
    if p0 < tokens.len() {
        assert(ts[p0 as int] == tokens@[p0 as int]@);
        if tokens[p0].token_type == TokenType::Symbol && str_eq(tokens[p0].value.as_str(), "*") {
            columns.push(to_owned_string("*"));
            cur = p0 + 1;
            assert(string_views(columns@) =~= seq!["*"@]);
        }
    }
    if columns.len() == 0 {
        assert(string_views(columns@) =~= Seq::<Seq<char>>::empty());
        loop
            invariant_except_break
                ts == token_views(tokens@),
                cur <= tokens@.len(),
                spec_select_head(ts, pos as int) == spec_select_columns(ts, Seq::empty(), p0 as int),
                spec_select_columns(ts, string_views(columns@), cur as int) == spec_select_columns(
                    ts,
                    Seq::empty(),
                    p0 as int,
                ),
            ensures
                spec_select_head(ts, pos as int) == Ok::<(Seq<Seq<char>>, int), Seq<char>>(
                    (string_views(columns@), cur as int),
                ),
            decreases tokens@.len() - cur,
        {
            let p = skip_whitespace(tokens, cur);
            proof {
                lemma_skip_idempotent(ts, cur as int);
            }
            if p >= tokens.len() {
                cur = p;
                break;
            }
            assert(ts[p as int] == tokens@[p as int]@);
            if tokens[p].token_type == TokenType::Symbol && str_eq(tokens[p].value.as_str(), ",") {
                cur = p + 1;
                continue;
            }
            if tokens[p].token_type == TokenType::Keyword {
                cur = p;
                break;
            }
            let (col, next) = match expect_identifier(tokens, p) {
                Ok(v) => v,
                Err(e) => {
                    return Err(e);
                },
            };
            let ghost before = string_views(columns@);
            columns.push(col);
            assert(string_views(columns@) =~= before.push(columns@.last()@));
            cur = next;
        }
    }
    let p2 = match expect_keyword(tokens, cur, "FROM") {
        Ok(p) => p,
        Err(e) => {
            return Err(e);
        },
    };
    let (table, p3) = match expect_identifier(tokens, p2) {
        Ok(v) => v,
        Err(e) => {
            return Err(e);
        },
    };
    let p4 = skip_whitespace(tokens, p3);
    let mut where_clause: Option<Expression> = None;
    if p4 < tokens.len() {
        assert(ts[p4 as int] == tokens@[p4 as int]@);
        if tokens[p4].token_type == TokenType::Keyword {
            let u = to_upper(tokens[p4].value.as_str());
            if str_eq(u.as_str(), "WHERE") {
                let (expr, _next) = match parse_expr(tokens, p4 + 1) {
                    Ok(v) => v,
                    Err(e) => {
                        return Err(e);
                    },
                };
                where_clause = Some(expr);
            }
        }
    }
    Ok(Statement::Select { columns, table, where_clause })
}

/// Parses one line of input into a statement.
///
/// The words `exit`, `.exit`, `help` and `.help` (in any case, alone on the
/// line) give `Exit` and `Help`. Otherwise the line is tokenized and its first
/// keyword chooses the statement. The line, once trimmed, must be ASCII, which
/// is what the tokenizer handles.
pub fn parse(input: &str) -> (r: Result<Statement, String>)
    requires
        all_ascii(trimmed(input@)),
    ensures
        match (r, spec_parse(input@)) {
            (Ok(st), Ok(sst)) => st@ == sst,
            (Err(m), Err(sm)) => m@ == sm,
            _ => false,
        },
{
    let trimmed = trim_white_space(input);
    let low = to_lower(trimmed);
    if str_eq(low.as_str(), ".exit") || str_eq(low.as_str(), "exit") {
        return Ok(Statement::Exit);
    }
    if str_eq(low.as_str(), ".help") || str_eq(low.as_str(), "help") {
        return Ok(Statement::Help);
    }
    let mut tokenizer = Tokenizer::new(to_owned_string(trimmed));
    let tokens = tokenizer.tokenize();
    let ghost ts = token_views(tokens@);
    assert(ts == tokens_of(trimmed@));
    let pos = skip_whitespace(tokens.as_slice(), 0);
    if pos >= tokens.len() {
        return Err(parse_error("empty input", 0));
    }
    assert(ts[pos as int] == tokens@[pos as int]@);
    let first = &tokens[pos];
    if first.token_type == TokenType::Keyword {
        let kw = to_upper(first.value.as_str());
        let next_pos = pos + 1;
        if str_eq(kw.as_str(), "SELECT") {
            parse_select(tokens.as_slice(), next_pos)
        } else if str_eq(kw.as_str(), "INSERT") {
            parse_insert(tokens.as_slice(), next_pos)
        } else if str_eq(kw.as_str(), "CREATE") {
            parse_create_table(tokens.as_slice(), next_pos)
        } else if str_eq(kw.as_str(), "EXIT") {
            Ok(Statement::Exit)
        } else if str_eq(kw.as_str(), "HELP") {
            Ok(Statement::Help)
        } else {
            let msg = concat3("unknown keyword '", first.value.as_str(), "'");
            Err(parse_error(msg.as_str(), pos))
        }
    } else {
        let msg = concat3("expected SQL statement, got '", first.value.as_str(), "'");
        Err(parse_error(msg.as_str(), pos))
    }
}


/// `<`, `>` or `!` directly followed by `=` is one two-character operator
/// (`<=`, `>=`, `!=`) that takes both symbol tokens.
pub proof fn lemma_two_symbol_operator(ts: Seq<TokenView>, p: int, a: char)
    requires
        0 <= p,
        p + 1 < ts.len(),
        a == '<' || a == '>' || a == '!',
        ts[p] == (TokenType::Symbol, seq![a]),
        ts[p + 1] == (TokenType::Symbol, seq!['=']),
    ensures
        spec_collect_operator(ts, p) == (seq![a, '='], p + 2),
{
    reveal_strlit("!=");
    reveal_strlit("<=");
    reveal_strlit(">=");
    assert(seq![a] + seq!['='] =~= seq![a, '=']);
    if a == '<' {
        assert(seq![a, '='] =~= "<="@);
    } else if a == '>' {
        assert(seq![a, '='] =~= ">="@);
    } else {
        assert(seq![a, '='] =~= "!="@);
    }
}

/// An operator symbol not followed by a `=` symbol, and `=` in any case, is
/// an operator of one character that takes its token alone.
pub proof fn lemma_one_symbol_operator(ts: Seq<TokenView>, p: int, a: char)
    requires
        0 <= p < ts.len(),
        a == '<' || a == '>' || a == '!' || a == '=',
        ts[p] == (TokenType::Symbol, seq![a]),
        a == '=' || p + 1 >= ts.len() || ts[p + 1] != (TokenType::Symbol, seq!['=']),
    ensures
        spec_collect_operator(ts, p) == (seq![a], p + 1),
{
    reveal_strlit("!=");
    reveal_strlit("<=");
    reveal_strlit(">=");
    if p + 1 < ts.len() && ts[p + 1].0 == TokenType::Symbol {
        let combined = seq![a] + ts[p + 1].1;
        if combined == "!="@ || combined == "<="@ || combined == ">="@ {
            assert(combined.len() == 2);
            assert(ts[p + 1].1.len() == 1);
            assert(combined[1] == '=');
            assert(ts[p + 1].1 =~= seq!['=']);
            assert(combined[0] == a);
            assert(a != '=');
        }
    }
}

/// A column compared with a number by `<=`, `>=` or `!=` (written as two
/// symbols) is that comparison.
pub proof fn lemma_two_symbol_comparison(ts: Seq<TokenView>, p: int, x: Seq<char>, y: Seq<char>, a: char)
    requires
        0 <= p,
        p + 3 < ts.len(),
        a == '<' || a == '>' || a == '!',
        ts[p] == (TokenType::Identifier, x),
        ts[p + 1] == (TokenType::Symbol, seq![a]),
        ts[p + 2] == (TokenType::Symbol, seq!['=']),
        ts[p + 3] == (TokenType::Number, y),
    ensures
        spec_parse_comparison(ts, p) == Ok::<(ExprV, int), Seq<char>>(
            (ExprV::BinaryOp(seq![a, '='], Box::new(ExprV::ColumnRef(x)), Box::new(ExprV::Literal(y))), p + 4),
        ),
{
    reveal_strlit("=");
    reveal_strlit("!");
    reveal_strlit("<");
    reveal_strlit(">");
    lemma_two_symbol_operator(ts, p + 1, a);
    if a == '<' {
        assert(seq![a] =~= "<"@);
    } else if a == '>' {
        assert(seq![a] =~= ">"@);
    } else if a == '!' {
        assert(seq![a] =~= "!"@);
    } else {
        assert(seq![a] =~= "="@);
    }
    assert(starts_operator(seq![a]));
}

/// A column compared with a number by a one-symbol operator (`=`, `<`,
/// `>`) followed by no `=` is that comparison.
pub proof fn lemma_one_symbol_comparison(ts: Seq<TokenView>, p: int, x: Seq<char>, y: Seq<char>, a: char)
    requires
        0 <= p,
        p + 2 < ts.len(),
        a == '<' || a == '>' || a == '=',
        ts[p] == (TokenType::Identifier, x),
        ts[p + 1] == (TokenType::Symbol, seq![a]),
        ts[p + 2] == (TokenType::Number, y),
    ensures
        spec_parse_comparison(ts, p) == Ok::<(ExprV, int), Seq<char>>(
            (ExprV::BinaryOp(seq![a], Box::new(ExprV::ColumnRef(x)), Box::new(ExprV::Literal(y))), p + 3),
        ),
{
    reveal_strlit("=");
    reveal_strlit("!");
    reveal_strlit("<");
    reveal_strlit(">");
    lemma_one_symbol_operator(ts, p + 1, a);
    if a == '<' {
        assert(seq![a] =~= "<"@);
    } else if a == '>' {
        assert(seq![a] =~= ">"@);
    } else if a == '!' {
        assert(seq![a] =~= "!"@);
    } else {
        assert(seq![a] =~= "="@);
    }
    assert(starts_operator(seq![a]));
}


/// Skipping passes exactly the unknown tokens (white space and other
/// characters) from `pos` on, and stops at the first other token or at the
/// end.
pub proof fn lemma_skip_passes_unknown(ts: Seq<TokenView>, pos: int)
    requires
        0 <= pos <= ts.len(),
    ensures
        pos <= spec_skip(ts, pos) <= ts.len(),
        forall|j: int| pos <= j < spec_skip(ts, pos) ==> (#[trigger] ts[j]).0 == TokenType::Unknown,
        spec_skip(ts, pos) < ts.len() ==> ts[spec_skip(ts, pos)].0 != TokenType::Unknown,
    decreases ts.len() - pos,
{
    if pos < ts.len() && ts[pos].0 == TokenType::Unknown {
        lemma_skip_passes_unknown(ts, pos + 1);
    }
}

} // verus!
