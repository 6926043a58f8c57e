//! Executing statements: the checks and computations behind `CREATE TABLE`,
//! `INSERT` and `SELECT`, and the evaluation of `WHERE` clauses.
//!
//! Opening table files, appending rows and reading them back are done by the
//! caller; the functions here decide what to create or insert and compute
//! the answer to a query from the rows read.

use std::cmp::Ordering;
use vstd::prelude::*;

use crate::parser::{expr_view, ColumnDef, ColumnDefV, ExprV, Expression, Statement, StatementV};
use crate::row::Row;
use crate::schema::{name_bytes, name_text, Schema, MAX_COL};
use crate::text::{decimal, i64_to_string, parse_i64, parsed_i64, push_str, signed_decimal, str_eq, to_owned_string};

verus! {

/// What a statement produced.
pub enum ExecuteResult {
    Created(String),
    Inserted,
    Rows { headers: Vec<String>, rows: Vec<Vec<String>> },
    Message(String),
}

/// A result as a value.
pub enum ResultV {
    Created(Seq<char>),
    Inserted,
    Rows(Seq<Seq<char>>, Seq<Seq<Seq<char>>>),
    Message(Seq<char>),
}

/// The values of a list of strings.
pub open spec fn texts(v: Seq<String>) -> Seq<Seq<char>> {
    v.map_values(|s: String| s@)
}

impl View for ExecuteResult {
    type V = ResultV;

    open spec fn view(&self) -> ResultV {
        match self {
            ExecuteResult::Created(s) => ResultV::Created(s@),
            ExecuteResult::Inserted => ResultV::Inserted,
            ExecuteResult::Rows { headers, rows } => ResultV::Rows(
                texts(headers@),
                rows@.map_values(|r: Vec<String>| texts(r@)),
            ),
            ExecuteResult::Message(s) => ResultV::Message(s@),
        }
    }
}

// ---------------------------------------------------------------------------
// Values in WHERE clauses.
// ---------------------------------------------------------------------------

/// The text of a literal or a column reference; empty for other expressions.
pub open spec fn spec_literal(e: ExprV) -> Seq<char> {
    match e {
        ExprV::Literal(s) => s,
        ExprV::ColumnRef(s) => s,
        _ => Seq::empty(),
    }
}

/// The text of a literal or a column reference; empty for other expressions.
pub fn literal_str(expr: &Expression) -> (s: &str)
    ensures
        s@ == spec_literal(expr@),
{
    match expr {
        Expression::Literal(s) => s.as_str(),
        Expression::ColumnRef(s) => s.as_str(),
        _ => {
            proof {
                reveal_strlit("");
            }
            ""
        },
    }
}

/// Whether `a` comes before `b` in text order: at the first differing
/// character the smaller one wins, and a proper prefix comes first.
pub open spec fn lex_less(a: Seq<char>, b: Seq<char>) -> bool
    decreases a.len(),
{
    if a.len() == 0 {
        b.len() > 0
    } else if b.len() == 0 {
        false
    } else if a[0] != b[0] {
        a[0] < b[0]
    } else {
        lex_less(a.drop_first(), b.drop_first())
    }
}

/// Text order of character sequences.
pub open spec fn lex_order(a: Seq<char>, b: Seq<char>) -> Ordering {
    if a == b {
        Ordering::Equal
    } else if lex_less(a, b) {
        Ordering::Less
    } else {
        Ordering::Greater
    }
}

/// How two values compare: as integers when both read as `i64`, else as
/// text.
pub open spec fn value_order(a: Seq<char>, b: Seq<char>) -> Ordering {
    match (parsed_i64(a), parsed_i64(b)) {
        (Some(x), Some(y)) => if x < y {
            Ordering::Less
        } else if y < x {
            Ordering::Greater
        } else {
            Ordering::Equal
        },
        _ => lex_order(a, b),
    }
}

/// Whether two strings are equal, and whether the first comes before the
/// second in text order.
fn text_equal_and_less(a: &str, b: &str) -> (r: (bool, bool))
    ensures
        r.0 == (a@ == b@),
        r.1 == lex_less(a@, b@),
{
    let n = a.unicode_len();
    let m = b.unicode_len();
    let mut i: usize = 0;
    assert(a@.subrange(0, n as int) =~= a@);
    assert(b@.subrange(0, m as int) =~= b@);
    while i < n && i < m
        invariant
            n == a@.len(),
            m == b@.len(),
            0 <= i <= n,
            i <= m,
            forall|j: int| 0 <= j < i ==> a@[j] == b@[j],
            lex_less(a@, b@) == lex_less(a@.subrange(i as int, n as int), b@.subrange(i as int, m as int)),
        decreases n - i,
    {
        let x = a.get_char(i);
        let y = b.get_char(i);
        proof {
            let sa = a@.subrange(i as int, n as int);
            let sb = b@.subrange(i as int, m as int);
            assert(sa.drop_first() =~= a@.subrange(i + 1, n as int));
            assert(sb.drop_first() =~= b@.subrange(i + 1, m as int));
            assert(sa[0] == x && sb[0] == y);
        }
        if x != y {
            return (false, x < y);
        }
        i += 1;
    }
    if i == n && i == m {
        assert(a@ =~= b@);
        (true, false)
    } else {
        proof {
            if i == n {
                assert(a@.subrange(i as int, n as int).len() == 0);
                assert(b@.subrange(i as int, m as int).len() > 0);
                assert(a@ != b@) by {
                    assert(a@.len() != b@.len());
                }
            } else {
                assert(b@.subrange(i as int, m as int).len() == 0);
                assert(a@.subrange(i as int, n as int).len() > 0);
                assert(a@.len() != b@.len());
            }
        }
        (false, i == n)
    }
}

/// Text order of two strings, character by character.
pub fn compare_text(a: &str, b: &str) -> (r: Ordering)
    ensures
        r == lex_order(a@, b@),
{
    let (eq, less) = text_equal_and_less(a, b);
    if eq {
        Ordering::Equal
    } else if less {
        Ordering::Less
    } else {
        Ordering::Greater
    }
}

/// Numeric-aware comparison: as `i64` when both values read as one, else
/// as text.
pub fn cmp_vals(a: &str, b: &str) -> (r: Ordering)
    ensures
        r == value_order(a@, b@),
{
    match (parse_i64(a), parse_i64(b)) {
        (Some(x), Some(y)) => if x < y {
            Ordering::Less
        } else if y < x {
            Ordering::Greater
        } else {
            Ordering::Equal
        },
        _ => compare_text(a, b),
    }
}

/// The first of the first `n` slots, from `i` on, whose column is named
/// `name`.
pub open spec fn find_col_from(cols: Seq<(Seq<u8>, bool)>, n: nat, name: Seq<char>, i: nat) -> Option<nat>
    decreases n - i,
{
    if i >= n {
        None
    } else if name_text(cols[i as int].0) == name {
        Some(i)
    } else {
        find_col_from(cols, n, name, i + 1)
    }
}

/// The first column of `schema` named `name`.
pub open spec fn find_col(schema: (nat, Seq<(Seq<u8>, bool)>), name: Seq<char>) -> Option<nat> {
    find_col_from(schema.1, schema.0, name, 0)
}

/// A column named `name` is found among the slots: some slot holds that
/// name.
pub open spec fn col_in_slots(schema: (nat, Seq<(Seq<u8>, bool)>), name: Seq<char>) -> bool {
    find_col_from(schema.1, MAX_COL as nat, name, 0) is Some
}

/// Looking up `name` stays within the slots: the schema has no more
/// columns than slots, or `name` is found among them.
pub open spec fn lookup_in_slots(schema: (nat, Seq<(Seq<u8>, bool)>), name: Seq<char>) -> bool {
    schema.1.len() == MAX_COL && (schema.0 <= MAX_COL || col_in_slots(schema, name))
}

/// Every column that resolving the operand `e` looks up stays within the
/// slots.
pub open spec fn operand_in_slots(e: ExprV, schema: (nat, Seq<(Seq<u8>, bool)>)) -> bool {
    schema.1.len() == MAX_COL && match e {
        ExprV::ColumnRef(name) => name == "id"@ || lookup_in_slots(schema, name),
        _ => true,
    }
}

/// Every column that evaluating the WHERE clause `e` may look up stays
/// within the slots.
pub open spec fn where_in_slots(e: ExprV, schema: (nat, Seq<(Seq<u8>, bool)>)) -> bool
    decreases e,
{
    schema.1.len() == MAX_COL && match e {
        ExprV::BinaryOp(_, l, r) => operand_in_slots(*l, schema) && operand_in_slots(*r, schema),
        ExprV::And(l, r) => where_in_slots(*l, schema) && where_in_slots(*r, schema),
        ExprV::Or(l, r) => where_in_slots(*l, schema) && where_in_slots(*r, schema),
        _ => true,
    }
}

/// A `SELECT` of `names` with `where_clause` stays within the slots: the
/// schema has no more columns than slots, or the columns are named (not
/// `*`) and every name it shows or compares is found among the slots.
pub open spec fn select_in_slots(
    schema: (nat, Seq<(Seq<u8>, bool)>),
    names: Seq<Seq<char>>,
    where_clause: Option<ExprV>,
) -> bool {
    &&& schema.1.len() == MAX_COL
    &&& schema.0 > MAX_COL ==> {
        &&& names != seq!["*"@]
        &&& forall|i: int| 0 <= i < names.len() ==> col_in_slots(schema, #[trigger] names[i])
        &&& where_clause matches Some(e) ==> where_in_slots(e, schema)
    }
}

/// Whether some slot of `schema` holds a column named `name`.
fn name_in_slots(schema: &Schema, name: &str) -> (r: bool)
    requires
        schema@.1.len() == MAX_COL,
    ensures
        r == col_in_slots(schema@, name@),
{
    let mut i: usize = 0;
    while i < MAX_COL
        invariant
            schema@.1.len() == MAX_COL,
            0 <= i <= MAX_COL,
            find_col_from(schema@.1, MAX_COL as nat, name@, 0) == find_col_from(
                schema@.1,
                MAX_COL as nat,
                name@,
                i as nat,
            ),
        decreases MAX_COL - i,
    {
        if str_eq(schema.col(i).name_str(), name) {
            return true;
        }
        i += 1;
    }
    false
}

/// Whether every column that resolving `e` looks up stays within the slots.
fn operand_within_slots(e: &Expression, schema: &Schema) -> (r: bool)
    requires
        schema@.1.len() == MAX_COL,
    ensures
        r == operand_in_slots(e@, schema@),
{
    proof {
        reveal_strlit("id");
    }
    match e {
        Expression::ColumnRef(name) => str_eq(name.as_str(), "id") || schema.num_cols() <= MAX_COL || name_in_slots(
            schema,
            name.as_str(),
        ),
        _ => true,
    }
}

/// Whether every column that evaluating `e` may look up stays within the
/// slots.
fn where_within_slots(e: &Expression, schema: &Schema) -> (r: bool)
    requires
        schema@.1.len() == MAX_COL,
    ensures
        r == where_in_slots(e@, schema@),
    decreases e,
{
    match e {
        Expression::BinaryOp { op, left, right } => operand_within_slots(left, schema) && operand_within_slots(
            right,
            schema,
        ),
        Expression::And(l, r) => where_within_slots(l, schema) && where_within_slots(r, schema),
        Expression::Or(l, r) => where_within_slots(l, schema) && where_within_slots(r, schema),
        _ => true,
    }
}

/// Whether a `SELECT` of `col_names` with `where_clause` over a table with
/// `schema` stays within the schema's slots (see `select_in_slots`); where
/// it does not, the lookup runs past the slots.
pub fn select_within_slots(schema: &Schema, col_names: &[String], where_clause: &Option<Expression>) -> (r: bool)
    ensures
        r == select_in_slots(schema@, texts(col_names@), option_expr_view(*where_clause)),
{
    proof {
        crate::schema::lemma_slot_count(*schema);
        reveal_strlit("*");
    }
    if schema.num_cols() <= MAX_COL {
        return true;
    }
    let ghost names = texts(col_names@);
    if col_names.len() == 1 && str_eq(col_names[0].as_str(), "*") {
        proof {
            assert(names =~= seq!["*"@]);
        }
        return false;
    }
    proof {
        if names =~= seq!["*"@] {
            assert(col_names@.len() == 1);
            assert(names[0] == col_names@[0]@);
            assert(col_names@[0]@ == "*"@);
        }
    }
    let mut i: usize = 0;
    while i < col_names.len()
        invariant
            schema@.0 > MAX_COL,
            schema@.1.len() == MAX_COL,
            names == texts(col_names@),
            0 <= i <= col_names@.len(),
            forall|j: int| 0 <= j < i ==> col_in_slots(schema@, #[trigger] names[j]),
        decreases col_names@.len() - i,
    {
        if !name_in_slots(schema, col_names[i].as_str()) {
            proof {
                assert(names[i as int] == col_names@[i as int]@);
                assert(!col_in_slots(schema@, names[i as int]));
            }
            return false;
        }
        proof {
            assert(names[i as int] == col_names@[i as int]@);
        }
        i += 1;
    }
    match where_clause {
        Some(e) => where_within_slots(e, schema),
        None => true,
    }
}

/// The error for a column that the schema lacks.
pub open spec fn unknown_column(name: Seq<char>) -> Seq<char> {
    "unknown column \""@ + name + "\""@
}

/// The value of an operand of a comparison in `row`.
pub open spec fn spec_resolve(e: ExprV, row: (i64, Seq<Seq<char>>), schema: (nat, Seq<(Seq<u8>, bool)>)) -> Result<Seq<char>, Seq<char>> {
    match e {
        ExprV::Literal(s) => Ok(s),
        ExprV::ColumnRef(name) => if name == "id"@ {
            Ok(signed_decimal(row.0 as int))
        } else {
            match find_col(schema, name) {
                Some(i) => Ok(row.1[i as int]),
                None => Err(unknown_column(name)),
            }
        },
        _ => Err("unsupported expression in WHERE"@),
    }
}

/// Finds the first column of `schema` named `name`.
pub fn find_column(schema: &Schema, name: &str) -> (r: Option<usize>)
    requires
        lookup_in_slots(schema@, name@),
    ensures
        match r {
            Some(i) => find_col(schema@, name@) == Some(i as nat) && i < schema@.0 && i < MAX_COL,
            None => find_col(schema@, name@) is None,
        },
{
    let n = schema.num_cols();
    let mut i: usize = 0;
    proof {
        lemma_find_col_bound(schema@.1, schema@.0, name@, 0);
        lemma_find_col_bound(schema@.1, MAX_COL as nat, name@, 0);
    }
    while i < n
        invariant
            n == schema@.0,
            lookup_in_slots(schema@, name@),
            0 <= i <= n,
            find_col(schema@, name@) == find_col_from(schema@.1, schema@.0, name@, i as nat),
            schema@.0 > MAX_COL ==> find_col_from(schema@.1, MAX_COL as nat, name@, i as nat) is Some,
            i <= MAX_COL || schema@.0 <= MAX_COL,
        decreases n - i,
    {
        proof {
            if schema@.0 > MAX_COL {
                lemma_find_col_bound(schema@.1, MAX_COL as nat, name@, i as nat);
            }
        }
        if str_eq(schema.col(i).name_str(), name) {
            return Some(i);
        }
        i += 1;
    }
    None
}

/// The value of an operand of a comparison in `row`: a literal as written,
/// `id` as the row's id, another name as the row's value in that column.
pub fn resolve_val(expr: &Expression, row: &Row, schema: &Schema) -> (r: Result<String, String>)
    requires
        operand_in_slots(expr@, schema@),
        row@.1.len() == MAX_COL,
    ensures
        match (r, spec_resolve(expr@, row@, schema@)) {
            (Ok(v), Ok(sv)) => v@ == sv,
            (Err(m), Err(sm)) => m@ == sm,
            _ => false,
        },
{
    proof {
        reveal_strlit("id");
        reveal_strlit("unsupported expression in WHERE");
    }
    match expr {
        Expression::Literal(s) => Ok(s.clone()),
        Expression::ColumnRef(name) => {
            if str_eq(name.as_str(), "id") {
                return Ok(i64_to_string(row.id()));
            }
            match find_column(schema, name.as_str()) {
                Some(idx) => Ok(to_owned_string(row.value(idx))),
                None => {
                    let mut m = to_owned_string("unknown column \"");
                    push_str(&mut m, name.as_str());
                    push_str(&mut m, "\"");
                    Err(m)
                },
            }
        },
        _ => Err(to_owned_string("unsupported expression in WHERE")),
    }
}

/// The outcome of comparing `lv` with `rv` by operator `op`, when `op` is
/// one of `=`, `!=`, `<`, `>`, `<=`, `>=`.
pub open spec fn spec_compare(op: Seq<char>, lv: Seq<char>, rv: Seq<char>) -> Option<bool> {
    if op == "="@ {
        Some(lv == rv)
    } else if op == "!="@ {
        Some(lv != rv)
    } else if op == "<"@ {
        Some(value_order(lv, rv) == Ordering::Less)
    } else if op == ">"@ {
        Some(value_order(lv, rv) == Ordering::Greater)
    } else if op == "<="@ {
        Some(value_order(lv, rv) != Ordering::Greater)
    } else if op == ">="@ {
        Some(value_order(lv, rv) != Ordering::Less)
    } else {
        None
    }
}

/// Whether `row` satisfies a WHERE clause: comparisons joined by `AND` and
/// `OR`, evaluated left to right and stopping as soon as the outcome is
/// known.
pub open spec fn spec_eval(e: ExprV, row: (i64, Seq<Seq<char>>), schema: (nat, Seq<(Seq<u8>, bool)>)) -> Result<bool, Seq<char>>
    decreases e,
{
    match e {
        ExprV::BinaryOp(op, l, r) => match spec_resolve(*l, row, schema) {
            Err(m) => Err(m),
            Ok(lv) => match spec_resolve(*r, row, schema) {
                Err(m) => Err(m),
                Ok(rv) => match spec_compare(op, lv, rv) {
                    Some(b) => Ok(b),
                    None => Err("unknown operator \""@ + op + "\""@),
                },
            },
        },
        ExprV::And(l, r) => match spec_eval(*l, row, schema) {
            Err(m) => Err(m),
            Ok(false) => Ok(false),
            Ok(true) => spec_eval(*r, row, schema),
        },
        ExprV::Or(l, r) => match spec_eval(*l, row, schema) {
            Err(m) => Err(m),
            Ok(true) => Ok(true),
            Ok(false) => spec_eval(*r, row, schema),
        },
        _ => Err("WHERE clause must be a comparison"@),
    }
}

/// Whether `row` satisfies the WHERE clause `expr`.
pub fn eval_where(expr: &Expression, row: &Row, schema: &Schema) -> (r: Result<bool, String>)
    requires
        where_in_slots(expr@, schema@),
        row@.1.len() == MAX_COL,
    ensures
        match (r, spec_eval(expr@, row@, schema@)) {
            (Ok(b), Ok(sb)) => b == sb,
            (Err(m), Err(sm)) => m@ == sm,
            _ => false,
        },
    decreases expr,
{
    match expr {
        Expression::BinaryOp { op, left, right } => {
            let lv = match resolve_val(left, row, schema) {
                Ok(v) => v,
                Err(m) => {
                    return Err(m);
                },
            };
            let rv = match resolve_val(right, row, schema) {
                Ok(v) => v,
                Err(m) => {
                    return Err(m);
                },
            };
            let o = op.as_str();
            proof {
                reveal_strlit("=");
                reveal_strlit("!=");
                reveal_strlit("<");
                reveal_strlit(">");
                reveal_strlit("<=");
                reveal_strlit(">=");
            }
            if str_eq(o, "=") {
                Ok(str_eq(lv.as_str(), rv.as_str()))
            } else if str_eq(o, "!=") {
                Ok(!str_eq(lv.as_str(), rv.as_str()))
            } else if str_eq(o, "<") {
                let c = cmp_vals(lv.as_str(), rv.as_str());
                Ok(matches!(c, Ordering::Less))
            } else if str_eq(o, ">") {
                let c = cmp_vals(lv.as_str(), rv.as_str());
                Ok(matches!(c, Ordering::Greater))
            } else if str_eq(o, "<=") {
                let c = cmp_vals(lv.as_str(), rv.as_str());
                Ok(!matches!(c, Ordering::Greater))
            } else if str_eq(o, ">=") {
                let c = cmp_vals(lv.as_str(), rv.as_str());
                Ok(!matches!(c, Ordering::Less))
            } else {
                let mut m = to_owned_string("unknown operator \"");
                push_str(&mut m, o);
                push_str(&mut m, "\"");
                Err(m)
            }
        },
        Expression::And(l, r) => {
            let a = match eval_where(l, row, schema) {
                Ok(b) => b,
                Err(m) => {
                    return Err(m);
                },
            };
            if !a {
                return Ok(false);
            }
            eval_where(r, row, schema)
        },
        Expression::Or(l, r) => {
            let a = match eval_where(l, row, schema) {
                Ok(b) => b,
                Err(m) => {
                    return Err(m);
                },
            };
            if a {
                return Ok(true);
            }
            eval_where(r, row, schema)
        },
        _ => Err(to_owned_string("WHERE clause must be a comparison")),
    }
}

// ---------------------------------------------------------------------------
// Statements.
// ---------------------------------------------------------------------------

/// The message answering `EXIT` and `HELP`; none for other statements.
pub open spec fn spec_statement_message(st: StatementV) -> Option<Seq<char>> {
    match st {
        StatementV::Exit => Some("bye."@),
        StatementV::Help => Some("commands: CREATE TABLE, INSERT INTO, SELECT, .exit"@),
        _ => None,
    }
}

/// The message answering `EXIT` and `HELP`; none for other statements.
pub fn statement_message(stmt: &Statement) -> (r: Option<String>)
    ensures
        match (r, spec_statement_message(stmt@)) {
            (Some(m), Some(sm)) => m@ == sm,
            (None, None) => true,
            _ => false,
        },
{
    match stmt {
        Statement::Exit => Some(to_owned_string("bye.")),
        Statement::Help => Some(to_owned_string("commands: CREATE TABLE, INSERT INTO, SELECT, .exit")),
        _ => None,
    }
}

/// The error for a table that is not open.
pub fn no_such_table(name: &str) -> (m: String)
    ensures
        m@ == "table \""@ + name@ + "\" does not exist"@,
{
    let mut m = to_owned_string("table \"");
    push_str(&mut m, name);
    push_str(&mut m, "\" does not exist");
    m
}

/// The file that holds table `name`.
pub fn table_path(name: &str) -> (p: String)
    ensures
        p@ == name@ + ".db"@,
{
    let mut p = to_owned_string(name);
    push_str(&mut p, ".db");
    p
}

/// The outcome of `CREATE TABLE name (columns)`: an error when the table
/// exists, has no columns or more than `MAX_COL`; else the names of its
/// columns.
pub open spec fn spec_create(name: Seq<char>, exists: bool, cols: Seq<ColumnDefV>) -> Result<Seq<Seq<char>>, Seq<char>> {
    if exists {
        Err("table \""@ + name + "\" already exists"@)
    } else if cols.len() == 0 {
        Err("CREATE TABLE requires at least one column"@)
    } else if cols.len() > MAX_COL {
        Err("too many columns (max 4)"@)
    } else {
        Ok(cols.map_values(|c: ColumnDefV| c.name))
    }
}

/// Checks a `CREATE TABLE` of `table_name` (which `exists` already or not)
/// with `columns`, and gives the schema of the new table.
pub fn create_schema(table_name: &str, exists: bool, columns: &[ColumnDef]) -> (r: Result<Schema, String>)
    ensures
        match (r, spec_create(table_name@, exists, columns@.map_values(|c: ColumnDef| c@))) {
            (Ok(s), Ok(names)) => {
                &&& s@.0 == names.len()
                &&& s@.1.len() == MAX_COL
                &&& forall|i: int| 0 <= i < names.len() ==> #[trigger] s@.1[i] == (name_bytes(names[i]), true)
                &&& forall|i: int| names.len() <= i < MAX_COL ==> #[trigger] s@.1[i] == (
                    Seq::new(crate::schema::COL_NAME_LEN as nat, |j: int| 0u8),
                    false,
                )
            },
            (Err(m), Err(sm)) => m@ == sm,
            _ => false,
        },
{
    if exists {
        let mut m = to_owned_string("table \"");
        push_str(&mut m, table_name);
        push_str(&mut m, "\" already exists");
        return Err(m);
    }
    if columns.len() == 0 {
        return Err(to_owned_string("CREATE TABLE requires at least one column"));
    }
    let mut names: Vec<&str> = Vec::new();
    let mut i: usize = 0;
    while i < columns.len()
        invariant
            0 <= i <= columns@.len(),
            names@.len() == i,
            forall|j: int| 0 <= j < i ==> #[trigger] names@[j]@ == columns@[j].name@,
        decreases columns@.len() - i,
    {
        names.push(columns[i].name.as_str());
        i += 1;
    }
    if names.len() > MAX_COL {
        return Err(to_owned_string("too many columns (max 4)"));
    }
    let schema = Schema::new(names.as_slice());
    Ok(schema)
}

/// The outcome of inserting `values` into a table of `num_cols` columns:
/// the id and the column values, or the error.
pub open spec fn spec_insert(num_cols: nat, values: Seq<ExprV>) -> Result<(i64, Seq<Seq<char>>), Seq<char>> {
    let expected = 1 + num_cols;
    if values.len() != expected {
        Err("expected "@ + decimal(expected) + " value(s) (id + "@ + decimal(num_cols) + " column(s)), got "@
            + decimal(values.len()))
    } else {
        match parsed_i64(spec_literal(values[0])) {
            None => Err("id must be an integer, got \""@ + spec_literal(values[0]) + "\""@),
            Some(id) => Ok((id, Seq::new(num_cols, |i: int| spec_literal(values[i + 1])))),
        }
    }
}

/// Checks the values of an `INSERT` into a table of `num_cols` columns: an
/// id and one value per column, the id an integer. Gives the row.
pub fn build_row(num_cols: usize, values: &[Expression]) -> (r: Result<Row, String>)
    requires
        num_cols < usize::MAX,
    ensures
        match (r, spec_insert(num_cols as nat, values@.map_values(|e: Expression| e@))) {
            (Ok(row), Ok((id, vals))) => {
                &&& row@.0 == id
                &&& row@.1.len() == MAX_COL
                &&& forall|i: int| 0 <= i < MAX_COL ==> #[trigger] row@.1[i] == if i < num_cols {
                    vals[i]
                } else {
                    Seq::<char>::empty()
                }
            },
            (Err(m), Err(sm)) => m@ == sm,
            _ => false,
        },
{
    let ghost vs = values@.map_values(|e: Expression| e@);
    let expected = 1 + num_cols;
    if values.len() != expected {
        let mut m = to_owned_string("expected ");
        push_str(&mut m, crate::text::usize_to_string(expected).as_str());
        push_str(&mut m, " value(s) (id + ");
        push_str(&mut m, crate::text::usize_to_string(num_cols).as_str());
        push_str(&mut m, " column(s)), got ");
        push_str(&mut m, crate::text::usize_to_string(values.len()).as_str());
        return Err(m);
    }
    let first = literal_str(&values[0]);
    assert(vs[0] == values@[0]@);
    let id = match parse_i64(first) {
        Some(v) => v,
        None => {
            let mut m = to_owned_string("id must be an integer, got \"");
            push_str(&mut m, first);
            push_str(&mut m, "\"");
            return Err(m);
        },
    };
    let mut col_vals: Vec<&str> = Vec::new();
    let mut i: usize = 1;
    while i < values.len()
        invariant
            1 <= i <= values@.len(),
            values@.len() == expected,
            expected == 1 + num_cols,
            col_vals@.len() == i - 1,
            vs == values@.map_values(|e: Expression| e@),
            forall|j: int| 0 <= j < i - 1 ==> #[trigger] col_vals@[j]@ == spec_literal(vs[j + 1]),
        decreases values@.len() - i,
    {
        col_vals.push(literal_str(&values[i]));
        i += 1;
    }
    Ok(Row::new(id, col_vals.as_slice()))
}

// ---------------------------------------------------------------------------
// Queries.
// ---------------------------------------------------------------------------

/// The columns that named columns select, in order, or the error for the
/// first unknown one.
pub open spec fn spec_project_names(schema: (nat, Seq<(Seq<u8>, bool)>), names: Seq<Seq<char>>) -> Result<Seq<nat>, Seq<char>>
    decreases names.len(),
{
    if names.len() == 0 {
        Ok(Seq::empty())
    } else {
        match spec_project_names(schema, names.drop_last()) {
            Err(m) => Err(m),
            Ok(cols) => match find_col(schema, names.last()) {
                None => Err(unknown_column(names.last())),
                Some(i) => Ok(cols.push(i)),
            },
        }
    }
}

/// The columns a `SELECT` shows: all of them for `*`, else the named ones.
pub open spec fn spec_projection(schema: (nat, Seq<(Seq<u8>, bool)>), names: Seq<Seq<char>>) -> Result<Seq<nat>, Seq<char>> {
    if names == seq!["*"@] {
        Ok(Seq::new(schema.0, |i: int| i as nat))
    } else {
        spec_project_names(schema, names)
    }
}

/// The header line of a result: `id`, then the names of the shown columns.
pub open spec fn spec_headers(schema: (nat, Seq<(Seq<u8>, bool)>), project: Seq<nat>) -> Seq<Seq<char>> {
    seq!["id"@] + project.map_values(|i: nat| name_text(schema.1[i as int].0))
}

/// The result line of a row: its id, then its values in the shown columns.
pub open spec fn spec_record(row: (i64, Seq<Seq<char>>), project: Seq<nat>) -> Seq<Seq<char>> {
    seq![signed_decimal(row.0 as int)] + project.map_values(|i: nat| row.1[i as int])
}

/// The result lines of the rows that satisfy the WHERE clause (every row
/// without one), in order, or the first error the clause raises.
pub open spec fn spec_select_rows(
    rows: Seq<(i64, Seq<Seq<char>>)>,
    where_clause: Option<ExprV>,
    schema: (nat, Seq<(Seq<u8>, bool)>),
    project: Seq<nat>,
) -> Result<Seq<Seq<Seq<char>>>, Seq<char>>
    decreases rows.len(),
{
    if rows.len() == 0 {
        Ok(Seq::empty())
    } else {
        match spec_select_rows(rows.drop_last(), where_clause, schema, project) {
            Err(m) => Err(m),
            Ok(acc) => {
                let keep = match where_clause {
                    None => Ok(true),
                    Some(e) => spec_eval(e, rows.last(), schema),
                };
                match keep {
                    Err(m) => Err(m),
                    Ok(k) => Ok(
                        if k {
                            acc.push(spec_record(rows.last(), project))
                        } else {
                            acc
                        },
                    ),
                }
            },
        }
    }
}

/// The answer to `SELECT names FROM table [WHERE clause]` over `rows`.
pub open spec fn spec_select(
    schema: (nat, Seq<(Seq<u8>, bool)>),
    names: Seq<Seq<char>>,
    where_clause: Option<ExprV>,
    rows: Seq<(i64, Seq<Seq<char>>)>,
) -> Result<ResultV, Seq<char>> {
    match spec_projection(schema, names) {
        Err(m) => Err(m),
        Ok(project) => match spec_select_rows(rows, where_clause, schema, project) {
            Err(m) => Err(m),
            Ok(lines) => Ok(ResultV::Rows(spec_headers(schema, project), lines)),
        },
    }
}

/// The values of a list of rows.
pub open spec fn row_views(rows: Seq<Row>) -> Seq<(i64, Seq<Seq<char>>)> {
    rows.map_values(|r: Row| r@)
}

/// The shown columns of a `SELECT`.
fn projection(schema: &Schema, col_names: &[String]) -> (r: Result<Vec<usize>, String>)
    requires
        select_in_slots(schema@, texts(col_names@), None),
    ensures
        match (r, spec_projection(schema@, texts(col_names@))) {
            (Ok(p), Ok(sp)) => p@.len() == sp.len() && forall|i: int| 0 <= i < sp.len() ==> #[trigger] p@[i] == sp[i],
            (Err(m), Err(sm)) => m@ == sm,
            _ => false,
        },
{
    let ghost names = texts(col_names@);
    let mut project: Vec<usize> = Vec::new();
    proof {
        reveal_strlit("*");
    }
    if col_names.len() == 1 && str_eq(col_names[0].as_str(), "*") {
        proof {
            assert(names =~= seq!["*"@]);
        }
        let n = schema.num_cols();
        let mut i: usize = 0;
        while i < n
            invariant
                n == schema@.0,
                0 <= i <= n,
                project@.len() == i,
                forall|j: int| 0 <= j < i ==> #[trigger] project@[j] == j,
            decreases n - i,
        {
            project.push(i);
            i += 1;
        }
        return Ok(project);
    }
    proof {
        if names =~= seq!["*"@] {
            assert(col_names@.len() == 1);
            assert(col_names@[0]@ == "*"@);
        }
    }
    let mut i: usize = 0;
    while i < col_names.len()
        invariant
            select_in_slots(schema@, texts(col_names@), None),
            names == texts(col_names@),
            spec_projection(schema@, names) == spec_project_names(schema@, names),
            0 <= i <= col_names@.len(),
            spec_project_names(schema@, names.subrange(0, i as int)) matches Ok(sp) && project@.len() == sp.len()
                && forall|j: int| 0 <= j < sp.len() ==> #[trigger] project@[j] == sp[j],
        decreases col_names@.len() - i,
    {
        proof {
            assert(names.subrange(0, i + 1).drop_last() =~= names.subrange(0, i as int));
            assert(names.subrange(0, i + 1).last() == col_names@[i as int]@);
        }
        proof {
            assert(names[i as int] == col_names@[i as int]@);
        }
        match find_column(schema, col_names[i].as_str()) {
            Some(c) => {
                project.push(c);
            },
            None => {
                proof {
                    lemma_project_error_persists(schema@, names, (i + 1) as nat);
                }
                let mut m = to_owned_string("unknown column \"");
                push_str(&mut m, col_names[i].as_str());
                push_str(&mut m, "\"");
                return Err(m);
            },
        }
        i += 1;
    }
    assert(names.subrange(0, col_names@.len() as int) =~= names);
    Ok(project)
}

/// An error for the first `n` names is the error for all of them.
proof fn lemma_project_error_persists(schema: (nat, Seq<(Seq<u8>, bool)>), names: Seq<Seq<char>>, n: nat)
    requires
        n <= names.len(),
        spec_project_names(schema, names.subrange(0, n as int)) is Err,
    ensures
        spec_project_names(schema, names) == spec_project_names(schema, names.subrange(0, n as int)),
    decreases names.len() - n,
{
    if n < names.len() {
        assert(names.subrange(0, n + 1int).drop_last() =~= names.subrange(0, n as int));
        lemma_project_error_persists(schema, names, n + 1);
    } else {
        assert(names.subrange(0, n as int) =~= names);
    }
}

/// An error for the first `n` rows is the error for all of them.
proof fn lemma_select_error_persists(
    rows: Seq<(i64, Seq<Seq<char>>)>,
    where_clause: Option<ExprV>,
    schema: (nat, Seq<(Seq<u8>, bool)>),
    project: Seq<nat>,
    n: nat,
)
    requires
        n <= rows.len(),
        spec_select_rows(rows.subrange(0, n as int), where_clause, schema, project) is Err,
    ensures
        spec_select_rows(rows, where_clause, schema, project) == spec_select_rows(
            rows.subrange(0, n as int),
            where_clause,
            schema,
            project,
        ),
    decreases rows.len() - n,
{
    if n < rows.len() {
        assert(rows.subrange(0, n + 1int).drop_last() =~= rows.subrange(0, n as int));
        lemma_select_error_persists(rows, where_clause, schema, project, n + 1);
    } else {
        assert(rows.subrange(0, n as int) =~= rows);
    }
}

/// The result line of `row`.
fn record_of(row: &Row, project: &Vec<usize>) -> (r: Vec<String>)
    requires
        row@.1.len() == MAX_COL,
        forall|i: int| 0 <= i < project@.len() ==> #[trigger] project@[i] < MAX_COL,
    ensures
        texts(r@) == spec_record(row@, project@.map_values(|i: usize| i as nat)),
{
    let mut record: Vec<String> = Vec::new();
    record.push(i64_to_string(row.id()));
    let mut k: usize = 0;
    while k < project.len()
        invariant
            row@.1.len() == MAX_COL,
            forall|i: int| 0 <= i < project@.len() ==> #[trigger] project@[i] < MAX_COL,
            0 <= k <= project@.len(),
            texts(record@) == spec_record(row@, project@.subrange(0, k as int).map_values(|i: usize| i as nat)),
        decreases project@.len() - k,
    {
        let ghost before = texts(record@);
        record.push(to_owned_string(row.value(project[k])));
        proof {
            assert(texts(record@) =~= before.push(row@.1[project@[k as int] as int]));
            assert(spec_record(row@, project@.subrange(0, k + 1).map_values(|i: usize| i as nat)) =~= spec_record(
                row@,
                project@.subrange(0, k as int).map_values(|i: usize| i as nat),
            ).push(row@.1[project@[k as int] as int]));
        }
        k += 1;
    }
    assert(project@.subrange(0, project@.len() as int) =~= project@);
    record
}

/// The header line for the shown columns.
fn headers_of(schema: &Schema, project: &Vec<usize>) -> (r: Vec<String>)
    requires
        schema@.1.len() == MAX_COL,
        forall|i: int| 0 <= i < project@.len() ==> #[trigger] project@[i] < MAX_COL,
    ensures
        texts(r@) == spec_headers(schema@, project@.map_values(|i: usize| i as nat)),
{
    let mut headers: Vec<String> = Vec::new();
    headers.push(to_owned_string("id"));
    proof {
        reveal_strlit("id");
    }
    let mut k: usize = 0;
    while k < project.len()
        invariant
            schema@.1.len() == MAX_COL,
            forall|i: int| 0 <= i < project@.len() ==> #[trigger] project@[i] < MAX_COL,
            0 <= k <= project@.len(),
            texts(headers@) == spec_headers(schema@, project@.subrange(0, k as int).map_values(|i: usize| i as nat)),
        decreases project@.len() - k,
    {
        let ghost before = texts(headers@);
        headers.push(to_owned_string(schema.col(project[k]).name_str()));
        proof {
            assert(texts(headers@) =~= before.push(name_text(schema@.1[project@[k as int] as int].0)));
            assert(spec_headers(schema@, project@.subrange(0, k + 1).map_values(|i: usize| i as nat)) =~= spec_headers(
                schema@,
                project@.subrange(0, k as int).map_values(|i: usize| i as nat),
            ).push(name_text(schema@.1[project@[k as int] as int].0)));
        }
        k += 1;
    }
    assert(project@.subrange(0, project@.len() as int) =~= project@);
    headers
}

/// Answers `SELECT col_names FROM ... [WHERE where_clause]` over the rows
/// `all_rows` of a table with `schema`.
pub fn select_rows(schema: &Schema, col_names: &[String], where_clause: &Option<Expression>, all_rows: &[Row]) -> (r: Result<ExecuteResult, String>)
    requires
        select_in_slots(schema@, texts(col_names@), option_expr_view(*where_clause)),
        forall|i: int| 0 <= i < all_rows@.len() ==> (#[trigger] all_rows@[i])@.1.len() == MAX_COL,
    ensures
        match (r, spec_select(schema@, texts(col_names@), option_expr_view(*where_clause), row_views(all_rows@))) {
            (Ok(res), Ok(sres)) => res@ == sres,
            (Err(m), Err(sm)) => m@ == sm,
            _ => false,
        },
{
    proof {
        if schema@.0 <= MAX_COL {
            if let Some(e) = option_expr_view(*where_clause) {
                lemma_where_in_slots(e, schema@);
            }
        }
    }
    let project = match projection(schema, col_names) {
        Ok(p) => p,
        Err(m) => {
            return Err(m);
        },
    };
    let ghost sp = project@.map_values(|i: usize| i as nat);
    proof {
        assert(spec_projection(schema@, texts(col_names@)) == Ok::<Seq<nat>, Seq<char>>(sp)) by {
            let x = spec_projection(schema@, texts(col_names@))->Ok_0;
            assert(sp =~= x);
        }
        lemma_projection_bounds(schema@, texts(col_names@));
    }
    let headers = headers_of(schema, &project);
    let ghost rows = row_views(all_rows@);
    let ghost wv = option_expr_view(*where_clause);
    let mut result_rows: Vec<Vec<String>> = Vec::new();
    let mut i: usize = 0;
    proof {
        assert(rows.subrange(0, 0) =~= Seq::<(i64, Seq<Seq<char>>)>::empty());
        assert(result_rows@.map_values(|r: Vec<String>| texts(r@)) =~= Seq::<Seq<Seq<char>>>::empty());
    }
    while i < all_rows.len()
        invariant
            spec_projection(schema@, texts(col_names@)) == Ok::<Seq<nat>, Seq<char>>(sp),
            schema@.1.len() == MAX_COL,
            option_expr_view(*where_clause) matches Some(e) ==> where_in_slots(e, schema@),
            forall|j: int| 0 <= j < all_rows@.len() ==> (#[trigger] all_rows@[j])@.1.len() == MAX_COL,
            forall|j: int| 0 <= j < project@.len() ==> #[trigger] project@[j] < MAX_COL,
            sp == project@.map_values(|i: usize| i as nat),
            rows == row_views(all_rows@),
            wv == option_expr_view(*where_clause),
            0 <= i <= all_rows@.len(),
            spec_select_rows(rows.subrange(0, i as int), wv, schema@, sp) == Ok::<Seq<Seq<Seq<char>>>, Seq<char>>(
                result_rows@.map_values(|r: Vec<String>| texts(r@)),
            ),
        decreases all_rows@.len() - i,
    {
        let row = &all_rows[i];
        proof {
            assert(rows.subrange(0, i + 1).drop_last() =~= rows.subrange(0, i as int));
            assert(rows.subrange(0, i + 1).last() == all_rows@[i as int]@);
        }
        let keep = match where_clause {
            Some(expr) => match eval_where(expr, row, schema) {
                Ok(b) => b,
                Err(m) => {
                    proof {
                        lemma_select_error_persists(rows, wv, schema@, sp, (i + 1) as nat);
                    }
                    return Err(m);
                },
            },
            None => true,
        };
        if keep {
            let ghost before = result_rows@.map_values(|r: Vec<String>| texts(r@));
            let record = record_of(row, &project);
            result_rows.push(record);
            proof {
                assert(result_rows@.map_values(|r: Vec<String>| texts(r@)) =~= before.push(spec_record(all_rows@[i as int]@, sp)));
            }
        }
        i += 1;
    }
    proof {
        assert(rows.subrange(0, all_rows@.len() as int) =~= rows);
    }
    Ok(ExecuteResult::Rows { headers, rows: result_rows })
}

/// The shown columns are columns of the schema, within its slots.
proof fn lemma_projection_bounds(schema: (nat, Seq<(Seq<u8>, bool)>), names: Seq<Seq<char>>)
    requires
        select_in_slots(schema, names, None),
    ensures
        spec_projection(schema, names) matches Ok(p) ==> forall|i: int|
            0 <= i < p.len() ==> #[trigger] p[i] < schema.0 && p[i] < MAX_COL,
{
    if names != seq!["*"@] {
        lemma_project_names_bounds(schema, names);
    }
}

proof fn lemma_project_names_bounds(schema: (nat, Seq<(Seq<u8>, bool)>), names: Seq<Seq<char>>)
    requires
        schema.1.len() == MAX_COL,
        schema.0 > MAX_COL ==> forall|i: int| 0 <= i < names.len() ==> col_in_slots(schema, #[trigger] names[i]),
    ensures
        spec_project_names(schema, names) matches Ok(p) ==> forall|i: int|
            0 <= i < p.len() ==> #[trigger] p[i] < schema.0 && p[i] < MAX_COL,
    decreases names.len(),
{
    if names.len() > 0 {
        let d = names.drop_last();
        assert forall|i: int| 0 <= i < d.len() && schema.0 > MAX_COL implies col_in_slots(schema, #[trigger] d[i]) by {
            assert(d[i] == names[i]);
        }
        lemma_project_names_bounds(schema, d);
        lemma_find_col_bound(schema.1, schema.0, names.last(), 0);
        if schema.0 > MAX_COL {
            assert(col_in_slots(schema, names[names.len() - 1]));
            lemma_find_col_within(schema.1, schema.0, names.last(), 0);
            lemma_find_col_bound(schema.1, MAX_COL as nat, names.last(), 0);
        }
    }
}

/// A name found among the first `MAX_COL` slots is found there also when
/// more columns are searched.
proof fn lemma_find_col_within(cols: Seq<(Seq<u8>, bool)>, n: nat, name: Seq<char>, i: nat)
    requires
        n >= MAX_COL,
        find_col_from(cols, MAX_COL as nat, name, i) is Some,
    ensures
        find_col_from(cols, n, name, i) == find_col_from(cols, MAX_COL as nat, name, i),
    decreases MAX_COL - i,
{
    if i < MAX_COL && name_text(cols[i as int].0) != name {
        lemma_find_col_within(cols, n, name, i + 1);
    }
}

/// With no more columns than slots, every lookup stays within them.
proof fn lemma_where_in_slots(e: ExprV, schema: (nat, Seq<(Seq<u8>, bool)>))
    requires
        schema.0 <= MAX_COL,
        schema.1.len() == MAX_COL,
    ensures
        where_in_slots(e, schema),
    decreases e,
{
    match e {
        ExprV::And(l, r) => {
            lemma_where_in_slots(*l, schema);
            lemma_where_in_slots(*r, schema);
        },
        ExprV::Or(l, r) => {
            lemma_where_in_slots(*l, schema);
            lemma_where_in_slots(*r, schema);
        },
        _ => {},
    }
}

proof fn lemma_find_col_bound(cols: Seq<(Seq<u8>, bool)>, n: nat, name: Seq<char>, i: nat)
    ensures
        find_col_from(cols, n, name, i) matches Some(j) ==> i <= j < n,
    decreases n - i,
{
    if i < n {
        lemma_find_col_bound(cols, n, name, i + 1);
    }
}

/// The value of an optional expression.
pub open spec fn option_expr_view(e: Option<Expression>) -> Option<ExprV> {
    match e {
        Some(x) => Some(x@),
        None => None,
    }
}

// ---------------------------------------------------------------------------
// Laws of comparison.
// ---------------------------------------------------------------------------

proof fn lemma_lex_less_asym(a: Seq<char>, b: Seq<char>)
    ensures
        lex_less(a, b) ==> !lex_less(b, a),
        a != b ==> lex_less(a, b) || lex_less(b, a),
        a == b ==> !lex_less(a, b),
    decreases a.len(),
{
    if a.len() > 0 && b.len() > 0 && a[0] == b[0] {
        lemma_lex_less_asym(a.drop_first(), b.drop_first());
        if a.drop_first() =~= b.drop_first() {
            assert forall|i: int| 0 <= i < a.len() implies a[i] == b[i] by {
                if i > 0 {
                    assert(a[i] == a.drop_first()[i - 1]);
                    assert(b[i] == b.drop_first()[i - 1]);
                }
            }
            assert(a =~= b);
        }
    } else if a.len() == 0 && b.len() == 0 {
        assert(a =~= b);
    }
}

/// Comparing values is a total order seen from either side: `a` is below
/// `b` exactly when `b` is above `a`, and equal when neither is.
pub proof fn lemma_value_order_flips(a: Seq<char>, b: Seq<char>)
    ensures
        value_order(a, b) == Ordering::Less <==> value_order(b, a) == Ordering::Greater,
        value_order(a, b) == Ordering::Equal <==> value_order(b, a) == Ordering::Equal,
{
    lemma_lex_less_asym(a, b);
    lemma_lex_less_asym(b, a);
}

/// The operators come in opposite pairs: `=` and `!=`, `<` and `>=`, `>`
/// and `<=` never agree; and `a < b` holds exactly when `b > a` does.
pub proof fn lemma_operators_complement(a: Seq<char>, b: Seq<char>)
    ensures
        spec_compare("="@, a, b) == Some(!spec_compare("!="@, a, b)->Some_0),
        spec_compare("<"@, a, b) == Some(!spec_compare(">="@, a, b)->Some_0),
        spec_compare(">"@, a, b) == Some(!spec_compare("<="@, a, b)->Some_0),
        spec_compare("<"@, a, b) == spec_compare(">"@, b, a),
{
    reveal_strlit("=");
    reveal_strlit("!=");
    reveal_strlit("<");
    reveal_strlit(">");
    reveal_strlit("<=");
    reveal_strlit(">=");
    assert("!="@.len() == 2 && "<="@.len() == 2 && ">="@.len() == 2);
    assert("="@.len() == 1 && "<"@.len() == 1 && ">"@.len() == 1);
    assert("="@ != "!="@);
    assert("="@[0] == '=' && "<"@[0] == '<' && ">"@[0] == '>');
    assert("<="@[0] == '<' && ">="@[0] == '>' && "!="@[0] == '!');
    assert("<"@ != "="@ && "<"@ != "!="@);
    assert(">"@ != "="@ && ">"@ != "!="@ && ">"@ != "<"@);
    assert("<="@ != "="@ && "<="@ != "!="@ && "<="@ != "<"@ && "<="@ != ">"@);
    assert(">="@ != "="@ && ">="@ != "!="@ && ">="@ != "<"@ && ">="@ != ">"@ && ">="@ != "<="@);
    lemma_value_order_flips(a, b);
}


/// `CREATE TABLE` of a new table with one to four columns succeeds with
/// those columns' names, in order; it fails for an existing table, for no
/// columns, and for more than four.
pub proof fn lemma_create_outcome(name: Seq<char>, exists: bool, cols: Seq<ColumnDefV>)
    ensures
        !exists && 1 <= cols.len() <= 4 ==> (spec_create(name, exists, cols) matches Ok(names) && names.len()
            == cols.len() && forall|i: int| 0 <= i < cols.len() ==> #[trigger] names[i] == cols[i].name),
        exists ==> spec_create(name, exists, cols) is Err,
        cols.len() == 0 ==> spec_create(name, exists, cols) is Err,
        cols.len() > 4 ==> spec_create(name, exists, cols) is Err,
{
}


/// `INSERT` into a table of `num_cols` columns fails unless it gives an id
/// and one value per column; with an id written as a decimal integer it
/// succeeds, giving a row with that id and, in each column, the literal
/// text given for it.
pub proof fn lemma_insert_outcome(num_cols: nat, values: Seq<ExprV>, id: i64)
    ensures
        values.len() != num_cols + 1 ==> spec_insert(num_cols, values) is Err,
        values.len() == num_cols + 1 && values[0] == ExprV::Literal(signed_decimal(id as int)) ==> (spec_insert(
            num_cols,
            values,
        ) matches Ok((rid, vals)) && rid == id && vals.len() == num_cols && forall|i: int|
            0 <= i < num_cols ==> (values[i + 1] matches ExprV::Literal(v) ==> #[trigger] vals[i] == v)),
{
    crate::text::lemma_i64_text_roundtrip(id);
}


/// A `SELECT` without `WHERE` gives one line per row, in the rows' order:
/// the row's id in decimal, then its values in the shown columns.
pub proof fn lemma_select_every_row(
    rows: Seq<(i64, Seq<Seq<char>>)>,
    schema: (nat, Seq<(Seq<u8>, bool)>),
    project: Seq<nat>,
)
    ensures
        spec_select_rows(rows, None, schema, project) matches Ok(lines) && lines.len() == rows.len() && forall|k: int|
            0 <= k < rows.len() ==> #[trigger] lines[k] == seq![signed_decimal(rows[k].0 as int)] + project.map_values(
                |i: nat| rows[k].1[i as int],
            ),
    decreases rows.len(),
{
    if rows.len() > 0 {
        lemma_select_every_row(rows.drop_last(), schema, project);
    }
}

/// A `SELECT` whose `WHERE` clause evaluates without error on every row
/// keeps exactly the rows on which it holds, in their order.
pub proof fn lemma_select_filters_rows(
    rows: Seq<(i64, Seq<Seq<char>>)>,
    e: ExprV,
    schema: (nat, Seq<(Seq<u8>, bool)>),
    project: Seq<nat>,
)
    requires
        forall|k: int| 0 <= k < rows.len() ==> spec_eval(e, #[trigger] rows[k], schema) is Ok,
    ensures
        spec_select_rows(rows, Some(e), schema, project) == Ok::<Seq<Seq<Seq<char>>>, Seq<char>>(
            rows.filter(|r: (i64, Seq<Seq<char>>)| spec_eval(e, r, schema) == Ok::<bool, Seq<char>>(true)).map_values(
                |r: (i64, Seq<Seq<char>>)| spec_record(r, project),
            ),
        ),
    decreases rows.len(),
{
    reveal(Seq::filter);
    let f = |r: (i64, Seq<Seq<char>>)| spec_eval(e, r, schema) == Ok::<bool, Seq<char>>(true);
    let g = |r: (i64, Seq<Seq<char>>)| spec_record(r, project);
    if rows.len() == 0 {
        assert(rows.filter(f) =~= Seq::<(i64, Seq<Seq<char>>)>::empty());
        assert(rows.filter(f).map_values(g) =~= Seq::<Seq<Seq<char>>>::empty());
    } else {
        let d = rows.drop_last();
        assert forall|k: int| 0 <= k < d.len() implies spec_eval(e, #[trigger] d[k], schema) is Ok by {
            assert(d[k] == rows[k]);
        }
        lemma_select_filters_rows(d, e, schema, project);
        assert(spec_eval(e, rows[rows.len() - 1], schema) is Ok);
        if f(rows.last()) {
            assert(rows.filter(f) == d.filter(f).push(rows.last()));
            assert(rows.filter(f).map_values(g) =~= d.filter(f).map_values(g).push(g(rows.last())));
        } else {
            assert(rows.filter(f) == d.filter(f));
        }
    }
}


proof fn lemma_find_col_first(cols: Seq<(Seq<u8>, bool)>, n: nat, name: Seq<char>, i: nat)
    ensures
        find_col_from(cols, n, name, i) matches Some(j) ==> i <= j < n && name_text(cols[j as int].0) == name
            && forall|k: int| i <= k < j ==> name_text(#[trigger] cols[k].0) != name,
        find_col_from(cols, n, name, i) is None ==> forall|k: int| i <= k < n ==> name_text(#[trigger] cols[k].0)
            != name,
    decreases n - i,
{
    if i < n {
        lemma_find_col_first(cols, n, name, i + 1);
    }
}

/// A named column is shown from the first of the schema's columns that
/// bears its name; `SELECT *` shows every column in order; an unknown name
/// is an error.
pub proof fn lemma_projection_finds_columns(schema: (nat, Seq<(Seq<u8>, bool)>), names: Seq<Seq<char>>)
    ensures
        names == seq!["*"@] ==> (spec_projection(schema, names) matches Ok(p) && p.len() == schema.0 && forall|j: int|
            0 <= j < schema.0 ==> #[trigger] p[j] == j),
        names != seq!["*"@] ==> (spec_projection(schema, names) matches Ok(p) ==> p.len() == names.len() && forall|
            i: int,
        |
            0 <= i < names.len() ==> p[i] < schema.0 && name_text(schema.1[#[trigger] p[i] as int].0) == names[i]
                && forall|k: int| 0 <= k < p[i] ==> name_text(#[trigger] schema.1[k].0) != names[i]),
        names != seq!["*"@] ==> (spec_projection(schema, names) is Err ==> exists|i: int|
            #![trigger names[i]]
            0 <= i < names.len() && forall|k: int| 0 <= k < schema.0 ==> name_text(#[trigger] schema.1[k].0) != names[i]),
{
    if names != seq!["*"@] {
        lemma_project_names_first(schema, names);
    }
}

proof fn lemma_project_names_first(schema: (nat, Seq<(Seq<u8>, bool)>), names: Seq<Seq<char>>)
    ensures
        spec_project_names(schema, names) matches Ok(p) ==> p.len() == names.len() && forall|i: int|
            0 <= i < names.len() ==> p[i] < schema.0 && name_text(schema.1[#[trigger] p[i] as int].0) == names[i]
                && forall|k: int| 0 <= k < p[i] ==> name_text(#[trigger] schema.1[k].0) != names[i],
        spec_project_names(schema, names) is Err ==> exists|i: int|
            #![trigger names[i]]
            0 <= i < names.len() && forall|k: int| 0 <= k < schema.0 ==> name_text(#[trigger] schema.1[k].0) != names[i],
    decreases names.len(),
{
    if names.len() > 0 {
        let d = names.drop_last();
        lemma_project_names_first(schema, d);
        lemma_find_col_first(schema.1, schema.0, names.last(), 0);
        if spec_project_names(schema, d) is Err {
            let i = choose|i: int|
                #![trigger d[i]]
                0 <= i < d.len() && forall|k: int| 0 <= k < schema.0 ==> name_text(#[trigger] schema.1[k].0) != d[i];
            assert(names[i] == d[i]);
        } else if find_col(schema, names.last()) is None {
            assert(names[names.len() - 1] == names.last());
        } else {
            let p = spec_project_names(schema, names)->Ok_0;
            let pd = spec_project_names(schema, d)->Ok_0;
            assert forall|i: int| 0 <= i < names.len() implies p[i] < schema.0 && name_text(
                schema.1[#[trigger] p[i] as int].0,
            ) == names[i] && forall|k: int| 0 <= k < p[i] ==> name_text(#[trigger] schema.1[k].0) != names[i] by {
                if i < d.len() {
                    assert(p[i] == pd[i]);
                    assert(names[i] == d[i]);
                }
            }
        }
    }
}

} // verus!
