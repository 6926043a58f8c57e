use std::cmp::Ordering;

use mindb::execution::execution::{
    build_row, cmp_vals, compare_text, create_schema, eval_where, literal_str, no_such_table, resolve_val,
    select_rows, select_within_slots, statement_message, table_path, ExecuteResult,
};
use mindb::execution::report::result_lines;
use mindb::parser::{parse, ColumnDef, Expression, Statement};
use mindb::row::Row;
use mindb::schema::Schema;

fn col(name: &str) -> ColumnDef {
    ColumnDef { name: name.to_string(), col_type: "TEXT".to_string() }
}

fn lit(s: &str) -> Expression {
    Expression::Literal(s.to_string())
}

fn colref(s: &str) -> Expression {
    Expression::ColumnRef(s.to_string())
}

fn cmp(op: &str, l: Expression, r: Expression) -> Expression {
    Expression::BinaryOp { op: op.to_string(), left: Box::new(l), right: Box::new(r) }
}

fn sample() -> (Schema, Vec<Row>) {
    let schema = Schema::new(&["name", "age"]);
    let rows = vec![
        Row::new(1, &["alice", "30"]),
        Row::new(2, &["bob", "9"]),
        Row::new(3, &["carol", "100"]),
    ];
    (schema, rows)
}

fn rows_of(r: Result<ExecuteResult, String>) -> (Vec<String>, Vec<Vec<String>>) {
    match r {
        Ok(ExecuteResult::Rows { headers, rows }) => (headers, rows),
        Ok(_) => panic!("not rows"),
        Err(e) => panic!("error {}", e),
    }
}

#[test]
fn cmp_vals_is_numeric_when_both_are_integers() {
    assert!(matches!(cmp_vals("9", "30"), Ordering::Less));
    assert!(matches!(cmp_vals("-5", "-10"), Ordering::Greater));
    assert!(matches!(cmp_vals("007", "7"), Ordering::Equal));
    assert!(matches!(cmp_vals("9", "30x"), Ordering::Greater));
    assert!(matches!(cmp_vals("abc", "abd"), Ordering::Less));
    assert!(matches!(compare_text("ab", "abc"), Ordering::Less));
    assert!(matches!(compare_text("b", "abc"), Ordering::Greater));
    assert!(matches!(compare_text("", ""), Ordering::Equal));
}

#[test]
fn literal_text_of_expressions() {
    assert_eq!(literal_str(&lit("x")), "x");
    assert_eq!(literal_str(&colref("y")), "y");
    assert_eq!(literal_str(&Expression::And(Box::new(lit("a")), Box::new(lit("b")))), "");
}

#[test]
fn resolve_values_in_a_row() {
    let (schema, rows) = sample();
    assert_eq!(resolve_val(&lit("5"), &rows[0], &schema).unwrap(), "5");
    assert_eq!(resolve_val(&colref("id"), &rows[1], &schema).unwrap(), "2");
    assert_eq!(resolve_val(&colref("age"), &rows[2], &schema).unwrap(), "100");
    assert_eq!(resolve_val(&colref("height"), &rows[0], &schema).unwrap_err(), "unknown column \"height\"");
    let and = Expression::And(Box::new(lit("a")), Box::new(lit("b")));
    assert_eq!(resolve_val(&and, &rows[0], &schema).unwrap_err(), "unsupported expression in WHERE");
}

#[test]
fn where_clauses_evaluate() {
    let (schema, rows) = sample();
    let older = cmp(">", colref("age"), lit("10"));
    assert_eq!(eval_where(&older, &rows[0], &schema), Ok(true));
    assert_eq!(eval_where(&older, &rows[1], &schema), Ok(false));
    let le = cmp("<=", colref("age"), lit("30"));
    assert_eq!(eval_where(&le, &rows[0], &schema), Ok(true));
    let ne = cmp("!=", colref("name"), lit("bob"));
    assert_eq!(eval_where(&ne, &rows[1], &schema), Ok(false));
    let both = Expression::And(Box::new(older), Box::new(ne));
    assert_eq!(eval_where(&both, &rows[2], &schema), Ok(true));
    let bad = cmp("~", colref("age"), lit("1"));
    assert_eq!(eval_where(&bad, &rows[0], &schema), Err("unknown operator \"~\"".to_string()));
    assert_eq!(eval_where(&lit("1"), &rows[0], &schema), Err("WHERE clause must be a comparison".to_string()));
}

#[test]
fn and_or_stop_early() {
    let (schema, rows) = sample();
    let false_cmp = cmp("=", lit("1"), lit("2"));
    let true_cmp = cmp("=", lit("1"), lit("1"));
    let broken = cmp("=", colref("nope"), lit("1"));
    let and = Expression::And(Box::new(false_cmp), Box::new(broken));
    assert_eq!(eval_where(&and, &rows[0], &schema), Ok(false));
    let broken = cmp("=", colref("nope"), lit("1"));
    let or = Expression::Or(Box::new(true_cmp), Box::new(broken));
    assert_eq!(eval_where(&or, &rows[0], &schema), Ok(true));
}

#[test]
fn create_checks_columns() {
    let s = create_schema("t", false, &[col("a"), col("b")]).unwrap();
    assert_eq!(s.num_cols(), 2);
    assert_eq!(s.col(1).name_str(), "b");
    assert_eq!(create_schema("t", true, &[col("a")]).unwrap_err(), "table \"t\" already exists");
    assert_eq!(create_schema("t", false, &[]).unwrap_err(), "CREATE TABLE requires at least one column");
    let five = [col("a"), col("b"), col("c"), col("d"), col("e")];
    assert_eq!(create_schema("t", false, &five).unwrap_err(), "too many columns (max 4)");
    assert_eq!(table_path("users"), "users.db");
    assert_eq!(no_such_table("x"), "table \"x\" does not exist");
}

#[test]
fn insert_checks_values() {
    let row = build_row(2, &[lit("7"), colref("alice"), lit("30")]).unwrap();
    assert_eq!(row.id(), 7);
    assert_eq!(row.value(0), "alice");
    assert_eq!(row.value(1), "30");
    assert_eq!(row.value(2), "");
    assert_eq!(
        build_row(2, &[lit("7")]).unwrap_err(),
        "expected 3 value(s) (id + 2 column(s)), got 1"
    );
    assert_eq!(build_row(1, &[lit("x"), lit("y")]).unwrap_err(), "id must be an integer, got \"x\"");
}

#[test]
fn select_all_columns() {
    let (schema, rows) = sample();
    let (headers, lines) = rows_of(select_rows(&schema, &["*".to_string()], &None, &rows));
    assert_eq!(headers, vec!["id", "name", "age"]);
    assert_eq!(lines.len(), 3);
    assert_eq!(lines[2], vec!["3", "carol", "100"]);
}

#[test]
fn select_named_columns_with_where() {
    let (schema, rows) = sample();
    let w = Some(cmp(">=", colref("age"), lit("30")));
    let (headers, lines) = rows_of(select_rows(&schema, &["age".to_string(), "name".to_string()], &w, &rows));
    assert_eq!(headers, vec!["id", "age", "name"]);
    assert_eq!(lines, vec![vec!["1", "30", "alice"], vec!["3", "100", "carol"]]);
}

#[test]
fn select_errors() {
    let (schema, rows) = sample();
    let r = select_rows(&schema, &["name".to_string(), "zip".to_string()], &None, &rows);
    assert_eq!(r.err().unwrap(), "unknown column \"zip\"");
    let w = Some(cmp("=", colref("zip"), lit("1")));
    let r = select_rows(&schema, &["*".to_string()], &w, &rows);
    assert_eq!(r.err().unwrap(), "unknown column \"zip\"");
    let w = Some(cmp("=", colref("zip"), lit("1")));
    let (_, lines) = rows_of(select_rows(&schema, &["*".to_string()], &w, &[]));
    assert!(lines.is_empty());
}

#[test]
fn statement_messages() {
    assert_eq!(statement_message(&Statement::Exit), Some("bye.".to_string()));
    assert_eq!(
        statement_message(&Statement::Help),
        Some("commands: CREATE TABLE, INSERT INTO, SELECT, .exit".to_string())
    );
    let st = parse("SELECT * FROM t").unwrap();
    assert!(statement_message(&st).is_none());
}

#[test]
fn report_lines_for_results() {
    assert_eq!(result_lines(&ExecuteResult::Created("t".to_string())), vec!["table \"t\" created."]);
    assert_eq!(result_lines(&ExecuteResult::Inserted), vec!["1 row inserted."]);
    assert_eq!(result_lines(&ExecuteResult::Message("bye.".to_string())), vec!["bye."]);
    let empty = ExecuteResult::Rows { headers: vec!["id".to_string()], rows: vec![] };
    assert_eq!(result_lines(&empty), vec!["(0 rows)"]);
    let table = ExecuteResult::Rows {
        headers: vec!["id".to_string(), "name".to_string()],
        rows: vec![
            vec!["1".to_string(), "alice".to_string()],
            vec!["22".to_string(), "bo".to_string()],
        ],
    };
    assert_eq!(
        result_lines(&table),
        vec![
            " id | name  ",
            "----+-------",
            " 1  | alice ",
            " 22 | bo    ",
            "(2 rows)",
        ]
    );
    let one = ExecuteResult::Rows { headers: vec!["id".to_string()], rows: vec![vec!["5".to_string()]] };
    assert_eq!(result_lines(&one), vec![" id ", "----", " 5  ", "(1 row)"]);
}

#[test]
fn opposite_operators_never_agree() {
    let (schema, rows) = sample();
    let pairs = [("=", "!="), ("<", ">="), (">", "<=")];
    for row in &rows {
        for (a, b) in pairs.iter() {
            for rhs in ["9", "30", "100", "bob", "alice"] {
                let x = eval_where(&cmp(a, colref("age"), lit(rhs)), row, &schema).unwrap();
                let y = eval_where(&cmp(b, colref("age"), lit(rhs)), row, &schema).unwrap();
                assert_ne!(x, y);
            }
        }
    }
}

#[test]
fn less_than_read_from_the_other_side() {
    let (schema, rows) = sample();
    for row in &rows {
        for rhs in ["9", "30", "100", "bob", "zed", "-3"] {
            let x = eval_where(&cmp("<", colref("age"), lit(rhs)), row, &schema).unwrap();
            let y = eval_where(&cmp(">", lit(rhs), colref("age")), row, &schema).unwrap();
            assert_eq!(x, y);
        }
    }
    assert!(matches!(cmp_vals("bob", "alice"), Ordering::Greater));
    assert!(matches!(cmp_vals("alice", "bob"), Ordering::Less));
}

fn wide_schema() -> Schema {
    // A stored schema whose column count is above the number of slots.
    let mut bytes = Schema::new(&["name", "age", "city", "zip"]).to_bytes();
    bytes[0] = 6;
    Schema::from_bytes(&bytes)
}

#[test]
fn select_on_a_wide_schema_within_its_slots() {
    let schema = wide_schema();
    assert_eq!(schema.num_cols(), 6);
    let rows = vec![Row::new(1, &["alice", "30", "paris", "75"]), Row::new(2, &["bob", "9", "rome", "00"])];
    let names = vec!["city".to_string(), "name".to_string()];
    let w = Some(cmp(">", colref("age"), lit("10")));
    assert!(select_within_slots(&schema, &names, &w));
    let (headers, out) = rows_of(select_rows(&schema, &names, &w, &rows));
    assert_eq!(headers, vec!["id", "city", "name"]);
    assert_eq!(out, vec![vec!["1".to_string(), "paris".to_string(), "alice".to_string()]]);
    assert!(!select_within_slots(&schema, &["*".to_string()], &None));
    assert!(!select_within_slots(&schema, &["height".to_string()], &None));
    let bad_where = Some(cmp("=", colref("height"), lit("1")));
    assert!(!select_within_slots(&schema, &names, &bad_where));
    let (_, sample_rows) = sample();
    let (small, _) = sample();
    assert!(select_within_slots(&small, &["*".to_string()], &None));
    assert!(select_within_slots(&small, &["height".to_string()], &bad_where));
    assert_eq!(sample_rows.len(), 3);
}
