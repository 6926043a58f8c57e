use mindb::parser::{parse, Expression, Statement};
use mindb::text::{parse_i64, trim_white_space};
use mindb::tokenizer::{TokenType, Tokenizer};

fn kinds(input: &str) -> Vec<(TokenType, String)> {
    let mut t = Tokenizer::new(input.to_string());
    t.tokenize().into_iter().map(|tok| (tok.token_type, tok.value)).collect()
}

#[test]
fn tokenize_splits_words_numbers_symbols_and_others() {
    let toks = kinds("SELECT name, 42 FROM t;");
    let expected = vec![
        (TokenType::Keyword, "SELECT"),
        (TokenType::Unknown, " "),
        (TokenType::Identifier, "name"),
        (TokenType::Symbol, ","),
        (TokenType::Unknown, " "),
        (TokenType::Number, "42"),
        (TokenType::Unknown, " "),
        (TokenType::Keyword, "FROM"),
        (TokenType::Unknown, " "),
        (TokenType::Identifier, "t"),
        (TokenType::Symbol, ";"),
    ];
    assert_eq!(toks.len(), expected.len());
    for (got, want) in toks.iter().zip(expected.iter()) {
        assert_eq!(got.0, want.0);
        assert_eq!(got.1, want.1);
    }
}

#[test]
fn keywords_are_recognised_in_any_case() {
    let toks = kinds("select From wHeRe");
    assert_eq!(toks[0].0, TokenType::Keyword);
    assert_eq!(toks[2].0, TokenType::Keyword);
    assert_eq!(toks[4].0, TokenType::Keyword);
    assert_eq!(toks[4].1, "wHeRe");
}

#[test]
fn get_next_token_walks_the_input() {
    let mut t = Tokenizer::new("ab 1".to_string());
    let a = t.get_next_token().unwrap();
    assert_eq!(a.token_type, TokenType::Identifier);
    assert_eq!(a.value, "ab");
    let b = t.get_next_token().unwrap();
    assert_eq!(b.token_type, TokenType::Unknown);
    let c = t.get_next_token().unwrap();
    assert_eq!(c.token_type, TokenType::Number);
    assert!(t.get_next_token().is_none());
}

#[test]
fn parse_exit_and_help_words() {
    assert!(matches!(parse("  .EXIT  "), Ok(Statement::Exit)));
    assert!(matches!(parse("exit"), Ok(Statement::Exit)));
    assert!(matches!(parse(".help"), Ok(Statement::Help)));
    assert!(matches!(parse("HELP"), Ok(Statement::Help)));
    assert!(matches!(parse("EXIT;"), Ok(Statement::Exit)));
}

#[test]
fn parse_create_table_statement() {
    match parse("CREATE TABLE users (name text, age int)") {
        Ok(Statement::CreateTable { table, columns }) => {
            assert_eq!(table, "users");
            assert_eq!(columns.len(), 2);
            assert_eq!(columns[0].name, "name");
            assert_eq!(columns[0].col_type, "TEXT");
            assert_eq!(columns[1].name, "age");
            assert_eq!(columns[1].col_type, "INT");
        }
        other => panic!("unexpected {:?}", other),
    }
}

#[test]
fn parse_insert_statement() {
    match parse("INSERT INTO users VALUES (1, alice, 30)") {
        Ok(Statement::Insert { table, values }) => {
            assert_eq!(table, "users");
            assert_eq!(values.len(), 3);
            assert!(matches!(&values[0], Expression::Literal(s) if s == "1"));
            assert!(matches!(&values[1], Expression::ColumnRef(s) if s == "alice"));
            assert!(matches!(&values[2], Expression::Literal(s) if s == "30"));
        }
        other => panic!("unexpected {:?}", other),
    }
}

#[test]
fn parse_select_star_with_where() {
    match parse("SELECT * FROM users WHERE age >= 18 AND name != bob") {
        Ok(Statement::Select { columns, table, where_clause }) => {
            assert_eq!(columns, vec!["*".to_string()]);
            assert_eq!(table, "users");
            match where_clause {
                Some(Expression::And(l, r)) => {
                    match *l {
                        Expression::BinaryOp { op, left, right } => {
                            assert_eq!(op, ">=");
                            assert!(matches!(*left, Expression::ColumnRef(ref s) if s == "age"));
                            assert!(matches!(*right, Expression::Literal(ref s) if s == "18"));
                        }
                        other => panic!("unexpected {:?}", other),
                    }
                    match *r {
                        Expression::BinaryOp { op, .. } => assert_eq!(op, "!="),
                        other => panic!("unexpected {:?}", other),
                    }
                }
                other => panic!("unexpected {:?}", other),
            }
        }
        other => panic!("unexpected {:?}", other),
    }
}

#[test]
fn parse_select_named_columns_without_where() {
    match parse("select name, age from users") {
        Ok(Statement::Select { columns, table, where_clause }) => {
            assert_eq!(columns, vec!["name".to_string(), "age".to_string()]);
            assert_eq!(table, "users");
            assert!(where_clause.is_none());
        }
        other => panic!("unexpected {:?}", other),
    }
}

#[test]
fn parse_and_or_group_to_the_left() {
    match parse("SELECT * FROM t WHERE a = 1 OR b = 2 AND c = 3") {
        Ok(Statement::Select { where_clause: Some(Expression::And(l, _)), .. }) => {
            assert!(matches!(*l, Expression::Or(_, _)));
        }
        other => panic!("unexpected {:?}", other),
    }
}

#[test]
fn parse_errors_name_the_token() {
    assert_eq!(parse("").unwrap_err(), "Parse error at token 0: empty input");
    assert_eq!(
        parse("TABLE x").unwrap_err(),
        "Parse error at token 0: unknown keyword 'TABLE'"
    );
    assert_eq!(
        parse("users").unwrap_err(),
        "Parse error at token 0: expected SQL statement, got 'users'"
    );
    assert_eq!(
        parse("SELECT * users").unwrap_err(),
        "Parse error at token 4: expected keyword 'FROM', got 'users'"
    );
    assert_eq!(
        parse("INSERT INTO t VALUES (1").unwrap_err(),
        "Parse error at token 10: unexpected end inside VALUES list"
    );
    assert_eq!(
        parse("CREATE TABLE t (a").unwrap_err(),
        "Parse error at token 8: expected column type"
    );
    assert_eq!(
        parse("SELECT * FROM t WHERE = 1").unwrap_err(),
        "Parse error at token 10: unexpected symbol '='"
    );
}

#[test]
fn trim_removes_unicode_white_space() {
    assert_eq!(trim_white_space("\u{a0}\t select \n"), "select");
    assert_eq!(trim_white_space("   "), "");
}

#[test]
fn parse_i64_follows_rust_rules() {
    assert_eq!(parse_i64("42"), Some(42));
    assert_eq!(parse_i64("-7"), Some(-7));
    assert_eq!(parse_i64("+5"), Some(5));
    assert_eq!(parse_i64("9223372036854775807"), Some(i64::MAX));
    assert_eq!(parse_i64("-9223372036854775808"), Some(i64::MIN));
    assert_eq!(parse_i64("9223372036854775808"), None);
    assert_eq!(parse_i64(""), None);
    assert_eq!(parse_i64("-"), None);
    assert_eq!(parse_i64("1a"), None);
}

#[test]
fn tokens_spell_the_input_back() {
    for input in ["SELECT name, 42 FROM t;", "  a<=b  AND c!=\"x y\"", "", "x9 #? 12ab"] {
        let mut t = Tokenizer::new(input.to_string());
        let joined: String = t.tokenize().into_iter().map(|tok| tok.value).collect();
        assert_eq!(joined, input);
    }
}

#[test]
fn get_next_token_reads_only_what_it_needs() {
    let mut t = Tokenizer::new("12!\u{e9}".to_string());
    let a = t.get_next_token().unwrap();
    assert_eq!(a.token_type, TokenType::Number);
    assert_eq!(a.value, "12");
    let c = t.get_next_token().unwrap();
    assert_eq!(c.token_type, TokenType::Symbol);
    assert_eq!(c.value, "!");
    let mut s = Tokenizer::new("!\u{e9}".to_string());
    let b = s.get_next_token().unwrap();
    assert_eq!(b.token_type, TokenType::Symbol);
    assert_eq!(b.value, "!");
}

#[test]
fn get_next_token_beyond_ascii() {
    let mut t = Tokenizer::new("1\u{e9}".to_string());
    let a = t.get_next_token().unwrap();
    assert_eq!(a.token_type, TokenType::Number);
    assert_eq!(a.value, "1");
    let mut u = Tokenizer::new("\u{20ac}!".to_string());
    let b = u.get_next_token().unwrap();
    assert_eq!(b.token_type, TokenType::Unknown);
    assert_eq!(b.value, "\u{20ac}");
    let c = u.get_next_token().unwrap();
    assert_eq!(c.token_type, TokenType::Symbol);
    let mut w = Tokenizer::new("a\u{20ac}".to_string());
    let d = w.collect_identifier().unwrap();
    assert_eq!(d.token_type, TokenType::Identifier);
    assert_eq!(d.value, "a");
}
