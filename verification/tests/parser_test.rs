use sqldb::ast::{Ast, ExpressionKind, Statement, StatementKind};
use sqldb::lexer::{lex, Location, Token, TokenKind};
use sqldb::parser::{
    expect_token, parse, parse_column_defs, parse_create, parse_expression, parse_expressions,
    parse_insert, parse_select, parse_statement, parse_token,
};

fn tokens_of(source: &str) -> Vec<Token> {
    lex(&String::from(source)).unwrap()
}

fn pattern(literal: &str) -> Token {
    Token { literal: String::from(literal), token_kind: TokenKind::Symbol, loc: Location::new() }
}

fn literals_of(statement: &Statement) -> Vec<String> {
    match statement.kind {
        StatementKind::Create => {
            let c = statement.create.as_ref().unwrap();
            let mut v = vec![c.name.literal.clone()];
            for col in &c.cols {
                v.push(col.name.literal.clone());
                v.push(col.data_type.literal.clone());
            }
            v
        }
        StatementKind::Insert => {
            let i = statement.insert.as_ref().unwrap();
            let mut v = vec![i.table.literal.clone()];
            for e in &i.values {
                v.push(e.literal.literal.clone());
            }
            v
        }
        StatementKind::Select => {
            let s = statement.select.as_ref().unwrap();
            let mut v = vec![s.from.literal.clone()];
            for e in &s.items {
                v.push(e.literal.literal.clone());
            }
            v
        }
    }
}

fn shape(ast: &Ast) -> Vec<(StatementKind, Vec<String>)> {
    ast.statements.iter().map(|s| (s.kind, literals_of(s))).collect()
}

fn populated(statement: &Statement) -> (bool, bool, bool) {
    (statement.create.is_some(), statement.insert.is_some(), statement.select.is_some())
}

#[test]
fn test_parse() {
    if let Ok(tokens) = parse(String::from("select * from table")) {}
}

#[test]
fn parse_create_table() {
    let ast = parse(String::from("CREATE TABLE users(name text, age int);")).unwrap();
    assert_eq!(ast.statements.len(), 1);
    let statement = &ast.statements[0];
    assert_eq!(statement.kind, StatementKind::Create);
    assert_eq!(populated(statement), (true, false, false));
    let create = statement.create.as_ref().unwrap();
    assert_eq!(create.name.literal, "users");
    assert_eq!(create.name.token_kind, TokenKind::Identifier);
    assert_eq!(create.cols.len(), 2);
    assert_eq!(create.cols[0].name.literal, "name");
    assert_eq!(create.cols[0].data_type.literal, "text");
    assert_eq!(create.cols[0].data_type.token_kind, TokenKind::Keyword);
    assert_eq!(create.cols[1].name.literal, "age");
    assert_eq!(create.cols[1].data_type.literal, "int");
}

#[test]
fn parse_insert_values() {
    let ast = parse(String::from("INSERT INTO users VALUES ('nithin', 30);")).unwrap();
    assert_eq!(ast.statements.len(), 1);
    let statement = &ast.statements[0];
    assert_eq!(statement.kind, StatementKind::Insert);
    assert_eq!(populated(statement), (false, true, false));
    let insert = statement.insert.as_ref().unwrap();
    assert_eq!(insert.table.literal, "users");
    assert_eq!(insert.values.len(), 2);
    assert_eq!(insert.values[0].literal.literal, "'nithin'");
    assert_eq!(insert.values[0].literal.token_kind, TokenKind::String);
    assert_eq!(insert.values[0].kind, ExpressionKind::Literal);
    assert_eq!(insert.values[1].literal.literal, "30");
    assert_eq!(insert.values[1].literal.token_kind, TokenKind::Numeric);
}

#[test]
fn parse_select_with_and_without_from() {
    let ast = parse(String::from("select name, age from users; select 1, 'x';")).unwrap();
    assert_eq!(
        shape(&ast),
        vec![
            (
                StatementKind::Select,
                vec![String::from("users"), String::from("name"), String::from("age")]
            ),
            (StatementKind::Select, vec![String::new(), String::from("1"), String::from("'x'")]),
        ]
    );
    assert_eq!(populated(&ast.statements[0]), (false, false, true));
    let second = ast.statements[1].select.as_ref().unwrap();
    assert_eq!(second.from, Token::nil());
}

#[test]
fn statements_need_a_semicolon_between_them() {
    let none = parse(String::from("select a from t select b from t;"));
    assert_eq!(none.unwrap_err(), "Missing semicolon between statements");
    let last = parse(String::from("select a from t; select b from t"));
    assert_eq!(last.unwrap_err(), "Missing semicolon between statements");
    let one = parse(String::from("select a from t; select b from t;")).unwrap();
    let many = parse(String::from("select a from t;;; select b from t;;")).unwrap();
    assert_eq!(one.statements.len(), 2);
    assert_eq!(shape(&one), shape(&many));
}

#[test]
fn parse_reports_a_missing_statement() {
    assert_eq!(parse(String::from("select * from t;")).unwrap_err(), "Expected a statement");
    assert_eq!(parse(String::from(";")).unwrap_err(), "Expected a statement");
    assert_eq!(parse(String::from("insert users;")).unwrap_err(), "Expected a statement");
    assert_eq!(parse(String::from("create table t(a int;")).unwrap_err(), "Expected a statement");
    assert_eq!(parse(String::from("select a b;")).unwrap_err(), "Expected a statement");
}

#[test]
fn parse_passes_a_lex_error_on() {
    assert_eq!(
        parse(String::from("select ?")).unwrap_err(),
        "Unable to lex ' after select', at 7:7"
    );
}

#[test]
fn parse_of_nothing_is_empty() {
    assert!(parse(String::new()).unwrap().statements.is_empty());
    assert!(parse(String::from("  ")).unwrap().statements.is_empty());
}

#[test]
fn expect_token_compares_the_text() {
    let tokens = tokens_of("select a;");
    assert!(expect_token(&tokens, 0, pattern("select")));
    assert!(!expect_token(&tokens, 1, pattern("select")));
    assert!(expect_token(&tokens, 2, pattern(";")));
    assert!(!expect_token(&tokens, 3, pattern(";")));
}

#[test]
fn parse_token_checks_the_kind() {
    let tokens = tokens_of("select a;");
    let (token, next) = parse_token(&tokens, 1, TokenKind::Identifier).unwrap();
    assert_eq!(token, tokens[1]);
    assert_eq!(next, 2);
    assert!(parse_token(&tokens, 1, TokenKind::Keyword).is_err());
    assert!(parse_token(&tokens, 3, TokenKind::Identifier).is_err());
}

#[test]
fn an_expression_is_one_identifier_number_or_string() {
    let tokens = tokens_of("a 1 'x' select ,");
    for i in 0..3 {
        let (e, next) = parse_expression(&tokens, i).unwrap();
        assert_eq!(e.literal, tokens[i]);
        assert_eq!(e.kind, ExpressionKind::Literal);
        assert_eq!(next, i + 1);
    }
    assert!(parse_expression(&tokens, 3).is_err());
    assert!(parse_expression(&tokens, 4).is_err());
    assert!(parse_expression(&tokens, 5).is_err());
}

#[test]
fn a_list_of_expressions_stops_at_a_delimiter() {
    let tokens = tokens_of("a, 1, 'x' ) b");
    let (list, next) = parse_expressions(&tokens, 0, &vec![pattern(")")]).unwrap();
    assert_eq!(list.len(), 3);
    assert_eq!(list[2].literal.literal, "'x'");
    assert_eq!(next, 5);
    let (empty, next) = parse_expressions(&tokens, 5, &vec![pattern(";"), pattern(")")]).unwrap();
    assert!(empty.is_empty());
    assert_eq!(next, 5);
    assert!(parse_expressions(&tokens, 6, &vec![pattern(")")]).is_err());
    assert!(parse_expressions(&tokens_of("a b )"), 0, &vec![pattern(")")]).is_err());
    assert!(parse_expressions(&tokens_of(", a )"), 0, &vec![pattern(")")]).is_err());
    assert!(parse_expressions(&tokens_of("a, )"), 0, &vec![pattern(")")]).is_err());
}

#[test]
fn a_list_of_column_defs_stops_at_the_delimiter_or_the_end() {
    let tokens = tokens_of("a int, b text)");
    let (cols, next) = parse_column_defs(&tokens, 0, &pattern(")")).unwrap();
    assert_eq!(cols.len(), 2);
    assert_eq!(cols[1].name.literal, "b");
    assert_eq!(cols[1].data_type.literal, "text");
    assert_eq!(next, 5);
    let open = tokens_of("a select");
    let (cols, next) = parse_column_defs(&open, 0, &pattern(")")).unwrap();
    assert_eq!(cols.len(), 1);
    assert_eq!(cols[0].data_type.literal, "select");
    assert_eq!(next, 2);
    assert!(parse_column_defs(&tokens_of("a, b)"), 0, &pattern(")")).is_err());
    assert!(parse_column_defs(&tokens_of("a int b int)"), 0, &pattern(")")).is_err());
}

#[test]
fn each_statement_parser_knows_its_own_form() {
    let semicolon = pattern(";");
    let select = tokens_of("select a from t;");
    let insert = tokens_of("insert into t values (1);");
    let create = tokens_of("create table t (a int);");
    assert_eq!(parse_select(&select, 0, &semicolon).unwrap().1, 4);
    assert!(parse_select(&insert, 0, &semicolon).is_err());
    assert_eq!(parse_insert(&insert, 0, &semicolon).unwrap().1, 7);
    assert!(parse_insert(&create, 0, &semicolon).is_err());
    assert_eq!(parse_create(&create, 0, &semicolon).unwrap().1, 7);
    assert!(parse_create(&select, 0, &semicolon).is_err());
    for tokens in [&select, &insert, &create] {
        let (statement, next) = parse_statement(tokens, 0, pattern(";")).unwrap();
        assert_eq!(next, tokens.len() - 1);
        let (c, i, s) = populated(&statement);
        assert_eq!(c, statement.kind == StatementKind::Create);
        assert_eq!(i, statement.kind == StatementKind::Insert);
        assert_eq!(s, statement.kind == StatementKind::Select);
    }
}

#[test]
fn every_piece_of_an_insert_is_mandatory() {
    let semicolon = pattern(";");
    for source in [
        "insert t values (1);",
        "insert into values (1);",
        "insert into t (1);",
        "insert into t values 1);",
        "insert into t values (1;",
        "insert into t values (1",
    ] {
        assert!(parse_insert(&tokens_of(source), 0, &semicolon).is_err());
    }
    let (statement, _) = parse_insert(&tokens_of("insert into t values ()"), 0, &semicolon).unwrap();
    assert!(statement.insert.unwrap().values.is_empty());
}

#[test]
fn every_piece_of_a_create_is_mandatory() {
    let semicolon = pattern(";");
    for source in [
        "create t (a int);",
        "create table (a int);",
        "create table t a int);",
        "create table t (a int;",
        "create table t (a int",
        "create table t (a);",
    ] {
        assert!(parse_create(&tokens_of(source), 0, &semicolon).is_err());
    }
    let (statement, _) = parse_create(&tokens_of("create table t ()"), 0, &semicolon).unwrap();
    assert!(statement.create.unwrap().cols.is_empty());
}

#[test]
fn a_select_wants_a_table_behind_from() {
    let semicolon = pattern(";");
    assert!(parse_select(&tokens_of("select a from;"), 0, &semicolon).is_err());
    assert!(parse_select(&tokens_of("select a from 1;"), 0, &semicolon).is_err());
    assert!(parse_select(&tokens_of("select a"), 0, &semicolon).is_err());
    let (statement, next) = parse_select(&tokens_of("select;"), 0, &semicolon).unwrap();
    assert_eq!(next, 1);
    assert!(statement.select.unwrap().items.is_empty());
}
