use sqldb::ast::{Ast, Create, Insert, Select, StatementKind};
use sqldb::lexer::{Location, Token, TokenKind};
use sqldb::mem_backend::{
    encode_literal, parse_int, token_to_cell, Backend, Cell, ColumnType, MemCell, MemoryBackend,
    SQLError, Table,
};
use sqldb::parser::parse;

fn ast_of(source: &str) -> Ast {
    parse(String::from(source)).unwrap()
}

fn create_of(source: &str) -> Create {
    ast_of(source).statements.remove(0).create.unwrap()
}

fn insert_of(source: &str) -> Insert {
    ast_of(source).statements.remove(0).insert.unwrap()
}

fn select_of(source: &str) -> Select {
    ast_of(source).statements.remove(0).select.unwrap()
}

fn token(literal: &str, token_kind: TokenKind) -> Token {
    Token { literal: String::from(literal), token_kind, loc: Location::new() }
}

fn users() -> MemoryBackend {
    let mut mb = MemoryBackend::new();
    assert!(mb.create(&create_of("CREATE TABLE users(name text, age int);")).is_ok());
    mb
}

#[test]
fn test_as_text() {
    let mc: MemCell = [72, 101, 108, 108, 111].to_vec(); // ASCII for "Hello"
    assert_eq!(mc.as_text(), String::from("Hello"));
}

#[test]
fn test_as_int() {
    let number: i32 = -32;
    let bytes = number.to_le_bytes();
    let mc: MemCell = bytes.to_vec();
    assert_eq!(-32, mc.as_int());
}

#[test]
fn create_insert_select() {
    let mut mb = MemoryBackend::new();
    let ast = ast_of(
        "CREATE TABLE users(name text, age int); INSERT INTO users VALUES ('nithin', 30); select name, age from users;",
    );
    assert_eq!(ast.statements.len(), 3);
    assert_eq!(ast.statements[0].kind, StatementKind::Create);
    assert!(mb.create(ast.statements[0].create.as_ref().unwrap()).is_ok());
    assert!(mb.insert(ast.statements[1].insert.as_ref().unwrap()).is_ok());
    let results = mb.select(ast.statements[2].select.as_ref().unwrap()).unwrap();
    assert_eq!(results.columns.len(), 2);
    assert_eq!(results.columns[0].col_name, "name");
    assert_eq!(results.columns[0].col_type, ColumnType::TextType);
    assert_eq!(results.columns[1].col_name, "age");
    assert_eq!(results.columns[1].col_type, ColumnType::IntType);
    assert_eq!(results.rows.len(), 1);
    assert_eq!(results.rows[0].len(), 2);
    assert_eq!(results.rows[0][0].as_text(), "'nithin'");
    assert_eq!(results.rows[0][1].as_int(), 30);
    assert_eq!(results.rows[0][1], vec![30u8, 0, 0, 0]);
}

#[test]
fn select_projects_in_the_order_asked_for() {
    let mut mb = users();
    assert!(mb.insert(&insert_of("insert into users values ('a', 1);")).is_ok());
    assert!(mb.insert(&insert_of("insert into users values ('b', 258);")).is_ok());
    let results = mb.select(&select_of("select age, name, age from users;")).unwrap();
    assert_eq!(results.columns.len(), 3);
    assert_eq!(results.columns[0].col_name, "age");
    assert_eq!(results.columns[1].col_type, ColumnType::TextType);
    assert_eq!(
        results.rows,
        vec![
            vec![vec![1u8, 0, 0, 0], b"'a'".to_vec(), vec![1u8, 0, 0, 0]],
            vec![vec![2u8, 1, 0, 0], b"'b'".to_vec(), vec![2u8, 1, 0, 0]],
        ]
    );
}

#[test]
fn create_keeps_names_and_types_paired() {
    let mb = users();
    assert_eq!(mb.tables.len(), 1);
    let table = &mb.tables[0];
    assert_eq!(table.name, "users");
    assert_eq!(table.columns, vec![String::from("name"), String::from("age")]);
    assert_eq!(table.column_types, vec![ColumnType::TextType, ColumnType::IntType]);
    assert!(table.rows.is_empty());
}

#[test]
fn create_refuses_a_taken_name() {
    let mut mb = users();
    let again = mb.create(&create_of("create table users(id int);"));
    assert_eq!(again, Err(SQLError::TableAlreadyExists(String::from("users"))));
    assert_eq!(mb.tables.len(), 1);
    assert_eq!(mb.tables[0].columns.len(), 2);
    assert!(mb.create(&create_of("create table others(id int);")).is_ok());
    assert_eq!(mb.tables.len(), 2);
}

#[test]
fn create_refuses_an_unknown_type() {
    let mut mb = MemoryBackend::new();
    let create = Create {
        name: token("t", TokenKind::Identifier),
        cols: vec![
            sqldb::ast::ColDefinition {
                name: token("a", TokenKind::Identifier),
                data_type: token("int", TokenKind::Keyword),
            },
            sqldb::ast::ColDefinition {
                name: token("b", TokenKind::Identifier),
                data_type: token("float", TokenKind::Keyword),
            },
        ],
    };
    assert_eq!(mb.create(&create), Err(SQLError::InvalidDataType(String::from("float"))));
    assert!(mb.tables.is_empty());
    let results = mb.select(&select_of("select a from t;"));
    assert!(matches!(results, Err(SQLError::TableDoesNotExist(name)) if name == "t"));
    let keyword = mb.create(&create_of("create table t(a values);"));
    assert_eq!(keyword, Err(SQLError::InvalidDataType(String::from("values"))));
    assert!(mb.tables.is_empty());
}

#[test]
fn insert_wants_one_value_per_column() {
    let mut mb = users();
    assert!(mb.insert(&insert_of("insert into users values ('a', 1);")).is_ok());
    for source in [
        "insert into users values ('b');",
        "insert into users values ('b', 2, 3);",
        "insert into users values ();",
    ] {
        assert_eq!(mb.insert(&insert_of(source)), Err(SQLError::MissingValues));
        assert_eq!(mb.tables[0].rows.len(), 1);
    }
}

#[test]
fn insert_wants_the_table() {
    let mut mb = users();
    let r = mb.insert(&insert_of("insert into nobody values ('a', 1);"));
    assert_eq!(r, Err(SQLError::TableDoesNotExist(String::from("nobody"))));
    assert!(mb.tables[0].rows.is_empty());
}

#[test]
fn insert_refuses_a_number_that_is_no_32_bit_integer() {
    let mut mb = users();
    let r = mb.insert(&insert_of("insert into users values ('a', 2147483648);"));
    assert_eq!(r, Err(SQLError::InvalidDataType(String::from("2147483648"))));
    assert!(mb.tables[0].rows.is_empty());
    assert!(mb.insert(&insert_of("insert into users values ('a', 2147483647);")).is_ok());
    assert_eq!(mb.tables[0].rows[0][1].as_int(), i32::MAX);
}

#[test]
fn insert_stores_by_the_kind_of_the_literal() {
    let mut mb = users();
    assert!(mb.insert(&insert_of("insert into users values (7, 'seven');")).is_ok());
    assert_eq!(mb.tables[0].rows[0][0], vec![7u8, 0, 0, 0]);
    assert_eq!(mb.tables[0].rows[0][1], b"'seven'".to_vec());
    assert!(mb.insert(&insert_of("insert into users values (name, \"Age\");")).is_ok());
    assert_eq!(mb.tables[0].rows[1][0].as_text(), "name");
    assert_eq!(mb.tables[0].rows[1][1].as_text(), "\"Age\"");
}

#[test]
fn select_wants_the_table_and_the_columns() {
    let mut mb = users();
    let r = mb.select(&select_of("select name from nobody;"));
    assert!(matches!(r, Err(SQLError::TableDoesNotExist(name)) if name == "nobody"));
    let r = mb.select(&select_of("select name;"));
    assert!(matches!(r, Err(SQLError::TableDoesNotExist(name)) if name.is_empty()));
    assert!(mb.insert(&insert_of("insert into users values ('a', 1);")).is_ok());
    let r = mb.select(&select_of("select name, height, width from users;"));
    assert!(matches!(r, Err(SQLError::ColumnDoesNotExist(name)) if name == "height"));
    let r = mb.select(&select_of("select 1 from users;"));
    assert!(matches!(r, Err(SQLError::ColumnDoesNotExist(name)) if name == "1"));
    let r = mb.select(&select_of("select 'name' from users;"));
    assert!(matches!(r, Err(SQLError::ColumnDoesNotExist(name)) if name == "'name'"));
}

#[test]
fn select_from_a_table_without_rows_is_empty() {
    let mb = users();
    let results = mb.select(&select_of("select name, height from users;")).unwrap();
    assert!(results.columns.is_empty());
    assert!(results.rows.is_empty());
}

#[test]
fn select_of_nothing_yields_empty_rows() {
    let mut mb = users();
    assert!(mb.insert(&insert_of("insert into users values ('a', 1);")).is_ok());
    let results = mb.select(&select_of("select from users;")).unwrap();
    assert!(results.columns.is_empty());
    assert_eq!(results.rows, vec![Vec::<MemCell>::new()]);
}

#[test]
fn integers_come_back_from_their_cells() {
    for v in [0i32, 1, -1, 30, 255, 256, -32, 65536, i32::MAX, i32::MIN, 0x12345678] {
        let cell = token_to_cell(token(&v.to_string(), TokenKind::Numeric));
        assert_eq!(cell, v.to_le_bytes().to_vec());
        assert_eq!(cell.as_int(), v);
    }
    assert_eq!(token_to_cell(token("0x", TokenKind::String)), b"0x".to_vec());
}

#[test]
fn texts_come_back_from_their_cells() {
    for text in ["", "'nithin'", "héllo wörld", "日本語", "a\nb"] {
        for kind in [TokenKind::String, TokenKind::Identifier, TokenKind::Keyword] {
            let cell = token_to_cell(token(text, kind));
            assert_eq!(cell, text.as_bytes().to_vec());
            assert_eq!(cell.as_text(), text);
        }
    }
}

#[test]
fn parse_int_reads_signed_decimals() {
    assert_eq!(parse_int(&String::from("0")), Some(0));
    assert_eq!(parse_int(&String::from("007")), Some(7));
    assert_eq!(parse_int(&String::from("+12")), Some(12));
    assert_eq!(parse_int(&String::from("-12")), Some(-12));
    assert_eq!(parse_int(&String::from("2147483647")), Some(i32::MAX));
    assert_eq!(parse_int(&String::from("-2147483648")), Some(i32::MIN));
    assert_eq!(parse_int(&String::from("00000000000002147483647")), Some(i32::MAX));
    for bad in ["", "-", "+", "2147483648", "-2147483649", "99999999999999999999999", "1a", "a", " 1", "1 ", "--1", "١"] {
        assert_eq!(parse_int(&String::from(bad)), None);
    }
}

#[test]
fn encode_literal_says_when_a_number_has_no_cell() {
    assert_eq!(encode_literal(&token("12", TokenKind::Numeric)), Some(vec![12u8, 0, 0, 0]));
    assert_eq!(encode_literal(&token("12x", TokenKind::Numeric)), None);
    assert_eq!(encode_literal(&token("12x", TokenKind::String)), Some(b"12x".to_vec()));
}

#[test]
fn errors_as_text() {
    assert_eq!(
        SQLError::TableDoesNotExist(String::from("t")).to_string(),
        "Table does not exists: t"
    );
    assert_eq!(
        SQLError::TableAlreadyExists(String::from("t")).to_string(),
        "Table already exists: t"
    );
    assert_eq!(
        SQLError::ColumnDoesNotExist(String::from("c")).to_string(),
        "Column does not exists: c"
    );
    assert_eq!(SQLError::InvalidDataType(String::from("x")).to_string(), "Invalid data type: x");
    assert_eq!(SQLError::MissingValues.to_string(), "Missing values");
}

#[test]
fn a_new_table_is_empty() {
    let table = Table::new();
    assert!(table.name.is_empty());
    assert!(table.columns.is_empty());
    assert!(table.column_types.is_empty());
    assert!(table.rows.is_empty());
    assert!(MemoryBackend::new().tables.is_empty());
}

#[test]
fn engines_do_not_share_tables() {
    let mut one = users();
    let two = MemoryBackend::new();
    assert!(one.insert(&insert_of("insert into users values ('a', 1);")).is_ok());
    assert!(matches!(
        two.select(&select_of("select name from users;")),
        Err(SQLError::TableDoesNotExist(_))
    ));
}
