use sqldb::lexer::{
    lex, lex_char_delimited, lex_identifier, lex_keyword, lex_numeric, lex_string, lex_symbols,
    longest_match, Cursor, Keyword, Location, Symbol, Token, TokenKind,
};
use std::collections::HashMap;
use std::ops::Index;

fn start() -> Cursor {
    Cursor { pos: 0, loc: Location { col: 0, line: 0 } }
}

fn at(pos: u32) -> Cursor {
    Cursor { pos, loc: Location { col: pos, line: 0 } }
}

fn token(literal: &str, token_kind: TokenKind, col: u32, line: u32) -> Token {
    Token { literal: String::from(literal), token_kind, loc: Location { col, line } }
}

#[test]
fn test_lex_string() {
    let tests = HashMap::from([
        (String::from("'Hello'"), true),
        (String::from("'Hello ''asdf there'"), true),
        (String::from("'a '' b'"), true),
        //failure cases
        (String::from("a"), false),
        (String::from("'Hello"), false),
        (String::from("'"), false),
        (String::new(), false),
        (String::from(" 'foo'"), false),
    ]);

    for t in tests {
        let lex_res = lex_string(
            &t.0,
            &mut Cursor {
                pos: 0,
                loc: Location { col: 0, line: 0 },
            },
        );

        assert_eq!(lex_res.is_ok(), t.1);
    }
}

#[test]
fn test_longest_match() {
    let options = vec![
        String::from("int"),
        String::from("into"),
        String::from("in"),
        String::from("select"),
    ];
    let cursor_in = Cursor {
        pos: 0,
        loc: Location { col: 0, line: 0 },
    };

    let tests = HashMap::from([
        (String::from("into"), String::from("into")),
        (String::from("sel"), String::new()),
        (String::from("Select"), String::from("select")),
    ]);

    for t in tests {
        let res_match = longest_match(&t.0, cursor_in.clone(), options.clone());
        assert_eq!(res_match, t.1);
    }
}

#[test]
fn test_lex_keyword() {
    let tests = HashMap::from([
        (
            String::from("ukasdnf"),
            Err(String::from("No keyword found")),
        ),
        (
            String::from("select"),
            Ok(Token {
                literal: String::from("select"),
                token_kind: TokenKind::Keyword,
                loc: Location { col: 0, line: 0 },
            }),
        ),
        (String::new(), Err(String::from("No keyword found"))),
    ]);

    for t in tests {
        println!("Testing: {}", t.0);
        let lex_res = lex_keyword(
            &String::from(t.0),
            &mut Cursor {
                pos: 0,
                loc: Location { line: 0, col: 0 },
            },
        );

        assert_eq!(t.1.is_ok(), lex_res.is_ok());
    }
}

#[test]
fn test_lex() {
    let tests = HashMap::from([
        (
            String::from("select from 'lmao'"),
            vec![
                Token {
                    literal: String::from("select"),
                    token_kind: TokenKind::Keyword,
                    loc: Location { col: 0, line: 0 },
                },
                Token {
                    literal: String::from("from"),
                    token_kind: TokenKind::Keyword,
                    loc: Location { col: 7, line: 0 },
                },
                Token {
                    literal: String::from("'lmao'"),
                    token_kind: TokenKind::String,
                    loc: Location { col: 12, line: 0 },
                },
            ],
        ),
        (
            String::from("123 'xx''d' values"),
            vec![
                Token {
                    literal: String::from("123"),
                    token_kind: TokenKind::Numeric,
                    loc: Location { col: 0, line: 0 },
                },
                Token {
                    literal: String::from("'xx''d'"),
                    token_kind: TokenKind::String,
                    loc: Location { col: 4, line: 0 },
                },
                Token {
                    literal: String::from("values"),
                    token_kind: TokenKind::Keyword,
                    loc: Location { col: 12, line: 0 },
                },
            ],
        ),
        (
            String::from("'lmao' insert into values ram"),
            vec![
                Token {
                    literal: String::from("'lmao'"),
                    token_kind: TokenKind::String,
                    loc: Location { col: 0, line: 0 },
                },
                Token {
                    literal: String::from("insert"),
                    token_kind: TokenKind::Keyword,
                    loc: Location { col: 7, line: 0 },
                },
                Token {
                    literal: String::from("into"),
                    token_kind: TokenKind::Keyword,
                    loc: Location { col: 14, line: 0 },
                },
                Token {
                    literal: String::from("values"),
                    token_kind: TokenKind::Keyword,
                    loc: Location { col: 19, line: 0 },
                },
                Token {
                    literal: String::from("ram"),
                    token_kind: TokenKind::Identifier,
                    loc: Location { col: 26, line: 0 },
                },
            ],
        ),
    ]);

    for t in tests {
        println!("Testing source: {}", t.0);
        let lex_res = lex(&t.0);
        if lex_res.is_err() {
            println!("{}", lex_res.clone().unwrap_err());
        }
        assert!(lex_res.is_ok());

        let l = lex_res.unwrap().clone();
        assert_eq!(t.1.len(), l.len());

        for (i, tok) in l.iter().enumerate() {
            assert_eq!(t.1.index(i), tok);
        }
    }
}

#[test]
fn test_lex_identifier() {
    let tests: HashMap<String, Result<Token, String>> = HashMap::from([
        (
            String::from("\"there\""),
            Ok(Token {
                literal: "\"there\"".to_string(),
                token_kind: TokenKind::String,
                loc: Location { col: 0, line: 0 },
            }),
        ),
        (
            String::from("there"),
            Ok(Token {
                literal: "there".to_string(),
                token_kind: TokenKind::Identifier,
                loc: Location { col: 0, line: 0 },
            }),
        ),
    ]);

    for t in tests {
        let res = lex_identifier(
            &t.0,
            &mut Cursor {
                pos: 0,
                loc: Location { col: 0, line: 0 },
            },
        );

        assert!(res.is_ok());

        assert_eq!(t.1, res);
    }
}

#[test]
fn longest_match_prefers_into_over_int() {
    let options = vec![String::from("int"), String::from("into")];
    assert_eq!(longest_match(&String::from("INTO"), start(), options.clone()), "into");
    assert_eq!(longest_match(&String::from("INT("), start(), options.clone()), "int");
    assert_eq!(longest_match(&String::from("in"), start(), options.clone()), "");
    assert_eq!(longest_match(&String::from("xxinto"), at(2), options), "into");
}

#[test]
fn longest_match_returns_the_candidate_as_it_is_spelled() {
    let options = vec![String::from("Int"), String::from("int")];
    assert_eq!(longest_match(&String::from("iNT"), start(), options), "Int");
}

#[test]
fn longest_match_passes_over_an_empty_candidate() {
    let options = vec![String::new(), String::from("a")];
    assert_eq!(longest_match(&String::from("abc"), start(), options), "a");
    assert_eq!(longest_match(&String::from("abc"), at(3), vec![String::from("a")]), "");
    assert_eq!(longest_match(&String::from("abc"), at(9), vec![String::from("a")]), "");
}

#[test]
fn doubled_quotes_do_not_end_a_string() {
    let source = String::from("'a ''b''' x");
    let mut cur = start();
    let tok = lex_string(&source, &mut cur).unwrap();
    assert_eq!(tok, token("'a ''b'''", TokenKind::String, 0, 0));
    assert_eq!(cur, at(9));
}

#[test]
fn a_string_ends_at_the_first_single_quote() {
    let source = String::from("'ab'cd'");
    let mut cur = start();
    let tok = lex_string(&source, &mut cur).unwrap();
    assert_eq!(tok.literal, "'ab'");
    assert_eq!(cur.pos, 4);
}

#[test]
fn an_unterminated_string_leaves_the_cursor() {
    let source = String::from("x 'abc''");
    let mut cur = at(2);
    assert!(lex_string(&source, &mut cur).is_err());
    assert_eq!(cur, at(2));
    assert!(lex_char_delimited(&source, &mut cur, '"').is_err());
    assert_eq!(cur, at(2));
}

#[test]
fn numeric_takes_the_whole_run_of_digits() {
    let source = String::from("x 0123a");
    let mut cur = at(2);
    let tok = lex_numeric(&source, &mut cur).unwrap();
    assert_eq!(tok, token("0123", TokenKind::Numeric, 2, 0));
    assert_eq!(cur, at(6));
    assert!(lex_numeric(&source, &mut cur).is_err());
    assert_eq!(cur, at(6));
    let mut end = at(7);
    assert!(lex_numeric(&source, &mut end).is_err());
    assert_eq!(end, at(7));
}

#[test]
fn keyword_is_found_in_any_case() {
    let source = String::from("SeLeCt");
    let mut cur = start();
    let tok = lex_keyword(&source, &mut cur).unwrap();
    assert_eq!(tok, token("select", TokenKind::Keyword, 0, 0));
    assert_eq!(cur, at(6));
}

#[test]
fn a_symbol_takes_one_character() {
    let source = String::from("(a");
    let mut cur = start();
    let tok = lex_symbols(&source, &mut cur).unwrap();
    assert_eq!(tok, token("(", TokenKind::Symbol, 0, 0));
    assert_eq!(cur, at(1));
    assert!(lex_symbols(&source, &mut cur).is_err());
    assert_eq!(cur, at(1));
}

#[test]
fn a_space_is_a_nil_token() {
    let source = String::from(" a");
    let mut cur = start();
    let tok = lex_symbols(&source, &mut cur).unwrap();
    assert_eq!(tok, token(" ", TokenKind::Nil, 0, 0));
    assert_eq!(cur, at(1));
}

#[test]
fn a_line_break_starts_a_new_line() {
    let source = String::from("ab\ncd");
    let mut cur = at(2);
    let tok = lex_symbols(&source, &mut cur).unwrap();
    assert_eq!(tok.token_kind, TokenKind::Nil);
    assert_eq!(cur, Cursor { pos: 3, loc: Location { col: 0, line: 1 } });
    let tokens = lex(&String::from("select a\nfrom t;")).unwrap();
    assert_eq!(
        tokens,
        vec![
            token("select", TokenKind::Keyword, 0, 0),
            token("a", TokenKind::Identifier, 7, 0),
            token("from", TokenKind::Keyword, 0, 1),
            token("t", TokenKind::Identifier, 5, 1),
            token(";", TokenKind::Symbol, 6, 1),
        ]
    );
}

#[test]
fn identifiers_are_lower_cased_and_quoted_ones_are_not() {
    let source = String::from("User_Name$1 x");
    let mut cur = start();
    let tok = lex_identifier(&source, &mut cur).unwrap();
    assert_eq!(tok, token("user_name$1", TokenKind::Identifier, 0, 0));
    assert_eq!(cur, at(11));
    let quoted = String::from("\"User\"");
    let mut cur = start();
    let tok = lex_identifier(&quoted, &mut cur).unwrap();
    assert_eq!(tok, token("\"User\"", TokenKind::String, 0, 0));
}

#[test]
fn an_identifier_starts_with_a_letter() {
    for source in ["1a", "_a", "$a", "", " a"] {
        let mut cur = start();
        assert!(lex_identifier(&String::from(source), &mut cur).is_err());
        assert_eq!(cur, start());
    }
    let mut cur = start();
    let tok = lex_identifier(&String::from("a1_"), &mut cur).unwrap();
    assert_eq!(tok.literal, "a1_");
}

#[test]
fn lex_drops_spaces_and_keeps_order() {
    let tokens = lex(&String::from("CREATE TABLE users(name text, age int);")).unwrap();
    let literals: Vec<&str> = tokens.iter().map(|t| t.literal.as_str()).collect();
    assert_eq!(
        literals,
        vec!["create", "table", "users", "(", "name", "text", ",", "age", "int", ")", ";"]
    );
    assert_eq!(tokens[3], token("(", TokenKind::Symbol, 18, 0));
    assert_eq!(tokens[4], token("name", TokenKind::Identifier, 19, 0));
    assert!(lex(&String::new()).unwrap().is_empty());
    assert!(lex(&String::from("   ")).unwrap().is_empty());
}

#[test]
fn lex_fails_as_a_whole_and_names_the_place() {
    assert_eq!(
        lex(&String::from("select ?")),
        Err(String::from("Unable to lex ' after select', at 7:7"))
    );
    assert_eq!(lex(&String::from("?")), Err(String::from("Unable to lex '', at 0:0")));
    assert_eq!(
        lex(&String::from("a\n 'x")),
        Err(String::from("Unable to lex ' after a', at 3:1"))
    );
    assert_eq!(
        lex(&String::from("select 1234567890123 -")),
        Err(String::from("Unable to lex ' after 1234567890123', at 21:21"))
    );
}

#[test]
fn keyword_and_symbol_texts() {
    assert_eq!(Keyword::Select.to_string(), "select");
    assert_eq!(Keyword::From.to_string(), "from");
    assert_eq!(Keyword::As.to_string(), "as");
    assert_eq!(Keyword::Table.to_string(), "table");
    assert_eq!(Keyword::Create.to_string(), "create");
    assert_eq!(Keyword::Insert.to_string(), "insert");
    assert_eq!(Keyword::Into.to_string(), "into");
    assert_eq!(Keyword::Values.to_string(), "values");
    assert_eq!(Keyword::Int.to_string(), "int");
    assert_eq!(Keyword::Text.to_string(), "text");
    assert_eq!(Symbol::Semicolon.to_string(), ";");
    assert_eq!(Symbol::Asterisk.to_string(), "*");
    assert_eq!(Symbol::Comma.to_string(), ",");
    assert_eq!(Symbol::LeftParen.to_string(), "(");
    assert_eq!(Symbol::RightParen.to_string(), ")");
}

#[test]
fn the_nil_token_is_empty() {
    assert_eq!(Token::nil(), token("", TokenKind::Nil, 0, 0));
    assert_eq!(Location::new(), Location { col: 0, line: 0 });
    assert_eq!(Cursor::new(), start());
}

#[test]
fn each_recognizer_says_what_it_missed() {
    let source = String::from("? 'open");
    let mut cur = start();
    assert_eq!(lex_keyword(&source, &mut cur), Err(String::from("No keyword found")));
    assert_eq!(lex_symbols(&source, &mut cur), Err(String::from("Not found")));
    assert_eq!(lex_numeric(&source, &mut cur), Err(String::from("Not a digit")));
    assert_eq!(lex_string(&source, &mut cur), Err(String::from("Invalid string literal")));
    assert_eq!(lex_identifier(&source, &mut cur), Err(String::from("Not an identifier")));
    assert_eq!(cur, start());
    let mut open = at(2);
    assert_eq!(lex_string(&source, &mut open), Err(String::from("Invalid string")));
    let mut end = at(7);
    assert_eq!(lex_string(&source, &mut end), Err(String::from("Empty string")));
    assert_eq!(lex_char_delimited(&source, &mut end, '"'), Err(String::from("Empty string")));
    assert_eq!(lex_numeric(&source, &mut end), Err(String::from("Not a digit")));
    assert_eq!(lex_identifier(&source, &mut end), Err(String::from("Not an identifier")));
    assert_eq!(end, at(7));
}
