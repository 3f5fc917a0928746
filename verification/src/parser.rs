//! The parser: tokens to statements, by recursive descent.
use crate::ast::{
    column_views, expression_views, statement_views, Ast, ColDefinition, ColDefinitionView,
    Create, CreateView, Expression, ExpressionKind, ExpressionView, Insert, InsertView, Select,
    SelectView, Statement, StatementView,
};
use crate::lexer::{
    lex, nil_token, spec_lex, token_views, Keyword, Location, Symbol, Token, TokenKind, TokenView,
};
use vstd::prelude::*;
use vstd::string::*;

verus! {

/// Whether the token at `c` has the text `literal`. The kind is not looked at.
pub open spec fn spec_expect_token(tokens: Seq<TokenView>, c: int, literal: Seq<char>) -> bool {
    0 <= c < tokens.len() && tokens[c].literal == literal
}

/// Tells whether the token at `cursor` has the text of `token`.
pub fn expect_token(tokens: &Vec<Token>, cursor: usize, token: Token) -> (r: bool)
    ensures
        r == spec_expect_token(token_views(tokens@), cursor as int, token@.literal),
        r ==> cursor < tokens.len(),
{
    if cursor < tokens.len() {
        tokens[cursor].literal == token.literal
    } else {
        false
    }
}

fn keyword_token(keyword: Keyword) -> (r: Token)
    ensures
        r@.literal == keyword.text(),
{
    Token { literal: keyword.to_string(), token_kind: TokenKind::Keyword, loc: Location::new() }
}

fn symbol_token(symbol: Symbol) -> (r: Token)
    ensures
        r@.literal == symbol.text(),
{
    Token { literal: symbol.to_string(), token_kind: TokenKind::Symbol, loc: Location::new() }
}

/// The token at `c`, if it is of kind `kind`, and the place behind it.
pub open spec fn spec_parse_token(tokens: Seq<TokenView>, c: int, kind: TokenKind) -> Option<
    (TokenView, int),
> {
    if 0 <= c < tokens.len() && tokens[c].kind == kind {
        Some((tokens[c], c + 1))
    } else {
        None
    }
}

/// Takes the token at `cursor_in` if it is of kind `kind`.
pub fn parse_token(tokens: &Vec<Token>, cursor_in: usize, kind: TokenKind) -> (r: Result<
    (Token, usize),
    (),
>)
    ensures
        match r {
            Ok((token, cursor)) => spec_parse_token(token_views(tokens@), cursor_in as int, kind)
                == Some((token@, cursor as int)) && cursor <= tokens.len(),
            Err(_) => spec_parse_token(token_views(tokens@), cursor_in as int, kind) is None,
        },
{
    if cursor_in >= tokens.len() {
        return Err(());
    }
    if tokens[cursor_in].token_kind == kind {
        return Ok((tokens[cursor_in].duplicate(), cursor_in + 1));
    }
    Err(())
}

/// Whether a token of this kind is an expression.
pub open spec fn is_expression_kind(kind: TokenKind) -> bool {
    kind == TokenKind::Identifier || kind == TokenKind::Numeric || kind == TokenKind::String
}

/// The expression at `c`: a single identifier, number or string, taken as it is.
pub open spec fn spec_parse_expression(tokens: Seq<TokenView>, c: int) -> Option<
    (ExpressionView, int),
> {
    if 0 <= c < tokens.len() && is_expression_kind(tokens[c].kind) {
        Some((ExpressionView { literal: tokens[c], kind: ExpressionKind::Literal }, c + 1))
    } else {
        None
    }
}

/// Parses one expression at `cursor_in`.
pub fn parse_expression(tokens: &Vec<Token>, cursor_in: usize) -> (r: Result<
    (Expression, usize),
    (),
>)
    ensures
        match r {
            Ok((expression, cursor)) => spec_parse_expression(
                token_views(tokens@),
                cursor_in as int,
            ) == Some((expression@, cursor as int)) && cursor <= tokens.len(),
            Err(_) => spec_parse_expression(token_views(tokens@), cursor_in as int) is None,
        },
{
    let mut allowed_kinds: Vec<TokenKind> = Vec::new();
    allowed_kinds.push(TokenKind::Identifier);
    allowed_kinds.push(TokenKind::Numeric);
    allowed_kinds.push(TokenKind::String);
    let mut i: usize = 0;
    while i < allowed_kinds.len()
        invariant
            i <= 3,
            allowed_kinds@ == seq![TokenKind::Identifier, TokenKind::Numeric, TokenKind::String],
            forall|j: int|
                0 <= j < i ==> spec_parse_token(
                    token_views(tokens@),
                    cursor_in as int,
                    #[trigger] allowed_kinds@[j],
                ) is None,
        decreases 3 - i,
    {
        match parse_token(tokens, cursor_in, allowed_kinds[i]) {
            Ok((token, cursor)) => {
                return Ok((Expression { literal: token, kind: ExpressionKind::Literal }, cursor));
            },
            Err(_) => {},
        }
        i += 1;
    }
    proof {
        assert(spec_parse_token(token_views(tokens@), cursor_in as int, allowed_kinds@[0])
            is None);
        assert(spec_parse_token(token_views(tokens@), cursor_in as int, allowed_kinds@[1])
            is None);
        assert(spec_parse_token(token_views(tokens@), cursor_in as int, allowed_kinds@[2])
            is None);
    }
    Err(())
}

/// The texts of a list of tokens, in order.
pub open spec fn literals(tokens: Seq<Token>) -> Seq<Seq<char>> {
    Seq::new(tokens.len(), |i: int| tokens[i]@.literal)
}

/// A list in front of what the rest of a list parse yields.
pub open spec fn prepend<X>(head: Seq<X>, rest: Option<(Seq<X>, int)>) -> Option<(Seq<X>, int)> {
    match rest {
        Some((tail, c)) => Some((head + tail, c)),
        None => None,
    }
}

/// The expressions from `c` up to the first token whose text is one of `delimiters`,
/// and the place of that token. Behind the first expression each one is led by a
/// comma. The list may be empty; the delimiter may not be missing.
pub open spec fn spec_parse_expressions_from(
    tokens: Seq<TokenView>,
    c: int,
    delimiters: Seq<Seq<char>>,
    first: bool,
) -> Option<(Seq<ExpressionView>, int)>
    decreases tokens.len() - c,
{
    if c < 0 || c >= tokens.len() {
        None
    } else if delimiters.contains(tokens[c].literal) {
        Some((Seq::<ExpressionView>::empty(), c))
    } else if !first && tokens[c].literal != Symbol::Comma.text() {
        None
    } else {
        match spec_parse_expression(
            tokens,
            if first {
                c
            } else {
                c + 1
            },
        ) {
            None => None,
            Some((e, next)) => prepend(
                seq![e],
                spec_parse_expressions_from(tokens, next, delimiters, false),
            ),
        }
    }
}

/// A whole list of expressions that starts at `c`.
pub open spec fn spec_parse_expressions(
    tokens: Seq<TokenView>,
    c: int,
    delimiters: Seq<Seq<char>>,
) -> Option<(Seq<ExpressionView>, int)> {
    spec_parse_expressions_from(tokens, c, delimiters, true)
}

fn is_delimiter(delimiters: &Vec<Token>, literal: &String) -> (r: bool)
    ensures
        r == literals(delimiters@).contains(literal@),
{
    let mut i: usize = 0;
    while i < delimiters.len()
        invariant
            i <= delimiters.len(),
            forall|j: int| 0 <= j < i ==> #[trigger] literals(delimiters@)[j] != literal@,
        decreases delimiters.len() - i,
    {
        if delimiters[i].literal == *literal {
            assert(literals(delimiters@)[i as int] == literal@);
            return true;
        }
        i += 1;
    }
    false
}

/// Parses a list of expressions up to one of `delimiters`.
pub fn parse_expressions(tokens: &Vec<Token>, cursor_in: usize, delimiters: &Vec<Token>) -> (r:
    Result<(Vec<Expression>, usize), ()>)
    ensures
        match r {
            Ok((expressions, cursor)) => spec_parse_expressions(
                token_views(tokens@),
                cursor_in as int,
                literals(delimiters@),
            ) == Some((expression_views(expressions@), cursor as int)),
            Err(_) => spec_parse_expressions(
                token_views(tokens@),
                cursor_in as int,
                literals(delimiters@),
            ) is None,
        },
{
    let ghost toks = token_views(tokens@);
    let ghost delims = literals(delimiters@);
    let mut cursor: usize = cursor_in;
    let mut expressions: Vec<Expression> = Vec::new();
    assert(expression_views(expressions@) =~= Seq::<ExpressionView>::empty());
    loop
        invariant
            toks == token_views(tokens@),
            delims == literals(delimiters@),
            spec_parse_expressions(toks, cursor_in as int, delims) == prepend(
                expression_views(expressions@),
                spec_parse_expressions_from(toks, cursor as int, delims, expressions@.len() == 0),
            ),
        decreases tokens.len() - cursor,
    {
        if cursor >= tokens.len() {
            return Err(());
        }
        if is_delimiter(delimiters, &tokens[cursor].literal) {
            assert(expression_views(expressions@) + Seq::<ExpressionView>::empty()
                =~= expression_views(expressions@));
            return Ok((expressions, cursor));
        }
        if expressions.len() > 0 {
            if !expect_token(tokens, cursor, symbol_token(Symbol::Comma)) {
                return Err(());
            }
            cursor += 1;
        }
        match parse_expression(tokens, cursor) {
            Err(_) => {
                return Err(());
            },
            Ok((exp, new_cursor)) => {
                let ghost before = expression_views(expressions@);
                let ghost rest = spec_parse_expressions_from(
                    toks,
                    new_cursor as int,
                    delims,
                    false,
                );
                cursor = new_cursor;
                expressions.push(exp);
                proof {
                    assert(expression_views(expressions@) =~= before + seq![exp@]);
                    match rest {
                        Some((tail, c)) => {
                            assert(before + (seq![exp@] + tail) =~= (before + seq![exp@]) + tail);
                        },
                        None => {},
                    }
                }
            },
        }
    }
}

/// The column definition at `c`: an identifier, then a keyword that names the type.
/// Which keywords are types is not decided here.
pub open spec fn spec_parse_column_def(tokens: Seq<TokenView>, c: int) -> Option<
    (ColDefinitionView, int),
> {
    if spec_parse_token(tokens, c, TokenKind::Identifier) is Some && spec_parse_token(
        tokens,
        c + 1,
        TokenKind::Keyword,
    ) is Some {
        Some((ColDefinitionView { name: tokens[c], data_type: tokens[c + 1] }, c + 2))
    } else {
        None
    }
}

/// The column definitions from `c` up to the first token whose text is `delimiter`,
/// or up to the end of the tokens, and the place where the list stops. Behind the
/// first definition each one is led by a comma. The list may be empty.
pub open spec fn spec_parse_column_defs_from(
    tokens: Seq<TokenView>,
    c: int,
    delimiter: Seq<char>,
    first: bool,
) -> Option<(Seq<ColDefinitionView>, int)>
    decreases tokens.len() - c,
{
    if c < 0 || c >= tokens.len() || tokens[c].literal == delimiter {
        Some((Seq::<ColDefinitionView>::empty(), c))
    } else if !first && tokens[c].literal != Symbol::Comma.text() {
        None
    } else {
        match spec_parse_column_def(
            tokens,
            if first {
                c
            } else {
                c + 1
            },
        ) {
            None => None,
            Some((d, next)) => prepend(
                seq![d],
                spec_parse_column_defs_from(tokens, next, delimiter, false),
            ),
        }
    }
}

/// A whole list of column definitions that starts at `c`.
pub open spec fn spec_parse_column_defs(tokens: Seq<TokenView>, c: int, delimiter: Seq<char>) -> Option<
    (Seq<ColDefinitionView>, int),
> {
    spec_parse_column_defs_from(tokens, c, delimiter, true)
}

/// Parses a list of column definitions up to `delimiter`.
pub fn parse_column_defs(tokens: &Vec<Token>, cursor_in: usize, delimiter: &Token) -> (r: Result<
    (Vec<ColDefinition>, usize),
    (),
>)
    ensures
        match r {
            Ok((cols, cursor)) => spec_parse_column_defs(
                token_views(tokens@),
                cursor_in as int,
                delimiter@.literal,
            ) == Some((column_views(cols@), cursor as int)),
            Err(_) => spec_parse_column_defs(
                token_views(tokens@),
                cursor_in as int,
                delimiter@.literal,
            ) is None,
        },
{
    let ghost toks = token_views(tokens@);
    let mut col_defs: Vec<ColDefinition> = Vec::new();
    let mut cursor: usize = cursor_in;
    assert(column_views(col_defs@) =~= Seq::<ColDefinitionView>::empty());
    loop
        invariant
            toks == token_views(tokens@),
            spec_parse_column_defs(toks, cursor_in as int, delimiter@.literal) == prepend(
                column_views(col_defs@),
                spec_parse_column_defs_from(
                    toks,
                    cursor as int,
                    delimiter@.literal,
                    col_defs@.len() == 0,
                ),
            ),
        decreases tokens.len() - cursor,
    {
        if cursor >= tokens.len() || tokens[cursor].literal == delimiter.literal {
            assert(column_views(col_defs@) + Seq::<ColDefinitionView>::empty() =~= column_views(
                col_defs@,
            ));
            return Ok((col_defs, cursor));
        }
        if col_defs.len() > 0 {
            if !expect_token(tokens, cursor, symbol_token(Symbol::Comma)) {
                return Err(());
            }
            cursor += 1;
        }
        let (col_name, name_end) = match parse_token(tokens, cursor, TokenKind::Identifier) {
            Ok(found) => found,
            Err(_) => {
                return Err(());
            },
        };
        let (col_type, type_end) = match parse_token(tokens, name_end, TokenKind::Keyword) {
            Ok(found) => found,
            Err(_) => {
                return Err(());
            },
        };
        let col_def = ColDefinition { name: col_name, data_type: col_type };
        let ghost before = column_views(col_defs@);
        let ghost rest = spec_parse_column_defs_from(
            toks,
            type_end as int,
            delimiter@.literal,
            false,
        );
        let ghost view = col_def@;
        cursor = type_end;
        col_defs.push(col_def);
        proof {
            assert(column_views(col_defs@) =~= before + seq![view]);
            match rest {
                Some((tail, c)) => {
                    assert(before + (seq![view] + tail) =~= (before + seq![view]) + tail);
                },
                None => {},
            }
        }
    }
}

/// What a parse of one statement owes: on success the expected statement, well
/// formed, and the place behind it, further on in the tokens; on failure none was
/// expected.
pub open spec fn parsed(
    tokens: Seq<TokenView>,
    cursor_in: int,
    r: Result<(Statement, usize), ()>,
    expected: Option<(StatementView, int)>,
) -> bool {
    match r {
        Ok((statement, cursor)) => {
            &&& expected == Some((statement@, cursor as int))
            &&& statement.wf()
            &&& cursor_in < cursor <= tokens.len()
        },
        Err(_) => expected is None,
    }
}

/// A `SELECT` at `c`: the keyword, a list of expressions that stops at `FROM` or at
/// the statement delimiter, and then `FROM` with the table's name, or nothing, in
/// which case the table is the nil token.
pub open spec fn spec_parse_select(tokens: Seq<TokenView>, c: int, delimiter: Seq<char>) -> Option<
    (StatementView, int),
> {
    if !spec_expect_token(tokens, c, Keyword::Select.text()) {
        None
    } else {
        match spec_parse_expressions(tokens, c + 1, seq![Keyword::From.text(), delimiter]) {
            None => None,
            Some((items, c2)) => {
                if spec_expect_token(tokens, c2, Keyword::From.text()) {
                    match spec_parse_token(tokens, c2 + 1, TokenKind::Identifier) {
                        None => None,
                        Some((from, c3)) => Some(
                            (StatementView::Select(SelectView { from: from, items: items }), c3),
                        ),
                    }
                } else {
                    Some(
                        (StatementView::Select(SelectView { from: nil_token(), items: items }), c2),
                    )
                }
            },
        }
    }
}

/// Parses a `SELECT` at `cursor_in`.
pub fn parse_select(tokens: &Vec<Token>, cursor_in: usize, delimiter: &Token) -> (r: Result<
    (Statement, usize),
    (),
>)
    ensures
        parsed(
            token_views(tokens@),
            cursor_in as int,
            r,
            spec_parse_select(token_views(tokens@), cursor_in as int, delimiter@.literal),
        ),
{
    if !expect_token(tokens, cursor_in, keyword_token(Keyword::Select)) {
        return Err(());
    }
    let mut delimiters: Vec<Token> = Vec::new();
    delimiters.push(keyword_token(Keyword::From));
    delimiters.push(delimiter.duplicate());
    assert(literals(delimiters@) =~= seq![Keyword::From.text(), delimiter@.literal]);
    let (expressions, cursor) = match parse_expressions(tokens, cursor_in + 1, &delimiters) {
        Ok(found) => found,
        Err(_) => {
            return Err(());
        },
    };
    proof {
        lemma_expressions_end(
            token_views(tokens@),
            cursor_in + 1,
            literals(delimiters@),
            true,
        );
    }
    if expect_token(tokens, cursor, keyword_token(Keyword::From)) {
        let (from_token, end) = match parse_token(tokens, cursor + 1, TokenKind::Identifier) {
            Ok(found) => found,
            Err(_) => {
                return Err(());
            },
        };
        return Ok((Statement::from_select(Select { from: from_token, items: expressions }), end));
    }
    Ok((Statement::from_select(Select { from: Token::nil(), items: expressions }), cursor))
}

/// A list of expressions stops inside the tokens, at or behind the place where it
/// starts.
pub proof fn lemma_expressions_end(
    tokens: Seq<TokenView>,
    c: int,
    delimiters: Seq<Seq<char>>,
    first: bool,
)
    ensures
        match spec_parse_expressions_from(tokens, c, delimiters, first) {
            Some((items, end)) => c <= end < tokens.len(),
            None => true,
        },
    decreases tokens.len() - c,
{
    if 0 <= c < tokens.len() && !delimiters.contains(tokens[c].literal) && (first
        || tokens[c].literal == Symbol::Comma.text()) {
        let at = if first {
            c
        } else {
            c + 1
        };
        match spec_parse_expression(tokens, at) {
            None => {},
            Some((e, next)) => {
                lemma_expressions_end(tokens, next, delimiters, false);
            },
        }
    }
}

/// A list of column definitions stops at or behind the place where it starts, and
/// not behind the end of the tokens if it starts before it.
pub proof fn lemma_column_defs_end(
    tokens: Seq<TokenView>,
    c: int,
    delimiter: Seq<char>,
    first: bool,
)
    ensures
        match spec_parse_column_defs_from(tokens, c, delimiter, first) {
            Some((cols, end)) => c <= end && (c <= tokens.len() ==> end <= tokens.len()),
            None => true,
        },
    decreases tokens.len() - c,
{
    if 0 <= c < tokens.len() && tokens[c].literal != delimiter && (first || tokens[c].literal
        == Symbol::Comma.text()) {
        let at = if first {
            c
        } else {
            c + 1
        };
        match spec_parse_column_def(tokens, at) {
            None => {},
            Some((d, next)) => {
                lemma_column_defs_end(tokens, next, delimiter, false);
            },
        }
    }
}

/// An `INSERT` at `c`: `INSERT INTO`, the table's name, `VALUES`, and a list of
/// expressions in parentheses. Every piece is mandatory.
pub open spec fn spec_parse_insert(tokens: Seq<TokenView>, c: int) -> Option<
    (StatementView, int),
> {
    if !spec_expect_token(tokens, c, Keyword::Insert.text()) || !spec_expect_token(
        tokens,
        c + 1,
        Keyword::Into.text(),
    ) {
        None
    } else {
        match spec_parse_token(tokens, c + 2, TokenKind::Identifier) {
            None => None,
            Some((table, c3)) => {
                if !spec_expect_token(tokens, c3, Keyword::Values.text()) || !spec_expect_token(
                    tokens,
                    c3 + 1,
                    Symbol::LeftParen.text(),
                ) {
                    None
                } else {
                    match spec_parse_expressions(
                        tokens,
                        c3 + 2,
                        seq![Symbol::RightParen.text()],
                    ) {
                        None => None,
                        Some((values, c4)) => {
                            if spec_expect_token(tokens, c4, Symbol::RightParen.text()) {
                                Some(
                                    (
                                        StatementView::Insert(
                                            InsertView { table: table, values: values },
                                        ),
                                        c4 + 1,
                                    ),
                                )
                            } else {
                                None
                            }
                        },
                    }
                }
            },
        }
    }
}

/// Parses an `INSERT` at `cursor_in`.
pub fn parse_insert(tokens: &Vec<Token>, cursor_in: usize, delimiter: &Token) -> (r: Result<
    (Statement, usize),
    (),
>)
    ensures
        parsed(
            token_views(tokens@),
            cursor_in as int,
            r,
            spec_parse_insert(token_views(tokens@), cursor_in as int),
        ),
{
    let mut cursor: usize = cursor_in;
    if !expect_token(tokens, cursor, keyword_token(Keyword::Insert)) {
        return Err(());
    }
    cursor += 1;
    if !expect_token(tokens, cursor, keyword_token(Keyword::Into)) {
        return Err(());
    }
    cursor += 1;
    let (table, name_end) = match parse_token(tokens, cursor, TokenKind::Identifier) {
        Ok(found) => found,
        Err(_) => {
            return Err(());
        },
    };
    cursor = name_end;
    if !expect_token(tokens, cursor, keyword_token(Keyword::Values)) {
        return Err(());
    }
    cursor += 1;
    if !expect_token(tokens, cursor, symbol_token(Symbol::LeftParen)) {
        return Err(());
    }
    cursor += 1;
    let mut delimiters: Vec<Token> = Vec::new();
    delimiters.push(symbol_token(Symbol::RightParen));
    assert(literals(delimiters@) =~= seq![Symbol::RightParen.text()]);
    proof {
        lemma_expressions_end(token_views(tokens@), cursor as int, literals(delimiters@), true);
    }
    let (values, values_end) = match parse_expressions(tokens, cursor, &delimiters) {
        Ok(found) => found,
        Err(_) => {
            return Err(());
        },
    };
    cursor = values_end;
    if !expect_token(tokens, cursor, symbol_token(Symbol::RightParen)) {
        return Err(());
    }
    cursor += 1;
    Ok((Statement::from_insert(Insert { table: table, values: values }), cursor))
}

/// A `CREATE TABLE` at `c`: the two keywords, the table's name, and a list of column
/// definitions in parentheses. Every piece is mandatory.
pub open spec fn spec_parse_create(tokens: Seq<TokenView>, c: int) -> Option<
    (StatementView, int),
> {
    if !spec_expect_token(tokens, c, Keyword::Create.text()) || !spec_expect_token(
        tokens,
        c + 1,
        Keyword::Table.text(),
    ) {
        None
    } else {
        match spec_parse_token(tokens, c + 2, TokenKind::Identifier) {
            None => None,
            Some((name, c3)) => {
                if !spec_expect_token(tokens, c3, Symbol::LeftParen.text()) {
                    None
                } else {
                    match spec_parse_column_defs(tokens, c3 + 1, Symbol::RightParen.text()) {
                        None => None,
                        Some((cols, c4)) => {
                            if spec_expect_token(tokens, c4, Symbol::RightParen.text()) {
                                Some(
                                    (
                                        StatementView::Create(CreateView { name: name, cols: cols }),
                                        c4 + 1,
                                    ),
                                )
                            } else {
                                None
                            }
                        },
                    }
                }
            },
        }
    }
}

/// Parses a `CREATE TABLE` at `cursor_in`.
pub fn parse_create(tokens: &Vec<Token>, cursor_in: usize, delimiter: &Token) -> (r: Result<
    (Statement, usize),
    (),
>)
    ensures
        parsed(
            token_views(tokens@),
            cursor_in as int,
            r,
            spec_parse_create(token_views(tokens@), cursor_in as int),
        ),
{
    let mut cursor: usize = cursor_in;
    if !expect_token(tokens, cursor, keyword_token(Keyword::Create)) {
        return Err(());
    }
    cursor += 1;
    if !expect_token(tokens, cursor, keyword_token(Keyword::Table)) {
        return Err(());
    }
    cursor += 1;
    let (table, name_end) = match parse_token(tokens, cursor, TokenKind::Identifier) {
        Ok(found) => found,
        Err(_) => {
            return Err(());
        },
    };
    cursor = name_end;
    if !expect_token(tokens, cursor, symbol_token(Symbol::LeftParen)) {
        return Err(());
    }
    cursor += 1;
    let right_paren: Token = symbol_token(Symbol::RightParen);
    proof {
        lemma_column_defs_end(token_views(tokens@), cursor as int, right_paren@.literal, true);
    }
    let (cols, cols_end) = match parse_column_defs(tokens, cursor, &right_paren) {
        Ok(found) => found,
        Err(_) => {
            return Err(());
        },
    };
    cursor = cols_end;
    if !expect_token(tokens, cursor, symbol_token(Symbol::RightParen)) {
        return Err(());
    }
    cursor += 1;
    Ok((Statement::from_create(Create { name: table, cols: cols }), cursor))
}

/// The statement at `c`: a `SELECT`, or else an `INSERT`, or else a `CREATE TABLE`.
/// One that fails leaves no trace for the next.
pub open spec fn spec_parse_statement(tokens: Seq<TokenView>, c: int, delimiter: Seq<char>) -> Option<
    (StatementView, int),
> {
    if spec_parse_select(tokens, c, delimiter) is Some {
        spec_parse_select(tokens, c, delimiter)
    } else if spec_parse_insert(tokens, c) is Some {
        spec_parse_insert(tokens, c)
    } else {
        spec_parse_create(tokens, c)
    }
}

/// Parses one statement at `cursor_in`, of whichever form it is.
pub fn parse_statement(tokens: &Vec<Token>, cursor_in: usize, delimiter: Token) -> (r: Result<
    (Statement, usize),
    (),
>)
    ensures
        parsed(
            token_views(tokens@),
            cursor_in as int,
            r,
            spec_parse_statement(token_views(tokens@), cursor_in as int, delimiter@.literal),
        ),
{
    match parse_select(tokens, cursor_in, &delimiter) {
        Ok(found) => {
            return Ok(found);
        },
        Err(_) => {},
    }
    match parse_insert(tokens, cursor_in, &delimiter) {
        Ok(found) => {
            return Ok(found);
        },
        Err(_) => {},
    }
    parse_create(tokens, cursor_in, &delimiter)
}

/// The end of the run of semicolons that starts at `c`.
pub open spec fn semicolons_end(tokens: Seq<TokenView>, c: int) -> int
    decreases tokens.len() - c,
{
    if spec_expect_token(tokens, c, Symbol::Semicolon.text()) {
        semicolons_end(tokens, c + 1)
    } else {
        c
    }
}

/// Why a sequence of tokens is no program.
pub ghost enum ParseFailure {
    /// No statement starts where one must.
    ExpectedStatement,
    /// A statement is not followed by a semicolon.
    MissingSemicolon,
}

impl ParseFailure {
    /// The text of the error.
    pub open spec fn text(self) -> Seq<char> {
        match self {
            ParseFailure::ExpectedStatement => "Expected a statement"@,
            ParseFailure::MissingSemicolon => "Missing semicolon between statements"@,
        }
    }
}

/// The statements from `c` to the end of the tokens. Each statement is followed by
/// one semicolon or more; how many makes no difference.
pub open spec fn spec_parse_statements(tokens: Seq<TokenView>, c: int) -> Result<
    Seq<StatementView>,
    ParseFailure,
>
    decreases tokens.len() - c,
{
    if c < 0 || c >= tokens.len() {
        Ok(Seq::<StatementView>::empty())
    } else {
        match spec_parse_statement(tokens, c, Symbol::Semicolon.text()) {
            None => Err(ParseFailure::ExpectedStatement),
            Some((statement, end)) => {
                let next = semicolons_end(tokens, end);
                if end <= c || next <= end || next > tokens.len() {
                    Err(ParseFailure::MissingSemicolon)
                } else {
                    match spec_parse_statements(tokens, next) {
                        Ok(rest) => Ok(seq![statement] + rest),
                        Err(e) => Err(e),
                    }
                }
            },
        }
    }
}

/// The program that a source text denotes: its tokens, parsed from the first, or
/// the text of the error.
pub open spec fn spec_parse(source: Seq<char>) -> Result<Seq<StatementView>, Seq<char>> {
    match spec_lex(source) {
        Err(message) => Err(message),
        Ok(tokens) => match spec_parse_statements(tokens, 0) {
            Ok(statements) => Ok(statements),
            Err(failure) => Err(failure.text()),
        },
    }
}

/// `rest` behind the statements that were parsed before it.
pub open spec fn behind(parsed: Seq<StatementView>, rest: Result<Seq<StatementView>, ParseFailure>) -> Result<
    Seq<StatementView>,
    ParseFailure,
> {
    match rest {
        Ok(statements) => Ok(parsed + statements),
        Err(e) => Err(e),
    }
}

/// Parses a source text into its statements.
pub fn parse(source: String) -> (r: Result<Ast, String>)
    ensures
        match r {
            Ok(ast) => spec_parse(source@) == Ok::<Seq<StatementView>, Seq<char>>(ast@)
                && ast.wf(),
            Err(e) => spec_parse(source@) == Err::<Seq<StatementView>, Seq<char>>(e@),
        },
{
    let tokens: Vec<Token> = match lex(&source) {
        Ok(tokens) => tokens,
        Err(e) => {
            return Err(e);
        },
    };
    let ghost toks = token_views(tokens@);
    let mut cursor: usize = 0;
    let mut ast = Ast { statements: Vec::new() };
    assert(ast@ =~= Seq::<StatementView>::empty());
    while cursor < tokens.len()
        invariant
            toks == token_views(tokens@),
            spec_lex(source@) == Ok::<Seq<TokenView>, Seq<char>>(toks),
            cursor <= tokens.len(),
            ast.wf(),
            spec_parse_statements(toks, 0) == behind(ast@, spec_parse_statements(toks, cursor as int)),
        decreases tokens.len() - cursor,
    {
        let (statement, new_cursor) = match parse_statement(
            &tokens,
            cursor,
            symbol_token(Symbol::Semicolon),
        ) {
            Ok(found) => found,
            Err(_) => {
                return Err(String::from_str("Expected a statement"));
            },
        };
        let ghost before = ast@;
        let ghost view = statement@;
        cursor = new_cursor;
        ast.statements.push(statement);
        let mut at_least_one_semicolon: bool = false;
        while expect_token(&tokens, cursor, symbol_token(Symbol::Semicolon))
            invariant
                toks == token_views(tokens@),
                new_cursor <= cursor <= tokens.len(),
                at_least_one_semicolon == (cursor > new_cursor),
                semicolons_end(toks, new_cursor as int) == semicolons_end(toks, cursor as int),
            decreases tokens.len() - cursor,
        {
            at_least_one_semicolon = true;
            cursor += 1;
        }
        if !at_least_one_semicolon {
            return Err(String::from_str("Missing semicolon between statements"));
        }
        proof {
            let rest = spec_parse_statements(toks, cursor as int);
            assert(ast@ =~= before + seq![view]);
            match rest {
                Ok(more) => {
                    assert(before + (seq![view] + more) =~= (before + seq![view]) + more);
                },
                Err(_) => {},
            }
        }
    }
    proof {
        assert(ast@ + Seq::<StatementView>::empty() =~= ast@);
    }
    Ok(ast)
}

} // verus!
