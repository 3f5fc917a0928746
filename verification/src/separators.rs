//! Statements and the semicolons between them: what parsing reads of the tokens, and
//! why the number of semicolons behind a statement makes no difference.
use crate::ast::{ColDefinitionView, ExpressionView, StatementView};
use crate::lexer::{Keyword, Symbol, TokenKind, TokenView};
use crate::parser::{
    semicolons_end, spec_expect_token, spec_parse_column_def, spec_parse_column_defs_from,
    spec_parse_create, spec_parse_expression, spec_parse_expressions_from, spec_parse_insert,
    spec_parse_select, spec_parse_statement, spec_parse_statements, spec_parse_token,
    ParseFailure,
};
use vstd::prelude::*;

verus! {

/// Whether a token is a semicolon as the tokenizer emits it.
pub open spec fn is_semicolon(token: TokenView) -> bool {
    token.kind == TokenKind::Symbol && token.literal == Symbol::Semicolon.text()
}

/// A result of parsing with its place moved by `d`.
pub open spec fn shifted<X>(r: Option<(X, int)>, d: int) -> Option<(X, int)> {
    match r {
        Some((x, end)) => Some((x, end + d)),
        None => None,
    }
}

/// The tokens of `t1` from `c` up to `m` are those of `t2` from `c + d` up to
/// `m + d`, and both stop there in the same way: at the end, or at a semicolon.
pub open spec fn aligned(t1: Seq<TokenView>, t2: Seq<TokenView>, c: int, m: int, d: int) -> bool {
    &&& 0 <= c <= m <= t1.len()
    &&& 0 <= c + d
    &&& m + d <= t2.len()
    &&& forall|i: int| c <= i < m ==> #[trigger] t1[i] == t2[i + d]
    &&& (m == t1.len() && m + d == t2.len()) || (m < t1.len() && m + d < t2.len() && is_semicolon(
        t1[m],
    ) && is_semicolon(t2[m + d]))
}

/// No keyword and no other symbol is spelled like the semicolon.
pub proof fn lemma_semicolon_is_unlike(text: Seq<char>)
    requires
        text == Keyword::Select.text() || text == Keyword::From.text() || text
            == Keyword::Insert.text() || text == Keyword::Into.text() || text
            == Keyword::Values.text() || text == Keyword::Create.text() || text
            == Keyword::Table.text() || text == Symbol::LeftParen.text() || text
            == Symbol::RightParen.text() || text == Symbol::Comma.text(),
    ensures
        text != Symbol::Semicolon.text(),
{
    reveal_strlit(";");
    reveal_strlit("select");
    reveal_strlit("from");
    reveal_strlit("insert");
    reveal_strlit("into");
    reveal_strlit("values");
    reveal_strlit("create");
    reveal_strlit("table");
    reveal_strlit("(");
    reveal_strlit(")");
    reveal_strlit(",");
    assert(";"@.len() == 1);
    assert(";"@[0] == ';');
    if text.len() == 1 {
        assert(text[0] != ';');
    }
}

proof fn lemma_expect_aligned(
    t1: Seq<TokenView>,
    t2: Seq<TokenView>,
    c: int,
    m: int,
    d: int,
    literal: Seq<char>,
)
    requires
        aligned(t1, t2, c, m, d),
    ensures
        spec_expect_token(t2, c + d, literal) == spec_expect_token(t1, c, literal),
        spec_expect_token(t1, c, literal) && literal != Symbol::Semicolon.text() ==> c < m,
{
}

proof fn lemma_token_aligned(
    t1: Seq<TokenView>,
    t2: Seq<TokenView>,
    c: int,
    m: int,
    d: int,
    kind: TokenKind,
)
    requires
        aligned(t1, t2, c, m, d),
        kind != TokenKind::Symbol,
    ensures
        spec_parse_token(t2, c + d, kind) == shifted(spec_parse_token(t1, c, kind), d),
        spec_parse_token(t1, c, kind) is Some ==> c < m,
{
}

proof fn lemma_expression_aligned(t1: Seq<TokenView>, t2: Seq<TokenView>, c: int, m: int, d: int)
    requires
        aligned(t1, t2, c, m, d),
    ensures
        spec_parse_expression(t2, c + d) == shifted(spec_parse_expression(t1, c), d),
        spec_parse_expression(t1, c) is Some ==> c < m,
{
}

proof fn lemma_expressions_aligned(
    t1: Seq<TokenView>,
    t2: Seq<TokenView>,
    c: int,
    m: int,
    d: int,
    delimiters: Seq<Seq<char>>,
    first: bool,
)
    requires
        aligned(t1, t2, c, m, d),
    ensures
        spec_parse_expressions_from(t2, c + d, delimiters, first) == shifted(
            spec_parse_expressions_from(t1, c, delimiters, first),
            d,
        ),
        match spec_parse_expressions_from(t1, c, delimiters, first) {
            Some((items, end)) => c <= end <= m,
            None => true,
        },
    decreases m - c,
{
    lemma_semicolon_is_unlike(Symbol::Comma.text());
    if c < m {
        if !delimiters.contains(t1[c].literal) && (first || t1[c].literal == Symbol::Comma.text()) {
            let at = if first {
                c
            } else {
                c + 1
            };
            lemma_expression_aligned(t1, t2, at, m, d);
            match spec_parse_expression(t1, at) {
                None => {},
                Some((e, next)) => {
                    lemma_expressions_aligned(t1, t2, next, m, d, delimiters, false);
                },
            }
        }
    } else {
        lemma_expression_aligned(t1, t2, c, m, d);
    }
}

proof fn lemma_column_def_aligned(t1: Seq<TokenView>, t2: Seq<TokenView>, c: int, m: int, d: int)
    requires
        aligned(t1, t2, c, m, d),
    ensures
        spec_parse_column_def(t2, c + d) == shifted(spec_parse_column_def(t1, c), d),
        spec_parse_column_def(t1, c) is Some ==> c + 1 < m,
{
    lemma_token_aligned(t1, t2, c, m, d, TokenKind::Identifier);
    if spec_parse_token(t1, c, TokenKind::Identifier) is Some {
        lemma_token_aligned(t1, t2, c + 1, m, d, TokenKind::Keyword);
    }
}

proof fn lemma_column_defs_aligned(
    t1: Seq<TokenView>,
    t2: Seq<TokenView>,
    c: int,
    m: int,
    d: int,
    delimiter: Seq<char>,
    first: bool,
)
    requires
        aligned(t1, t2, c, m, d),
    ensures
        spec_parse_column_defs_from(t2, c + d, delimiter, first) == shifted(
            spec_parse_column_defs_from(t1, c, delimiter, first),
            d,
        ),
        match spec_parse_column_defs_from(t1, c, delimiter, first) {
            Some((cols, end)) => c <= end <= m,
            None => true,
        },
    decreases m - c,
{
    lemma_semicolon_is_unlike(Symbol::Comma.text());
    if c < m {
        if t1[c].literal != delimiter && (first || t1[c].literal == Symbol::Comma.text()) {
            let at = if first {
                c
            } else {
                c + 1
            };
            lemma_column_def_aligned(t1, t2, at, m, d);
            match spec_parse_column_def(t1, at) {
                None => {},
                Some((def, next)) => {
                    lemma_column_defs_aligned(t1, t2, next, m, d, delimiter, false);
                },
            }
        }
    } else {
        lemma_column_def_aligned(t1, t2, c, m, d);
    }
}

proof fn lemma_select_aligned(
    t1: Seq<TokenView>,
    t2: Seq<TokenView>,
    c: int,
    m: int,
    d: int,
    delimiter: Seq<char>,
)
    requires
        aligned(t1, t2, c, m, d),
    ensures
        spec_parse_select(t2, c + d, delimiter) == shifted(spec_parse_select(t1, c, delimiter), d),
        match spec_parse_select(t1, c, delimiter) {
            Some((statement, end)) => c < end <= m,
            None => true,
        },
{
    lemma_semicolon_is_unlike(Keyword::Select.text());
    lemma_semicolon_is_unlike(Keyword::From.text());
    lemma_expect_aligned(t1, t2, c, m, d, Keyword::Select.text());
    if spec_expect_token(t1, c, Keyword::Select.text()) {
        let delimiters = seq![Keyword::From.text(), delimiter];
        lemma_expressions_aligned(t1, t2, c + 1, m, d, delimiters, true);
        match spec_parse_expressions_from(t1, c + 1, delimiters, true) {
            None => {},
            Some((items, c2)) => {
                lemma_expect_aligned(t1, t2, c2, m, d, Keyword::From.text());
                if spec_expect_token(t1, c2, Keyword::From.text()) {
                    lemma_token_aligned(t1, t2, c2 + 1, m, d, TokenKind::Identifier);
                }
            },
        }
    }
}

proof fn lemma_insert_aligned(t1: Seq<TokenView>, t2: Seq<TokenView>, c: int, m: int, d: int)
    requires
        aligned(t1, t2, c, m, d),
    ensures
        spec_parse_insert(t2, c + d) == shifted(spec_parse_insert(t1, c), d),
        match spec_parse_insert(t1, c) {
            Some((statement, end)) => c < end <= m,
            None => true,
        },
{
    lemma_semicolon_is_unlike(Keyword::Insert.text());
    lemma_semicolon_is_unlike(Keyword::Into.text());
    lemma_semicolon_is_unlike(Keyword::Values.text());
    lemma_semicolon_is_unlike(Symbol::LeftParen.text());
    lemma_semicolon_is_unlike(Symbol::RightParen.text());
    lemma_expect_aligned(t1, t2, c, m, d, Keyword::Insert.text());
    if spec_expect_token(t1, c, Keyword::Insert.text()) {
        lemma_expect_aligned(t1, t2, c + 1, m, d, Keyword::Into.text());
        if spec_expect_token(t1, c + 1, Keyword::Into.text()) {
            lemma_token_aligned(t1, t2, c + 2, m, d, TokenKind::Identifier);
            match spec_parse_token(t1, c + 2, TokenKind::Identifier) {
                None => {},
                Some((table, c3)) => {
                    lemma_expect_aligned(t1, t2, c3, m, d, Keyword::Values.text());
                    if spec_expect_token(t1, c3, Keyword::Values.text()) {
                        lemma_expect_aligned(t1, t2, c3 + 1, m, d, Symbol::LeftParen.text());
                        if spec_expect_token(t1, c3 + 1, Symbol::LeftParen.text()) {
                            let delimiters = seq![Symbol::RightParen.text()];
                            lemma_expressions_aligned(t1, t2, c3 + 2, m, d, delimiters, true);
                            match spec_parse_expressions_from(t1, c3 + 2, delimiters, true) {
                                None => {},
                                Some((values, c4)) => {
                                    lemma_expect_aligned(
                                        t1,
                                        t2,
                                        c4,
                                        m,
                                        d,
                                        Symbol::RightParen.text(),
                                    );
                                },
                            }
                        }
                    }
                },
            }
        }
    }
}

proof fn lemma_create_aligned(t1: Seq<TokenView>, t2: Seq<TokenView>, c: int, m: int, d: int)
    requires
        aligned(t1, t2, c, m, d),
    ensures
        spec_parse_create(t2, c + d) == shifted(spec_parse_create(t1, c), d),
        match spec_parse_create(t1, c) {
            Some((statement, end)) => c < end <= m,
            None => true,
        },
{
    lemma_semicolon_is_unlike(Keyword::Create.text());
    lemma_semicolon_is_unlike(Keyword::Table.text());
    lemma_semicolon_is_unlike(Symbol::LeftParen.text());
    lemma_semicolon_is_unlike(Symbol::RightParen.text());
    lemma_expect_aligned(t1, t2, c, m, d, Keyword::Create.text());
    if spec_expect_token(t1, c, Keyword::Create.text()) {
        lemma_expect_aligned(t1, t2, c + 1, m, d, Keyword::Table.text());
        if spec_expect_token(t1, c + 1, Keyword::Table.text()) {
            lemma_token_aligned(t1, t2, c + 2, m, d, TokenKind::Identifier);
            match spec_parse_token(t1, c + 2, TokenKind::Identifier) {
                None => {},
                Some((name, c3)) => {
                    lemma_expect_aligned(t1, t2, c3, m, d, Symbol::LeftParen.text());
                    if spec_expect_token(t1, c3, Symbol::LeftParen.text()) {
                        lemma_column_defs_aligned(
                            t1,
                            t2,
                            c3 + 1,
                            m,
                            d,
                            Symbol::RightParen.text(),
                            true,
                        );
                        match spec_parse_column_defs_from(
                            t1,
                            c3 + 1,
                            Symbol::RightParen.text(),
                            true,
                        ) {
                            None => {},
                            Some((cols, c4)) => {
                                lemma_expect_aligned(t1, t2, c4, m, d, Symbol::RightParen.text());
                            },
                        }
                    }
                },
            }
        }
    }
}

/// A statement is parsed from the tokens between its start and the next semicolon
/// or the end, whichever comes first, and from nothing else: two sequences that
/// hold the same tokens there yield the same statement, which ends there at the
/// latest.
pub proof fn lemma_statement_aligned(
    t1: Seq<TokenView>,
    t2: Seq<TokenView>,
    c: int,
    m: int,
    d: int,
    delimiter: Seq<char>,
)
    requires
        aligned(t1, t2, c, m, d),
    ensures
        spec_parse_statement(t2, c + d, delimiter) == shifted(
            spec_parse_statement(t1, c, delimiter),
            d,
        ),
        match spec_parse_statement(t1, c, delimiter) {
            Some((statement, end)) => c < end <= m,
            None => true,
        },
{
    lemma_select_aligned(t1, t2, c, m, d, delimiter);
    lemma_insert_aligned(t1, t2, c, m, d);
    lemma_create_aligned(t1, t2, c, m, d);
}

/// Whether every token of `run` is a semicolon.
pub open spec fn all_semicolons(run: Seq<TokenView>) -> bool {
    forall|i: int| 0 <= i < run.len() ==> is_semicolon(#[trigger] run[i])
}

proof fn lemma_semicolons_shift(t1: Seq<TokenView>, t2: Seq<TokenView>, p: int, d: int)
    requires
        aligned(t1, t2, p, t1.len() as int, d),
    ensures
        semicolons_end(t2, p + d) == semicolons_end(t1, p) + d,
        p <= semicolons_end(t1, p) <= t1.len(),
    decreases t1.len() - p,
{
    if p < t1.len() && t1[p].literal == Symbol::Semicolon.text() {
        lemma_semicolons_shift(t1, t2, p + 1, d);
    }
}

proof fn lemma_semicolons_skip(t: Seq<TokenView>, from: int, to: int)
    requires
        0 <= from <= to <= t.len(),
        forall|i: int| from <= i < to ==> is_semicolon(#[trigger] t[i]),
    ensures
        semicolons_end(t, from) == semicolons_end(t, to),
    decreases to - from,
{
    if from < to {
        assert(is_semicolon(t[from]));
        lemma_semicolons_skip(t, from + 1, to);
    }
}

proof fn lemma_statements_shift(t1: Seq<TokenView>, t2: Seq<TokenView>, p: int, d: int)
    requires
        aligned(t1, t2, p, t1.len() as int, d),
    ensures
        spec_parse_statements(t2, p + d) == spec_parse_statements(t1, p),
    decreases t1.len() - p,
{
    if p < t1.len() {
        lemma_statement_aligned(t1, t2, p, t1.len() as int, d, Symbol::Semicolon.text());
        match spec_parse_statement(t1, p, Symbol::Semicolon.text()) {
            None => {},
            Some((statement, end)) => {
                lemma_semicolons_shift(t1, t2, end, d);
                let next = semicolons_end(t1, end);
                if next > end {
                    lemma_statements_shift(t1, t2, next, d);
                }
            },
        }
    }
}

proof fn lemma_semicolons_through(
    pre: Seq<TokenView>,
    run1: Seq<TokenView>,
    run2: Seq<TokenView>,
    post: Seq<TokenView>,
    e: int,
)
    requires
        all_semicolons(run1),
        all_semicolons(run2),
        0 <= e <= pre.len(),
    ensures
        ({
            let t1 = pre + run1 + post;
            let t2 = pre + run2 + post;
            let n1 = semicolons_end(t1, e);
            let n2 = semicolons_end(t2, e);
            ||| n1 == n2 && e <= n1 < pre.len()
            ||| pre.len() + run1.len() <= n1 <= t1.len() && n2 == n1 - run1.len() + run2.len()
        }),
    decreases pre.len() - e,
{
    let t1 = pre + run1 + post;
    let t2 = pre + run2 + post;
    if e < pre.len() {
        assert(t1[e] == pre[e] && t2[e] == pre[e]);
        if t1[e].literal == Symbol::Semicolon.text() {
            lemma_semicolons_through(pre, run1, run2, post, e + 1);
        }
    } else {
        let behind1 = (pre.len() + run1.len()) as int;
        let behind2 = (pre.len() + run2.len()) as int;
        assert forall|i: int| e <= i < behind1 implies is_semicolon(#[trigger] t1[i]) by {
            assert(t1[i] == run1[i - pre.len()]);
        }
        assert forall|i: int| e <= i < behind2 implies is_semicolon(#[trigger] t2[i]) by {
            assert(t2[i] == run2[i - pre.len()]);
        }
        lemma_semicolons_skip(t1, e, behind1);
        lemma_semicolons_skip(t2, e, behind2);
        lemma_suffixes_aligned(pre, run1, run2, post, behind1);
        lemma_semicolons_shift(t1, t2, behind1, run2.len() - run1.len());
    }
}

proof fn lemma_suffixes_aligned(
    pre: Seq<TokenView>,
    run1: Seq<TokenView>,
    run2: Seq<TokenView>,
    post: Seq<TokenView>,
    p: int,
)
    requires
        pre.len() + run1.len() <= p <= (pre + run1 + post).len(),
    ensures
        aligned(
            pre + run1 + post,
            pre + run2 + post,
            p,
            (pre + run1 + post).len() as int,
            run2.len() - run1.len(),
        ),
{
    let t1 = pre + run1 + post;
    let t2 = pre + run2 + post;
    let d = run2.len() - run1.len();
    assert forall|i: int| p <= i < t1.len() implies #[trigger] t1[i] == t2[i + d] by {
        assert(t1[i] == post[i - pre.len() - run1.len()]);
        assert(t2[i + d] == post[i + d - pre.len() - run2.len()]);
    }
}

proof fn lemma_statements_through(
    pre: Seq<TokenView>,
    run1: Seq<TokenView>,
    run2: Seq<TokenView>,
    post: Seq<TokenView>,
    c: int,
)
    requires
        all_semicolons(run1),
        all_semicolons(run2),
        run1.len() >= 1,
        run2.len() >= 1,
        0 <= c <= pre.len(),
    ensures
        spec_parse_statements(pre + run1 + post, c) == spec_parse_statements(
            pre + run2 + post,
            c,
        ),
    decreases pre.len() - c,
{
    let t1 = pre + run1 + post;
    let t2 = pre + run2 + post;
    let m = pre.len() as int;
    assert(t1[m] == run1[0] && t2[m] == run2[0]);
    assert forall|i: int| c <= i < m implies #[trigger] t1[i] == t2[i + 0] by {
        assert(t1[i] == pre[i] && t2[i] == pre[i]);
    }
    assert(aligned(t1, t2, c, m, 0));
    lemma_statement_aligned(t1, t2, c, m, 0, Symbol::Semicolon.text());
    match spec_parse_statement(t1, c, Symbol::Semicolon.text()) {
        None => {},
        Some((statement, end)) => {
            lemma_semicolons_through(pre, run1, run2, post, end);
            let n1 = semicolons_end(t1, end);
            if n1 < m {
                if n1 > end {
                    lemma_statements_through(pre, run1, run2, post, n1);
                }
            } else {
                lemma_suffixes_aligned(pre, run1, run2, post, n1);
                lemma_statements_shift(t1, t2, n1, run2.len() - run1.len());
            }
        },
    }
}

/// How many semicolons stand between two statements, or behind the last, makes no
/// difference: a run of one or more semicolons can be replaced by any other such
/// run, whatever stands before and behind it, and parsing yields the same
/// statements or the same failure.
pub proof fn lemma_semicolon_count(
    pre: Seq<TokenView>,
    run1: Seq<TokenView>,
    run2: Seq<TokenView>,
    post: Seq<TokenView>,
)
    requires
        all_semicolons(run1),
        all_semicolons(run2),
        run1.len() >= 1,
        run2.len() >= 1,
    ensures
        spec_parse_statements(pre + run1 + post, 0) == spec_parse_statements(
            pre + run2 + post,
            0,
        ),
{
    lemma_statements_through(pre, run1, run2, post, 0);
}

/// A statement that is not followed by a semicolon, be it the last one or not,
/// makes parsing fail.
pub proof fn lemma_semicolon_needed(
    tokens: Seq<TokenView>,
    c: int,
    statement: StatementView,
    end: int,
)
    requires
        0 <= c < tokens.len(),
        spec_parse_statement(tokens, c, Symbol::Semicolon.text()) == Some((statement, end)),
        !spec_expect_token(tokens, end, Symbol::Semicolon.text()),
    ensures
        spec_parse_statements(tokens, c) == Err::<Seq<StatementView>, ParseFailure>(
            ParseFailure::MissingSemicolon,
        ),
{
}

} // verus!
