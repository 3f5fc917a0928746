//! The tokenizer: source text to a sequence of located tokens.
use vstd::pervasive::VecAdditionalExecFns;
use vstd::prelude::*;
use vstd::string::*;

verus! {

/// A zero-based position in the source text.
#[derive(Clone, Copy, PartialEq, Eq, Debug, Structural)]
pub struct Location {
    pub col: u32,
    pub line: u32,
}

impl Location {
    /// The first column of the first line.
    pub fn new() -> (r: Location)
        ensures
            r == (Location { col: 0, line: 0 }),
    {
        Location { col: 0, line: 0 }
    }
}

/// The scan position: an offset counted in characters, and its line and column.
#[derive(Clone, Copy, PartialEq, Eq, Debug, Structural)]
pub struct Cursor {
    pub pos: u32,
    pub loc: Location,
}

impl Cursor {
    /// Neither the column nor the line of a cursor runs ahead of its offset.
    pub open spec fn wf(self) -> bool {
        self.loc.col <= self.pos && self.loc.line <= self.pos
    }

    /// The cursor `n` characters further on the same line.
    pub open spec fn advanced(self, n: int) -> Cursor {
        Cursor {
            pos: (self.pos + n) as u32,
            loc: Location { col: (self.loc.col + n) as u32, line: self.loc.line },
        }
    }

    /// The cursor just behind a line break.
    pub open spec fn next_line(self) -> Cursor {
        Cursor {
            pos: (self.pos + 1) as u32,
            loc: Location { col: 0, line: (self.loc.line + 1) as u32 },
        }
    }

    /// The cursor at the start of a text.
    pub fn new() -> (r: Cursor)
        ensures
            r == (Cursor { pos: 0, loc: Location { col: 0, line: 0 } }),
            r.wf(),
    {
        Cursor { pos: 0, loc: Location { col: 0, line: 0 } }
    }
}

/// The classes of tokens. `Nil` is for what is consumed and not emitted, and for the
/// token that stands for none.
#[derive(Debug, Clone, Copy, Eq, PartialEq, Structural)]
pub enum TokenKind {
    Keyword,
    Symbol,
    Nil,
    Identifier,
    String,
    Numeric,
}

/// The symbols of the language.
pub enum Symbol {
    Semicolon,
    Asterisk,
    Comma,
    LeftParen,
    RightParen,
}

/// The keywords of the language.
pub enum Keyword {
    Select,
    From,
    As,
    Table,
    Create,
    Insert,
    Into,
    Values,
    Int,
    Text,
}

impl Symbol {
    /// The text of the symbol.
    pub open spec fn text(&self) -> Seq<char> {
        match self {
            Symbol::Semicolon => ";"@,
            Symbol::Asterisk => "*"@,
            Symbol::Comma => ","@,
            Symbol::LeftParen => "("@,
            Symbol::RightParen => ")"@,
        }
    }

    /// The symbol as a string.
    pub fn to_string(&self) -> (r: String)
        ensures
            r@ == self.text(),
    {
        match self {
            Symbol::Semicolon => String::from_str(";"),
            Symbol::Asterisk => String::from_str("*"),
            Symbol::Comma => String::from_str(","),
            Symbol::LeftParen => String::from_str("("),
            Symbol::RightParen => String::from_str(")"),
        }
    }
}

impl Keyword {
    /// The text of the keyword, in lower case.
    pub open spec fn text(&self) -> Seq<char> {
        match self {
            Keyword::Select => "select"@,
            Keyword::From => "from"@,
            Keyword::As => "as"@,
            Keyword::Table => "table"@,
            Keyword::Create => "create"@,
            Keyword::Insert => "insert"@,
            Keyword::Into => "into"@,
            Keyword::Values => "values"@,
            Keyword::Int => "int"@,
            Keyword::Text => "text"@,
        }
    }

    /// The keyword as a string.
    pub fn to_string(&self) -> (r: String)
        ensures
            r@ == self.text(),
    {
        match self {
            Keyword::Select => String::from_str("select"),
            Keyword::From => String::from_str("from"),
            Keyword::As => String::from_str("as"),
            Keyword::Table => String::from_str("table"),
            Keyword::Create => String::from_str("create"),
            Keyword::Insert => String::from_str("insert"),
            Keyword::Into => String::from_str("into"),
            Keyword::Values => String::from_str("values"),
            Keyword::Int => String::from_str("int"),
            Keyword::Text => String::from_str("text"),
        }
    }
}

/// A classified, located lexical unit.
#[derive(Debug, Clone, PartialEq, Eq)]
pub struct Token {
    pub literal: String,
    pub token_kind: TokenKind,
    pub loc: Location,
}

/// What a token is, as plain values.
pub ghost struct TokenView {
    pub literal: Seq<char>,
    pub kind: TokenKind,
    pub loc: Location,
}

impl View for Token {
    type V = TokenView;

    open spec fn view(&self) -> TokenView {
        TokenView { literal: self.literal@, kind: self.token_kind, loc: self.loc }
    }
}

/// The token that stands for "no token": empty text, kind `Nil`.
pub open spec fn nil_token() -> TokenView {
    TokenView {
        literal: Seq::<char>::empty(),
        kind: TokenKind::Nil,
        loc: Location { col: 0, line: 0 },
    }
}

/// The views of a sequence of tokens, in order.
pub open spec fn token_views(tokens: Seq<Token>) -> Seq<TokenView> {
    Seq::new(tokens.len(), |i: int| tokens[i]@)
}

impl Token {
    /// The token that stands for "no token".
    pub fn nil() -> (r: Token)
        ensures
            r@ == nil_token(),
    {
        Token { literal: String::new(), token_kind: TokenKind::Nil, loc: Location::new() }
    }

    /// A token equal to this one.
    pub fn duplicate(&self) -> (r: Token)
        ensures
            r@ == self@,
    {
        Token { literal: self.literal.clone(), token_kind: self.token_kind, loc: self.loc }
    }
}

/// Whether `c` is one of the ten ASCII digits.
pub open spec fn is_digit(c: char) -> bool {
    '0' <= c && c <= '9'
}

/// The ASCII lower-case form of `c`; anything but `A` to `Z` is left as it is.
pub open spec fn lower(c: char) -> char {
    if 'A' <= c && c <= 'Z' {
        ((c as u8) + 32) as char
    } else {
        c
    }
}

/// The lower-case form of every character of `s`.
pub open spec fn lower_text(s: Seq<char>) -> Seq<char> {
    Seq::new(s.len(), |i: int| lower(s[i]))
}

/// Computes `lower`.
pub fn to_lower(c: char) -> (r: char)
    ensures
        r == lower(c),
{
    if 'A' <= c && c <= 'Z' {
        ((c as u8) + 32) as char
    } else {
        c
    }
}

/// Computes `is_digit`.
pub fn is_ascii_digit(c: char) -> (r: bool)
    ensures
        r == is_digit(c),
{
    '0' <= c && c <= '9'
}

/// Whether `c` is alphabetic, as `char::is_alphabetic` of the standard library says.
pub uninterp spec fn alphabetic(c: char) -> bool;

/// Whether `c` is alphabetic or numeric, as `char::is_alphanumeric` of the standard
/// library says.
pub uninterp spec fn alphanumeric(c: char) -> bool;

/// `char::is_alphabetic`: the Unicode property `Alphabetic`. Nothing is claimed here
/// but that the answer depends on the character alone.
pub assume_specification[ char::is_alphabetic ](c: char) -> (b: bool)
    ensures
        b == alphabetic(c),
;

/// `char::is_alphanumeric`: alphabetic or numeric by Unicode's tables. Nothing is
/// claimed here but that the answer depends on the character alone.
pub assume_specification[ char::is_alphanumeric ](c: char) -> (b: bool)
    ensures
        b == alphanumeric(c),
;

/// `String::push`: the character is appended at the end of the string.
pub assume_specification[ std::string::String::push ](s: &mut std::string::String, c: char)
    ensures
        final(s)@ == old(s)@.push(c),
;

/// What a recognizer owes at `before`: on success the expected token and the cursor
/// behind it, further on in the text; on failure no token was expected, the cursor
/// has not moved, and the error is the recognizer's complaint.
pub open spec fn lexed(
    s: Seq<char>,
    before: Cursor,
    r: Result<Token, String>,
    after: Cursor,
    expected: Option<(TokenView, Cursor)>,
    complaint: Seq<char>,
) -> bool {
    match r {
        Ok(t) => {
            &&& expected == Some((t@, after))
            &&& after.wf()
            &&& before.pos < after.pos <= s.len() <= u32::MAX
        },
        Err(e) => expected is None && after == before && e@ == complaint,
    }
}

/// Whether a token can start at `cur` at all: the text is short enough to be
/// addressed and the cursor stands inside it.
pub open spec fn inside(s: Seq<char>, cur: Cursor) -> bool {
    s.len() <= u32::MAX && cur.pos < s.len()
}

fn advance(c: Cursor, n: u32) -> (r: Cursor)
    requires
        c.wf(),
        c.pos + n <= u32::MAX,
    ensures
        r == c.advanced(n as int),
        r.wf(),
{
    Cursor { pos: c.pos + n, loc: Location { col: c.loc.col + n, line: c.loc.line } }
}

fn slice(source: &String, from: usize, to: usize) -> (r: String)
    requires
        from <= to <= source@.len(),
    ensures
        r@ == source@.subrange(from as int, to as int),
{
    String::from_str(source.as_str().substring_char(from, to))
}

/// The end of the run of digits that starts at `p`.
pub open spec fn digits_end(s: Seq<char>, p: int) -> int
    decreases s.len() - p,
{
    if 0 <= p < s.len() && is_digit(s[p]) {
        digits_end(s, p + 1)
    } else {
        p
    }
}

/// A numeric token: the maximal run of digits at the cursor, if it is not empty.
pub open spec fn spec_lex_numeric(s: Seq<char>, cur: Cursor) -> Option<(TokenView, Cursor)> {
    let end = digits_end(s, cur.pos as int);
    if inside(s, cur) && end > cur.pos {
        Some(
            (
                TokenView {
                    literal: s.subrange(cur.pos as int, end),
                    kind: TokenKind::Numeric,
                    loc: cur.loc,
                },
                cur.advanced(end - cur.pos),
            ),
        )
    } else {
        None
    }
}

/// Recognizes a numeric token at the cursor and moves the cursor behind it.
pub fn lex_numeric(source: &String, cur: &mut Cursor) -> (r: Result<Token, String>)
    requires
        old(cur).wf(),
    ensures
        lexed(
            source@,
            *old(cur),
            r,
            *final(cur),
            spec_lex_numeric(source@, *old(cur)),
            "Not a digit"@,
        ),
{
    let start: Cursor = *cur;
    let n: usize = source.as_str().unicode_len();
    if n > u32::MAX as usize || start.pos as usize >= n {
        return Err(String::from_str("Not a digit"));
    }
    let first: usize = start.pos as usize;
    let mut p: usize = first;
    let mut more: bool = true;
    while more
        invariant
            first <= p <= n,
            n == source@.len(),
            digits_end(source@, first as int) == digits_end(source@, p as int),
            !more ==> digits_end(source@, p as int) == p,
        decreases n - p + (if more { 1int } else { 0int }),
    {
        if p < n && is_ascii_digit(source.as_str().get_char(p)) {
            p += 1;
        } else {
            more = false;
        }
    }
    if p == first {
        return Err(String::from_str("Not a digit"));
    }
    let tok = Token {
        literal: slice(source, first, p),
        token_kind: TokenKind::Numeric,
        loc: start.loc,
    };
    *cur = advance(start, (p - first) as u32);
    Ok(tok)
}

/// Where a delimited literal ends whose content starts at `p`: just behind the first
/// delimiter that is not doubled, or -1 where there is none. Two delimiters in a row
/// stand for one in the content and end nothing.
pub open spec fn closing(s: Seq<char>, p: int, delimiter: char) -> int
    decreases s.len() - p,
{
    if p < 0 || p >= s.len() {
        -1
    } else if s[p] != delimiter {
        closing(s, p + 1, delimiter)
    } else if p + 1 < s.len() && s[p + 1] == delimiter {
        closing(s, p + 2, delimiter)
    } else {
        p + 1
    }
}

/// A delimited literal at the cursor: the text from the opening delimiter to the
/// closing one, both included.
pub open spec fn spec_lex_char_delimited(s: Seq<char>, cur: Cursor, delimiter: char) -> Option<
    (TokenView, Cursor),
> {
    let end = closing(s, cur.pos + 1, delimiter);
    if inside(s, cur) && s[cur.pos as int] == delimiter && end >= 0 {
        Some(
            (
                TokenView {
                    literal: s.subrange(cur.pos as int, end),
                    kind: TokenKind::String,
                    loc: cur.loc,
                },
                cur.advanced(end - cur.pos),
            ),
        )
    } else {
        None
    }
}

/// A delimited literal ends at a delimiter that is not followed by another one:
/// where `closing` finds an end, the character before it is the delimiter, and the
/// character at it, if there is one, is not.
pub proof fn lemma_closing_is_unmatched(s: Seq<char>, p: int, delimiter: char)
    requires
        0 <= p,
        closing(s, p, delimiter) >= 0,
    ensures
        p < closing(s, p, delimiter) <= s.len(),
        s[closing(s, p, delimiter) - 1] == delimiter,
        closing(s, p, delimiter) < s.len() ==> s[closing(s, p, delimiter)] != delimiter,
    decreases s.len() - p,
{
    if p < s.len() {
        if s[p] != delimiter {
            lemma_closing_is_unmatched(s, p + 1, delimiter);
        } else if p + 1 < s.len() && s[p + 1] == delimiter {
            lemma_closing_is_unmatched(s, p + 2, delimiter);
        }
    }
}

/// A text as it is written between delimiters: each delimiter in it is doubled.
pub open spec fn escaped(text: Seq<char>, delimiter: char) -> Seq<char>
    decreases text.len(),
{
    if text.len() == 0 {
        Seq::<char>::empty()
    } else if text[0] == delimiter {
        seq![delimiter, delimiter] + escaped(text.skip(1), delimiter)
    } else {
        seq![text[0]] + escaped(text.skip(1), delimiter)
    }
}

/// The text that stands between delimiters: two delimiters in a row are one.
pub open spec fn unescaped(content: Seq<char>, delimiter: char) -> Seq<char>
    decreases content.len(),
{
    if content.len() == 0 {
        Seq::<char>::empty()
    } else if content[0] == delimiter && content.len() >= 2 && content[1] == delimiter {
        seq![delimiter] + unescaped(content.skip(2), delimiter)
    } else {
        seq![content[0]] + unescaped(content.skip(1), delimiter)
    }
}

/// Escaping a text and reading it back gives the text.
pub proof fn lemma_escaping_round_trips(text: Seq<char>, delimiter: char)
    ensures
        unescaped(escaped(text, delimiter), delimiter) == text,
    decreases text.len(),
{
    if text.len() > 0 {
        let tail = escaped(text.skip(1), delimiter);
        lemma_escaping_round_trips(text.skip(1), delimiter);
        if text[0] == delimiter {
            let content = seq![delimiter, delimiter] + tail;
            assert(content.skip(2) =~= tail);
            assert(seq![delimiter] + text.skip(1) =~= text);
        } else {
            let content = seq![text[0]] + tail;
            assert(content.skip(1) =~= tail);
            assert(seq![text[0]] + text.skip(1) =~= text);
        }
    }
}

/// An escaped text between delimiters is one literal, whatever the text holds: it
/// ends at its closing delimiter and not before, provided that no further delimiter
/// follows at once.
pub proof fn lemma_escaped_text_is_closed(
    before: Seq<char>,
    text: Seq<char>,
    delimiter: char,
    rest: Seq<char>,
)
    requires
        rest.len() == 0 || rest[0] != delimiter,
    ensures
        closing(
            before + escaped(text, delimiter) + seq![delimiter] + rest,
            before.len() as int,
            delimiter,
        ) == before.len() + escaped(text, delimiter).len() + 1,
    decreases text.len(),
{
    let s = before + escaped(text, delimiter) + seq![delimiter] + rest;
    let p = before.len() as int;
    if text.len() == 0 {
        assert(s[p] == delimiter);
        if rest.len() > 0 {
            assert(s[p + 1] == rest[0]);
        }
    } else {
        let tail = escaped(text.skip(1), delimiter);
        let head = if text[0] == delimiter {
            seq![delimiter, delimiter]
        } else {
            seq![text[0]]
        };
        assert(escaped(text, delimiter) == head + tail);
        assert(s =~= (before + head) + tail + seq![delimiter] + rest);
        lemma_escaped_text_is_closed(before + head, text.skip(1), delimiter, rest);
        assert(s[p] == head[0]);
        if text[0] == delimiter {
            assert(s[p + 1] == head[1]);
        }
    }
}

/// A string literal round-trips: the literal written for any text, with each quote
/// of the text doubled, is recognized as one token that holds all of it, up to the
/// closing quote.
pub proof fn lemma_string_literal_is_one_token(text: Seq<char>, rest: Seq<char>)
    requires
        rest.len() == 0 || rest[0] != '\'',
        (seq!['\''] + escaped(text, '\'') + seq!['\''] + rest).len() <= u32::MAX,
    ensures
        ({
            let literal = seq!['\''] + escaped(text, '\'') + seq!['\''];
            let start = Cursor { pos: 0, loc: Location { col: 0, line: 0 } };
            spec_lex_char_delimited(literal + rest, start, '\'') == Some(
                (
                    TokenView { literal: literal, kind: TokenKind::String, loc: start.loc },
                    start.advanced(literal.len() as int),
                ),
            )
        }),
{
    let literal = seq!['\''] + escaped(text, '\'') + seq!['\''];
    let s = literal + rest;
    lemma_escaped_text_is_closed(seq!['\''], text, '\'', rest);
    assert(s =~= seq!['\''] + escaped(text, '\'') + seq!['\''] + rest);
    assert(s[0] == '\'');
    assert(s.subrange(0, literal.len() as int) =~= literal);
}

/// What is wrong where no delimited literal stands at the cursor: nothing is there,
/// or something else than the delimiter, or a literal that is not closed.
pub open spec fn delimited_complaint(s: Seq<char>, cur: Cursor, delimiter: char) -> Seq<char> {
    if !inside(s, cur) {
        "Empty string"@
    } else if s[cur.pos as int] != delimiter {
        "Invalid string literal"@
    } else {
        "Invalid string"@
    }
}

/// Recognizes a literal between two `delimiter`s at the cursor and moves the cursor
/// behind it.
pub fn lex_char_delimited(source: &String, cur: &mut Cursor, delimiter: char) -> (r: Result<
    Token,
    String,
>)
    requires
        old(cur).wf(),
    ensures
        lexed(
            source@,
            *old(cur),
            r,
            *final(cur),
            spec_lex_char_delimited(source@, *old(cur), delimiter),
            delimited_complaint(source@, *old(cur), delimiter),
        ),
{
    let start: Cursor = *cur;
    let n: usize = source.as_str().unicode_len();
    if n > u32::MAX as usize || start.pos as usize >= n {
        return Err(String::from_str("Empty string"));
    }
    let first: usize = start.pos as usize;
    if source.as_str().get_char(first) != delimiter {
        return Err(String::from_str("Invalid string literal"));
    }
    let mut p: usize = first + 1;
    while p < n
        invariant
            first < p <= n,
            n == source@.len(),
            n <= u32::MAX,
            start.wf(),
            start.pos == first,
            *cur == start,
            start == *old(cur),
            source@[first as int] == delimiter,
            closing(source@, first + 1, delimiter) == closing(source@, p as int, delimiter),
        decreases n - p,
    {
        if source.as_str().get_char(p) == delimiter {
            if p + 1 < n && source.as_str().get_char(p + 1) == delimiter {
                p += 2;
            } else {
                p += 1;
                let tok = Token {
                    literal: slice(source, first, p),
                    token_kind: TokenKind::String,
                    loc: start.loc,
                };
                *cur = advance(start, (p - first) as u32);
                return Ok(tok);
            }
        } else {
            p += 1;
        }
    }
    Err(String::from_str("Invalid string"))
}

/// A string literal at the cursor: delimited by single quotes.
pub open spec fn spec_lex_string(s: Seq<char>, cur: Cursor) -> Option<(TokenView, Cursor)> {
    spec_lex_char_delimited(s, cur, '\'')
}

/// Recognizes a string literal at the cursor and moves the cursor behind it.
pub fn lex_string(source: &String, cursor: &mut Cursor) -> (r: Result<Token, String>)
    requires
        old(cursor).wf(),
    ensures
        lexed(
            source@,
            *old(cursor),
            r,
            *final(cursor),
            spec_lex_string(source@, *old(cursor)),
            delimited_complaint(source@, *old(cursor), '\''),
        ),
{
    lex_char_delimited(source, cursor, '\'')
}

/// The texts of a list of candidates, in order.
pub open spec fn texts(options: Seq<String>) -> Seq<Seq<char>> {
    Seq::new(options.len(), |i: int| options[i]@)
}

/// Whether the candidate `opt` stands at `pos` in `s`, whatever the case of its
/// ASCII letters: it is not empty, the text is long enough, and the two agree once
/// both are in lower case.
pub open spec fn matches_at(s: Seq<char>, pos: int, opt: Seq<char>) -> bool {
    &&& opt.len() > 0
    &&& 0 <= pos
    &&& pos + opt.len() <= s.len()
    &&& lower_text(s.subrange(pos, pos + opt.len())) == lower_text(opt)
}

/// The best of the first `n` candidates: the longest that stands at `pos`, and of
/// several of that length the first; empty where none does.
pub open spec fn best_match(s: Seq<char>, pos: int, options: Seq<Seq<char>>, n: int) -> Seq<char>
    decreases n,
{
    if n <= 0 {
        Seq::<char>::empty()
    } else {
        let prev = best_match(s, pos, options, n - 1);
        let opt = options[n - 1];
        if matches_at(s, pos, opt) && opt.len() > prev.len() {
            opt
        } else {
            prev
        }
    }
}

/// The longest candidate that stands at `pos`.
pub open spec fn spec_longest_match(s: Seq<char>, pos: int, options: Seq<Seq<char>>) -> Seq<
    char,
> {
    best_match(s, pos, options, options.len() as int)
}

/// The best of the first `n` candidates is empty or one of them that stands at
/// `pos`, and none of them that stands there is longer.
pub proof fn lemma_best_match(s: Seq<char>, pos: int, options: Seq<Seq<char>>, n: int)
    requires
        0 <= n <= options.len(),
    ensures
        ({
            let m = best_match(s, pos, options, n);
            &&& m.len() == 0 || (matches_at(s, pos, m) && exists|i: int|
                0 <= i < n && options[i] == m)
            &&& forall|i: int|
                0 <= i < n && matches_at(s, pos, #[trigger] options[i]) ==> options[i].len()
                    <= m.len()
        }),
    decreases n,
{
    if n > 0 {
        lemma_best_match(s, pos, options, n - 1);
        let prev = best_match(s, pos, options, n - 1);
        let m = best_match(s, pos, options, n);
        if prev.len() > 0 && m == prev {
            let i = choose|i: int| 0 <= i < n - 1 && options[i] == prev;
            assert(0 <= i < n && options[i] == m);
        } else if m.len() > 0 {
            assert(options[n - 1] == m);
        }
    }
}

/// Longest match prefers the longest candidate that matches in full, and is blind to
/// the case of ASCII letters: the result is empty exactly when no candidate stands
/// at `pos`; otherwise it is a candidate that stands there, and no candidate that
/// stands there is longer.
pub proof fn lemma_longest_match_is_longest(s: Seq<char>, pos: int, options: Seq<Seq<char>>)
    ensures
        ({
            let m = spec_longest_match(s, pos, options);
            &&& m.len() == 0 <==> forall|i: int|
                0 <= i < options.len() ==> !matches_at(s, pos, #[trigger] options[i])
            &&& m.len() > 0 ==> matches_at(s, pos, m) && options.contains(m)
            &&& forall|i: int|
                0 <= i < options.len() && matches_at(s, pos, #[trigger] options[i])
                    ==> options[i].len() <= m.len()
        }),
{
    lemma_best_match(s, pos, options, options.len() as int);
}

/// Whether a candidate stands at `pos` depends on the text and on the candidate only
/// up to the case of their ASCII letters.
pub proof fn lemma_match_ignores_case(
    s1: Seq<char>,
    s2: Seq<char>,
    pos: int,
    opt1: Seq<char>,
    opt2: Seq<char>,
)
    requires
        lower_text(s1) == lower_text(s2),
        lower_text(opt1) == lower_text(opt2),
    ensures
        matches_at(s1, pos, opt1) == matches_at(s2, pos, opt2),
{
    assert(s1.len() == lower_text(s1).len());
    assert(s2.len() == lower_text(s2).len());
    assert(opt1.len() == lower_text(opt1).len());
    assert(opt2.len() == lower_text(opt2).len());
    let m = opt1.len() as int;
    if m > 0 && 0 <= pos && pos + m <= s1.len() {
        let a1 = s1.subrange(pos, pos + m);
        let a2 = s2.subrange(pos, pos + m);
        assert forall|k: int| 0 <= k < m implies lower(#[trigger] a1[k]) == lower(a2[k]) by {
            assert(lower_text(s1)[pos + k] == lower(s1[pos + k]));
            assert(lower_text(s2)[pos + k] == lower(s2[pos + k]));
            assert(a1[k] == s1[pos + k]);
            assert(a2[k] == s2[pos + k]);
        }
        assert(lower_text(a1) =~= lower_text(a2));
    }
}

/// Character by character: a candidate stands at `pos` exactly when it is not
/// empty, the text is long enough, and each of its characters is, up to case, the
/// character of the text at its place.
pub proof fn lemma_matches_at_chars(s: Seq<char>, pos: int, opt: Seq<char>)
    ensures
        matches_at(s, pos, opt) <==> (opt.len() > 0 && 0 <= pos && pos + opt.len() <= s.len()
            && forall|j: int| 0 <= j < opt.len() ==> lower(s[pos + j]) == lower(#[trigger] opt[j])),
{
    if opt.len() > 0 && 0 <= pos && pos + opt.len() <= s.len() {
        let scanned = s.subrange(pos, pos + opt.len());
        if matches_at(s, pos, opt) {
            assert forall|j: int| 0 <= j < opt.len() implies lower(s[pos + j]) == lower(
                #[trigger] opt[j],
            ) by {
                assert(lower_text(scanned)[j] == lower_text(opt)[j]);
                assert(scanned[j] == s[pos + j]);
            }
        }
        if forall|j: int| 0 <= j < opt.len() ==> lower(s[pos + j]) == lower(#[trigger] opt[j]) {
            assert forall|j: int| 0 <= j < opt.len() implies lower_text(scanned)[j] == lower_text(
                opt,
            )[j] by {
                assert(lower(s[pos + j]) == lower(opt[j]));
            }
            assert(lower_text(scanned) =~= lower_text(opt));
        }
    }
}

/// A candidate that is still in the race after `k` characters: it agrees with the
/// text on all of them, and it is longer than that.
pub open spec fn in_race(s: Seq<char>, pos: int, opt: Seq<char>, k: int) -> bool {
    &&& k <= opt.len()
    &&& pos + k <= s.len()
    &&& k == 0 || k < opt.len()
    &&& forall|j: int| 0 <= j < k ==> lower(s[pos + j]) == lower(#[trigger] opt[j])
}

/// The candidates that have had their chance once candidate `idx` is looked at with
/// `k` characters scanned: the shorter ones, and those `k` long that come before
/// `idx`.
pub open spec fn decided(options: Seq<Seq<char>>, k: int, idx: int) -> spec_fn(int) -> bool {
    |i: int| options[i].len() < k || (options[i].len() == k && i < idx)
}

/// Whether `m` is the best of the candidates picked out by `of`: empty if none of
/// them stands at `pos`, else the longest of those that do, and of several of that
/// length the first.
pub open spec fn is_best_of(
    s: Seq<char>,
    pos: int,
    options: Seq<Seq<char>>,
    of: spec_fn(int) -> bool,
    m: Seq<char>,
) -> bool {
    ||| m.len() == 0 && forall|i: int|
        0 <= i < options.len() && of(i) ==> !matches_at(s, pos, #[trigger] options[i])
    ||| exists|i: int|
        0 <= i < options.len() && of(i) && #[trigger] options[i] == m && matches_at(s, pos, m)
            && forall|j: int|
            0 <= j < options.len() && of(j) && matches_at(s, pos, #[trigger] options[j]) ==> (
            options[j].len() < m.len() || (options[j].len() == m.len() && i <= j))
}

/// The best of a set of candidates depends only on those of them that stand at
/// `pos`, and there is one best only.
pub proof fn lemma_best_is_unique(
    s: Seq<char>,
    pos: int,
    options: Seq<Seq<char>>,
    of1: spec_fn(int) -> bool,
    m1: Seq<char>,
    of2: spec_fn(int) -> bool,
    m2: Seq<char>,
)
    requires
        is_best_of(s, pos, options, of1, m1),
        is_best_of(s, pos, options, of2, m2),
        forall|i: int|
            0 <= i < options.len() && matches_at(s, pos, #[trigger] options[i]) ==> (of1(i)
                <==> of2(i)),
    ensures
        m1 == m2,
{
    if m1.len() == 0 && forall|i: int|
        0 <= i < options.len() && of1(i) ==> !matches_at(s, pos, #[trigger] options[i]) {
        if m2.len() > 0 {
            let i2 = choose|i: int|
                0 <= i < options.len() && of2(i) && #[trigger] options[i] == m2 && matches_at(
                    s,
                    pos,
                    m2,
                );
            assert(matches_at(s, pos, options[i2]));
        }
        assert(m1 =~= m2);
    } else {
        let i1 = choose|i: int|
            0 <= i < options.len() && of1(i) && #[trigger] options[i] == m1 && matches_at(
                s,
                pos,
                m1,
            ) && forall|j: int|
                0 <= j < options.len() && of1(j) && matches_at(s, pos, #[trigger] options[j])
                    ==> (options[j].len() < m1.len() || (options[j].len() == m1.len() && i <= j));
        assert(matches_at(s, pos, options[i1]));
        assert(of2(i1));
        let i2 = choose|i: int|
            0 <= i < options.len() && of2(i) && #[trigger] options[i] == m2 && matches_at(
                s,
                pos,
                m2,
            ) && forall|j: int|
                0 <= j < options.len() && of2(j) && matches_at(s, pos, #[trigger] options[j])
                    ==> (options[j].len() < m2.len() || (options[j].len() == m2.len() && i <= j));
        assert(matches_at(s, pos, options[i2]));
        assert(of1(i2));
        assert(i1 == i2);
    }
}

/// The best of the first `n` candidates, as `best_match` gives it, is their best.
pub proof fn lemma_best_match_is_best(s: Seq<char>, pos: int, options: Seq<Seq<char>>, n: int)
    requires
        0 <= n <= options.len(),
    ensures
        is_best_of(s, pos, options, |i: int| i < n, best_match(s, pos, options, n)),
    decreases n,
{
    let m = best_match(s, pos, options, n);
    if n > 0 {
        lemma_best_match_is_best(s, pos, options, n - 1);
        let prev = best_match(s, pos, options, n - 1);
        let before = |i: int| i < n - 1;
        let now = |i: int| i < n;
        let opt = options[n - 1];
        if matches_at(s, pos, opt) && opt.len() > prev.len() {
            assert(now(n - 1) && options[n - 1] == m);
            assert forall|j: int|
                0 <= j < options.len() && now(j) && matches_at(
                    s,
                    pos,
                    #[trigger] options[j],
                ) implies (options[j].len() < m.len() || (options[j].len() == m.len() && n - 1
                <= j)) by {
                if j < n - 1 {
                    assert(before(j));
                }
            }
        } else if prev.len() > 0 || exists|i: int|
            0 <= i < options.len() && before(i) && matches_at(s, pos, #[trigger] options[i]) {
            let i0 = choose|i: int|
                0 <= i < options.len() && before(i) && #[trigger] options[i] == prev
                    && matches_at(s, pos, prev) && forall|j: int|
                    0 <= j < options.len() && before(j) && matches_at(
                        s,
                        pos,
                        #[trigger] options[j],
                    ) ==> (options[j].len() < prev.len() || (options[j].len() == prev.len() && i
                        <= j));
            assert(now(i0) && options[i0] == m);
            assert forall|j: int|
                0 <= j < options.len() && now(j) && matches_at(
                    s,
                    pos,
                    #[trigger] options[j],
                ) implies (options[j].len() < m.len() || (options[j].len() == m.len() && i0
                <= j)) by {
                if j < n - 1 {
                    assert(before(j));
                }
            }
        } else {
            assert forall|i: int| 0 <= i < options.len() && now(i) implies !matches_at(
                s,
                pos,
                #[trigger] options[i],
            ) by {
                if i < n - 1 {
                    assert(before(i));
                }
            }
        }
    }
}

/// Looking at one more candidate: if it is `k` long and stands at `pos`, it is the
/// new best where it is longer than the old one; in every other case the old best
/// stays.
proof fn lemma_best_step(
    s: Seq<char>,
    pos: int,
    options: Seq<Seq<char>>,
    k: int,
    idx: int,
    best: Seq<char>,
)
    requires
        0 <= idx < options.len(),
        is_best_of(s, pos, options, decided(options, k, idx), best),
    ensures
        is_best_of(
            s,
            pos,
            options,
            decided(options, k, idx + 1),
            if matches_at(s, pos, options[idx]) && options[idx].len() == k && k > best.len() {
                options[idx]
            } else {
                best
            },
        ),
{
    let before = decided(options, k, idx);
    let now = decided(options, k, idx + 1);
    let opt = options[idx];
    if matches_at(s, pos, opt) && opt.len() == k {
        assert(now(idx));
        if k > best.len() {
            assert forall|j: int|
                0 <= j < options.len() && now(j) && matches_at(
                    s,
                    pos,
                    #[trigger] options[j],
                ) implies (options[j].len() < opt.len() || (options[j].len() == opt.len() && idx
                <= j)) by {
                if j != idx && options[j].len() >= k {
                    assert(before(j));
                }
            }
        } else {
            let i0 = choose|i: int|
                0 <= i < options.len() && before(i) && #[trigger] options[i] == best
                    && matches_at(s, pos, best) && forall|j: int|
                    0 <= j < options.len() && before(j) && matches_at(
                        s,
                        pos,
                        #[trigger] options[j],
                    ) ==> (options[j].len() < best.len() || (options[j].len() == best.len() && i
                        <= j));
            assert(now(i0));
            assert forall|j: int|
                0 <= j < options.len() && now(j) && matches_at(
                    s,
                    pos,
                    #[trigger] options[j],
                ) implies (options[j].len() < best.len() || (options[j].len() == best.len()
                && i0 <= j)) by {
                if j != idx {
                    assert(before(j));
                }
            }
        }
    } else {
        lemma_best_is_kept(s, pos, options, before, now, best);
    }
}

/// The best of a set of candidates is the best of any other set that holds the same
/// candidates that stand at `pos`.
proof fn lemma_best_is_kept(
    s: Seq<char>,
    pos: int,
    options: Seq<Seq<char>>,
    of1: spec_fn(int) -> bool,
    of2: spec_fn(int) -> bool,
    best: Seq<char>,
)
    requires
        is_best_of(s, pos, options, of1, best),
        forall|i: int|
            0 <= i < options.len() && matches_at(s, pos, #[trigger] options[i]) ==> (of1(i)
                <==> of2(i)),
    ensures
        is_best_of(s, pos, options, of2, best),
{
    if best.len() == 0 && forall|i: int|
        0 <= i < options.len() && of1(i) ==> !matches_at(s, pos, #[trigger] options[i]) {
    } else {
        let i0 = choose|i: int|
            0 <= i < options.len() && of1(i) && #[trigger] options[i] == best && matches_at(
                s,
                pos,
                best,
            ) && forall|j: int|
                0 <= j < options.len() && of1(j) && matches_at(s, pos, #[trigger] options[j])
                    ==> (options[j].len() < best.len() || (options[j].len() == best.len() && i
                    <= j));
        assert(matches_at(s, pos, options[i0]));
        assert(of2(i0));
    }
}

/// Finds the longest of `options` that stands at the cursor, whatever the case of
/// the text. The text is scanned one character at a time; a candidate leaves the
/// race when it is complete or when it differs from what was scanned, and the scan
/// stops when none is left.
pub fn longest_match(source: &String, cursor_in: Cursor, options: Vec<String>) -> (r: String)
    ensures
        r@ == spec_longest_match(source@, cursor_in.pos as int, texts(options@)),
        r@.len() == 0 || matches_at(source@, cursor_in.pos as int, r@),
{
    let n: usize = source.as_str().unicode_len();
    let pos: usize = cursor_in.pos as usize;
    let count: usize = options.len();
    let ghost s = source@;
    let ghost opts = texts(options@);
    let mut live: Vec<bool> = Vec::new();
    let mut i: usize = 0;
    while i < count
        invariant
            i <= count,
            live@.len() == i,
            forall|j: int| 0 <= j < i ==> live@[j],
        decreases count - i,
    {
        live.push(true);
        i += 1;
    }
    let mut best: String = String::new();
    let mut best_len: usize = 0;
    let mut k: usize = 0;
    let mut any_live: bool = count > 0 && pos < n;
    assert(is_best_of(s, pos as int, opts, decided(opts, 1, 0), best@)) by {
        assert forall|i: int| 0 <= i < opts.len() implies !(decided(opts, 1, 0)(i) && matches_at(
            s,
            pos as int,
            #[trigger] opts[i],
        )) by {}
    }
    while any_live && k < n - pos
        invariant
            count == options@.len(),
            live@.len() == count,
            opts == texts(options@),
            s == source@,
            n == s.len(),
            pos == cursor_in.pos,
            any_live ==> pos < n,
            pos < n ==> k <= n - pos,
            pos >= n ==> k == 0,
            best_len == best@.len(),
            forall|i: int|
                0 <= i < count && live@[i] && pos < n ==> in_race(
                    s,
                    pos as int,
                    #[trigger] opts[i],
                    k as int,
                ),
            forall|i: int|
                0 <= i < count && !live@[i] && matches_at(s, pos as int, #[trigger] opts[i])
                    ==> opts[i].len() <= k,
            is_best_of(s, pos as int, opts, decided(opts, k + 1, 0), best@),
            !any_live && pos < n ==> forall|i: int| 0 <= i < count ==> !#[trigger] live@[i],
        decreases n - k,
    {
        let c: char = to_lower(source.as_str().get_char(pos + k));
        k += 1;
        any_live = false;
        let mut i: usize = 0;
        proof {
            lemma_best_is_kept(
                s,
                pos as int,
                opts,
                decided(opts, k as int, 0),
                decided(opts, k as int, 0),
                best@,
            );
        }
        while i < count
            invariant
                i <= count,
                count == options@.len(),
                live@.len() == count,
                opts == texts(options@),
                s == source@,
                n == s.len(),
                pos < n,
                1 <= k <= n - pos,
                c == lower(s[pos + k - 1]),
                best_len == best@.len(),
                forall|j: int|
                    0 <= j < i && live@[j] ==> in_race(s, pos as int, #[trigger] opts[j], k as int),
                forall|j: int|
                    i <= j < count && live@[j] ==> in_race(
                        s,
                        pos as int,
                        #[trigger] opts[j],
                        k - 1,
                    ),
                forall|j: int|
                    0 <= j < i && !live@[j] && matches_at(s, pos as int, #[trigger] opts[j])
                        ==> opts[j].len() <= k,
                forall|j: int|
                    i <= j < count && !live@[j] && matches_at(s, pos as int, #[trigger] opts[j])
                        ==> opts[j].len() < k,
                is_best_of(s, pos as int, opts, decided(opts, k as int, i as int), best@),
                !any_live ==> forall|j: int| 0 <= j < i ==> !#[trigger] live@[j],
            decreases count - i,
        {
            let opt: &String = &options[i];
            let m: usize = opt.as_str().unicode_len();
            assert(opts[i as int] == opt@);
            proof {
                lemma_matches_at_chars(s, pos as int, opt@);
                lemma_best_step(s, pos as int, opts, k as int, i as int, best@);
            }
            if live[i] {
                if m < k {
                    live.set(i, false);
                } else if to_lower(opt.as_str().get_char(k - 1)) != c {
                    live.set(i, false);
                } else if m == k {
                    live.set(i, false);
                    if m > best_len {
                        best = opt.clone();
                        best_len = m;
                    }
                } else {
                    any_live = true;
                }
            }
            i += 1;
        }
        proof {
            lemma_best_is_kept(
                s,
                pos as int,
                opts,
                decided(opts, k as int, count as int),
                decided(opts, k + 1, 0),
                best@,
            );
        }
    }
    proof {
        assert forall|i: int|
            0 <= i < opts.len() && matches_at(s, pos as int, #[trigger] opts[i]) implies opts[i].len()
            <= k by {
            if live@[i] && pos < n {
                assert(in_race(s, pos as int, opts[i], k as int));
            }
        }
        let all = |i: int| i < opts.len();
        lemma_best_match_is_best(s, pos as int, opts, opts.len() as int);
        lemma_best_is_unique(
            s,
            pos as int,
            opts,
            decided(opts, k + 1, 0),
            best@,
            all,
            spec_longest_match(s, pos as int, opts),
        );
        lemma_best_match(s, pos as int, opts, opts.len() as int);
    }
    best
}

/// The keywords, in the order in which they are tried.
pub open spec fn keyword_texts() -> Seq<Seq<char>> {
    seq![
        Keyword::Select.text(),
        Keyword::Insert.text(),
        Keyword::Create.text(),
        Keyword::From.text(),
        Keyword::Into.text(),
        Keyword::Values.text(),
        Keyword::As.text(),
        Keyword::Int.text(),
        Keyword::Text.text(),
        Keyword::Table.text(),
    ]
}

/// The symbols, in the order in which they are tried.
pub open spec fn symbol_texts() -> Seq<Seq<char>> {
    seq![
        Symbol::Semicolon.text(),
        Symbol::Asterisk.text(),
        Symbol::LeftParen.text(),
        Symbol::RightParen.text(),
        Symbol::Comma.text(),
    ]
}

fn keywords() -> (r: Vec<String>)
    ensures
        texts(r@) == keyword_texts(),
{
    let mut v: Vec<String> = Vec::new();
    v.push(Keyword::Select.to_string());
    v.push(Keyword::Insert.to_string());
    v.push(Keyword::Create.to_string());
    v.push(Keyword::From.to_string());
    v.push(Keyword::Into.to_string());
    v.push(Keyword::Values.to_string());
    v.push(Keyword::As.to_string());
    v.push(Keyword::Int.to_string());
    v.push(Keyword::Text.to_string());
    v.push(Keyword::Table.to_string());
    assert(texts(v@) =~= keyword_texts());
    v
}

fn symbols() -> (r: Vec<String>)
    ensures
        texts(r@) == symbol_texts(),
{
    let mut v: Vec<String> = Vec::new();
    v.push(Symbol::Semicolon.to_string());
    v.push(Symbol::Asterisk.to_string());
    v.push(Symbol::LeftParen.to_string());
    v.push(Symbol::RightParen.to_string());
    v.push(Symbol::Comma.to_string());
    assert(texts(v@) =~= symbol_texts());
    v
}

/// A token of kind `kind` made of the longest of `options` that stands at the cursor.
pub open spec fn spec_lex_longest(
    s: Seq<char>,
    cur: Cursor,
    options: Seq<Seq<char>>,
    kind: TokenKind,
) -> Option<(TokenView, Cursor)> {
    let m = spec_longest_match(s, cur.pos as int, options);
    if inside(s, cur) && m.len() > 0 {
        Some((TokenView { literal: m, kind: kind, loc: cur.loc }, cur.advanced(m.len() as int)))
    } else {
        None
    }
}

/// A keyword token at the cursor: the longest keyword that stands there, in the
/// keyword's own lower-case spelling.
pub open spec fn spec_lex_keyword(s: Seq<char>, cur: Cursor) -> Option<(TokenView, Cursor)> {
    spec_lex_longest(s, cur, keyword_texts(), TokenKind::Keyword)
}

fn lex_longest(source: &String, cur: &mut Cursor, options: Vec<String>, kind: TokenKind) -> (r:
    Option<Token>)
    requires
        old(cur).wf(),
    ensures
        match r {
            Some(t) => lexed(
                source@,
                *old(cur),
                Ok(t),
                *final(cur),
                spec_lex_longest(source@, *old(cur), texts(options@), kind),
                Seq::<char>::empty(),
            ),
            None => spec_lex_longest(source@, *old(cur), texts(options@), kind) is None
                && *final(cur) == *old(cur),
        },
{
    let start: Cursor = *cur;
    let n: usize = source.as_str().unicode_len();
    if n > u32::MAX as usize || start.pos as usize >= n {
        return None;
    }
    let found: String = longest_match(source, start, options);
    let m: usize = found.as_str().unicode_len();
    if m == 0 {
        return None;
    }
    let tok = Token { literal: found, token_kind: kind, loc: start.loc };
    *cur = advance(start, m as u32);
    Some(tok)
}

/// Recognizes a keyword at the cursor and moves the cursor behind it.
pub fn lex_keyword(source: &String, cursor_in: &mut Cursor) -> (r: Result<Token, String>)
    requires
        old(cursor_in).wf(),
    ensures
        lexed(
            source@,
            *old(cursor_in),
            r,
            *final(cursor_in),
            spec_lex_keyword(source@, *old(cursor_in)),
            "No keyword found"@,
        ),
{
    match lex_longest(source, cursor_in, keywords(), TokenKind::Keyword) {
        Some(tok) => Ok(tok),
        None => Err(String::from_str("No keyword found")),
    }
}

/// What the symbol recognizer finds at the cursor. A space is a `Nil` token, which
/// is consumed and never emitted; so is a line break, behind which the cursor stands
/// at the start of the next line. Anything else must be the longest symbol that
/// stands there.
pub open spec fn spec_lex_symbols(s: Seq<char>, cur: Cursor) -> Option<(TokenView, Cursor)> {
    if !inside(s, cur) {
        None
    } else if s[cur.pos as int] == ' ' || s[cur.pos as int] == '\n' {
        Some(
            (
                TokenView {
                    literal: Seq::<char>::empty().push(s[cur.pos as int]),
                    kind: TokenKind::Nil,
                    loc: cur.loc,
                },
                if s[cur.pos as int] == ' ' {
                    cur.advanced(1)
                } else {
                    cur.next_line()
                },
            ),
        )
    } else {
        spec_lex_longest(s, cur, symbol_texts(), TokenKind::Symbol)
    }
}

/// Recognizes a symbol, a space or a line break at the cursor and moves the cursor
/// behind it.
pub fn lex_symbols(source: &String, cursor_in: &mut Cursor) -> (r: Result<Token, String>)
    requires
        old(cursor_in).wf(),
    ensures
        lexed(
            source@,
            *old(cursor_in),
            r,
            *final(cursor_in),
            spec_lex_symbols(source@, *old(cursor_in)),
            "Not found"@,
        ),
{
    let start: Cursor = *cursor_in;
    let n: usize = source.as_str().unicode_len();
    if n > u32::MAX as usize || start.pos as usize >= n {
        return Err(String::from_str("Not found"));
    }
    let c: char = source.as_str().get_char(start.pos as usize);
    if c == ' ' || c == '\n' {
        let mut literal: String = String::new();
        literal.push(c);
        let tok = Token { literal: literal, token_kind: TokenKind::Nil, loc: start.loc };
        if c == ' ' {
            *cursor_in = advance(start, 1);
        } else {
            *cursor_in = Cursor {
                pos: start.pos + 1,
                loc: Location { col: 0, line: start.loc.line + 1 },
            };
        }
        return Ok(tok);
    }
    match lex_longest(source, cursor_in, symbols(), TokenKind::Symbol) {
        Some(tok) => Ok(tok),
        None => Err(String::from_str("Not found")),
    }
}

/// Whether `c` can stand inside an unquoted identifier.
pub open spec fn identifier_part(c: char) -> bool {
    alphanumeric(c) || c == '$' || c == '_'
}

/// The end of the run of identifier characters that starts at `p`.
pub open spec fn identifier_end(s: Seq<char>, p: int) -> int
    decreases s.len() - p,
{
    if 0 <= p < s.len() && identifier_part(s[p]) {
        identifier_end(s, p + 1)
    } else {
        p
    }
}

/// An identifier at the cursor: a literal in double quotes, kept as it is written,
/// or else an alphabetic character and the identifier characters behind it, in
/// lower case.
pub open spec fn spec_lex_identifier(s: Seq<char>, cur: Cursor) -> Option<(TokenView, Cursor)> {
    let quoted = spec_lex_char_delimited(s, cur, '"');
    let end = identifier_end(s, cur.pos + 1);
    if quoted is Some {
        quoted
    } else if inside(s, cur) && alphabetic(s[cur.pos as int]) {
        Some(
            (
                TokenView {
                    literal: lower_text(s.subrange(cur.pos as int, end)),
                    kind: TokenKind::Identifier,
                    loc: cur.loc,
                },
                cur.advanced(end - cur.pos),
            ),
        )
    } else {
        None
    }
}

/// Recognizes an identifier at the cursor and moves the cursor behind it.
pub fn lex_identifier(source: &String, cursor_in: &mut Cursor) -> (r: Result<Token, String>)
    requires
        old(cursor_in).wf(),
    ensures
        lexed(
            source@,
            *old(cursor_in),
            r,
            *final(cursor_in),
            spec_lex_identifier(source@, *old(cursor_in)),
            "Not an identifier"@,
        ),
{
    match lex_char_delimited(source, cursor_in, '"') {
        Ok(token) => {
            return Ok(token);
        },
        Err(_) => {},
    }
    let start: Cursor = *cursor_in;
    let n: usize = source.as_str().unicode_len();
    if n > u32::MAX as usize || start.pos as usize >= n {
        return Err(String::from_str("Not an identifier"));
    }
    let first: usize = start.pos as usize;
    let head: char = source.as_str().get_char(first);
    if !head.is_alphabetic() {
        return Err(String::from_str("Not an identifier"));
    }
    let mut value: String = String::new();
    value.push(to_lower(head));
    let mut p: usize = first + 1;
    let mut more: bool = true;
    assert(value@ =~= lower_text(source@.subrange(first as int, p as int)));
    while more
        invariant
            first < p <= n,
            n == source@.len(),
            identifier_end(source@, first + 1) == identifier_end(source@, p as int),
            !more ==> identifier_end(source@, p as int) == p,
            value@ == lower_text(source@.subrange(first as int, p as int)),
        decreases n - p + (if more { 1int } else { 0int }),
    {
        if p < n {
            let c: char = source.as_str().get_char(p);
            if c.is_alphanumeric() || c == '$' || c == '_' {
                value.push(to_lower(c));
                p += 1;
                assert(value@ =~= lower_text(source@.subrange(first as int, p as int)));
            } else {
                more = false;
            }
        } else {
            more = false;
        }
    }
    let tok = Token { literal: value, token_kind: TokenKind::Identifier, loc: start.loc };
    *cursor_in = advance(start, (p - first) as u32);
    Ok(tok)
}

/// The token at the cursor: what the first of the five recognizers finds that finds
/// anything, tried in the order keyword, symbol, numeric, string, identifier.
pub open spec fn next_token(s: Seq<char>, cur: Cursor) -> Option<(TokenView, Cursor)> {
    if spec_lex_keyword(s, cur) is Some {
        spec_lex_keyword(s, cur)
    } else if spec_lex_symbols(s, cur) is Some {
        spec_lex_symbols(s, cur)
    } else if spec_lex_numeric(s, cur) is Some {
        spec_lex_numeric(s, cur)
    } else if spec_lex_string(s, cur) is Some {
        spec_lex_string(s, cur)
    } else {
        spec_lex_identifier(s, cur)
    }
}

/// The decimal digit `d`, for `d` below ten.
pub open spec fn digit_char(d: nat) -> char {
    ((48 + d) as u8) as char
}

/// `n` written in decimal.
pub open spec fn decimal_text(n: nat) -> Seq<char>
    decreases n,
{
    if n < 10 {
        Seq::<char>::empty().push(digit_char(n))
    } else {
        decimal_text(n / 10).push(digit_char(n % 10))
    }
}

fn decimal(n: u32) -> (r: String)
    ensures
        r@ == decimal_text(n as nat),
    decreases n,
{
    if n < 10 {
        let mut s: String = String::new();
        s.push(((48 + n) as u8) as char);
        s
    } else {
        let mut s: String = decimal(n / 10);
        s.push(((48 + n % 10) as u8) as char);
        s
    }
}

/// What the error says when nothing can be recognized at `cur`: the hint, then the
/// offset and the column.
pub open spec fn lex_failure_text(hint: Seq<char>, cur: Cursor) -> Seq<char> {
    "Unable to lex '"@ + hint + "', at "@ + decimal_text(cur.pos as nat) + ":"@ + decimal_text(
        cur.loc.col as nat,
    )
}

/// What the error says of a text with more characters than an offset can count.
pub open spec fn too_long_text() -> Seq<char> {
    "Unable to lex: the source is too long"@
}

/// The hint behind a token that was emitted: it names the token's text.
pub open spec fn hint_after(literal: Seq<char>) -> Seq<char> {
    " after "@ + literal
}

/// The tokens from `cur` to the end of the text, without the `Nil` ones, or the
/// error of the first place at which no recognizer finds a token. `hint` is empty
/// until a token has been emitted and then names the last one.
pub open spec fn lex_from(s: Seq<char>, cur: Cursor, hint: Seq<char>) -> Result<
    Seq<TokenView>,
    Seq<char>,
>
    decreases s.len() - cur.pos,
{
    if cur.pos >= s.len() {
        Ok(Seq::<TokenView>::empty())
    } else {
        match next_token(s, cur) {
            None => Err(lex_failure_text(hint, cur)),
            Some((tok, next)) => {
                if next.pos <= cur.pos || next.pos > s.len() {
                    Err(lex_failure_text(hint, cur))
                } else if tok.kind == TokenKind::Nil {
                    lex_from(s, next, hint)
                } else {
                    match lex_from(s, next, hint_after(tok.literal)) {
                        Ok(rest) => Ok(seq![tok] + rest),
                        Err(e) => Err(e),
                    }
                }
            },
        }
    }
}

/// No `Nil` token is ever emitted.
pub proof fn lemma_no_nil_is_emitted(s: Seq<char>, cur: Cursor, hint: Seq<char>)
    ensures
        match lex_from(s, cur, hint) {
            Ok(tokens) => forall|i: int|
                0 <= i < tokens.len() ==> (#[trigger] tokens[i]).kind != TokenKind::Nil,
            Err(_) => true,
        },
    decreases s.len() - cur.pos,
{
    if cur.pos < s.len() {
        match next_token(s, cur) {
            None => {},
            Some((tok, next)) => {
                if !(next.pos <= cur.pos || next.pos > s.len()) {
                    if tok.kind == TokenKind::Nil {
                        lemma_no_nil_is_emitted(s, next, hint);
                    } else {
                        lemma_no_nil_is_emitted(s, next, hint_after(tok.literal));
                    }
                }
            },
        }
    }
}

/// The tokens of a whole text, or the text of the error.
pub open spec fn spec_lex(s: Seq<char>) -> Result<Seq<TokenView>, Seq<char>> {
    if s.len() > u32::MAX {
        Err(too_long_text())
    } else {
        lex_from(s, Cursor { pos: 0, loc: Location { col: 0, line: 0 } }, Seq::<char>::empty())
    }
}

/// `rest` behind the tokens that were emitted before it.
pub open spec fn behind(emitted: Seq<TokenView>, rest: Result<Seq<TokenView>, Seq<char>>) -> Result<
    Seq<TokenView>,
    Seq<char>,
> {
    match rest {
        Ok(tokens) => Ok(emitted + tokens),
        Err(e) => Err(e),
    }
}

/// Whether the outcome of lexing is the expected one.
pub open spec fn lex_agrees(r: Result<Vec<Token>, String>, expected: Result<Seq<TokenView>, Seq<char>>) -> bool {
    match r {
        Ok(tokens) => expected == Ok::<Seq<TokenView>, Seq<char>>(token_views(tokens@)),
        Err(e) => expected == Err::<Seq<TokenView>, Seq<char>>(e@),
    }
}

fn lex_token(source: &String, cur: &mut Cursor) -> (r: Result<Token, String>)
    requires
        old(cur).wf(),
    ensures
        lexed(
            source@,
            *old(cur),
            r,
            *final(cur),
            next_token(source@, *old(cur)),
            "Not an identifier"@,
        ),
{
    match lex_keyword(source, cur) {
        Ok(token) => {
            return Ok(token);
        },
        Err(_) => {},
    }
    match lex_symbols(source, cur) {
        Ok(token) => {
            return Ok(token);
        },
        Err(_) => {},
    }
    match lex_numeric(source, cur) {
        Ok(token) => {
            return Ok(token);
        },
        Err(_) => {},
    }
    match lex_string(source, cur) {
        Ok(token) => {
            return Ok(token);
        },
        Err(_) => {},
    }
    lex_identifier(source, cur)
}

fn lex_failure(hint: &String, cur: Cursor) -> (r: String)
    ensures
        r@ == lex_failure_text(hint@, cur),
{
    let mut message: String = String::from_str("Unable to lex '");
    message.append(hint.as_str());
    message.append("', at ");
    message.append(decimal(cur.pos).as_str());
    message.append(":");
    message.append(decimal(cur.loc.col).as_str());
    message
}

/// Turns a text into its tokens. The whole call fails where nothing can be
/// recognized at some place.
pub fn lex(source: &String) -> (r: Result<Vec<Token>, String>)
    ensures
        lex_agrees(r, spec_lex(source@)),
{
    let n: usize = source.as_str().unicode_len();
    if n > u32::MAX as usize {
        return Err(String::from_str("Unable to lex: the source is too long"));
    }
    let mut tokens: Vec<Token> = Vec::new();
    let mut hint: String = String::new();
    let mut cur: Cursor = Cursor::new();
    while (cur.pos as usize) < n
        invariant
            cur.wf(),
            n == source@.len(),
            n <= u32::MAX,
            cur.pos <= n,
            spec_lex(source@) == behind(token_views(tokens@), lex_from(source@, cur, hint@)),
        decreases n - cur.pos,
    {
        let ghost emitted = token_views(tokens@);
        match lex_token(source, &mut cur) {
            Ok(token) => {
                if token.token_kind != TokenKind::Nil {
                    hint = String::from_str(" after ");
                    hint.append(token.literal.as_str());
                    let ghost rest = lex_from(source@, cur, hint@);
                    let ghost view = token@;
                    tokens.push(token);
                    proof {
                        assert(token_views(tokens@) =~= emitted + seq![view]);
                        match rest {
                            Ok(more) => {
                                assert(emitted + (seq![view] + more) =~= (emitted + seq![view])
                                    + more);
                            },
                            Err(_) => {},
                        }
                    }
                }
            },
            Err(_) => {
                return Err(lex_failure(&hint, cur));
            },
        }
    }
    proof {
        assert(token_views(tokens@) + Seq::<TokenView>::empty() =~= token_views(tokens@));
    }
    Ok(tokens)
}

} // verus!
