//! The execution engine: a catalog of tables held in memory, and the encoding of
//! values as byte cells.
use crate::ast::{Create, CreateView, ExpressionView, Insert, InsertView, Select, SelectView};
use crate::lexer::{is_ascii_digit, is_digit, texts, Token, TokenKind, TokenView};
use vstd::prelude::*;
use vstd::string::*;
use vstd::utf8::*;

verus! {

/// The types that a column can have.
#[derive(Debug, Clone, Copy, PartialEq, Eq, Structural)]
pub enum ColumnType {
    TextType,
    IntType,
}

/// Why a statement could not be run. Where there is a text, it is the name or the
/// literal that the error is about.
#[derive(Debug, Clone, PartialEq, Eq)]
pub enum SQLError {
    TableDoesNotExist(String),
    TableAlreadyExists(String),
    ColumnDoesNotExist(String),
    InvalidDataType(String),
    MissingValues,
}

/// An error as plain values.
pub ghost enum SQLErrorView {
    TableDoesNotExist(Seq<char>),
    TableAlreadyExists(Seq<char>),
    ColumnDoesNotExist(Seq<char>),
    InvalidDataType(Seq<char>),
    MissingValues,
}

impl View for SQLError {
    type V = SQLErrorView;

    open spec fn view(&self) -> SQLErrorView {
        match self {
            SQLError::TableDoesNotExist(name) => SQLErrorView::TableDoesNotExist(name@),
            SQLError::TableAlreadyExists(name) => SQLErrorView::TableAlreadyExists(name@),
            SQLError::ColumnDoesNotExist(name) => SQLErrorView::ColumnDoesNotExist(name@),
            SQLError::InvalidDataType(name) => SQLErrorView::InvalidDataType(name@),
            SQLError::MissingValues => SQLErrorView::MissingValues,
        }
    }
}

impl SQLErrorView {
    /// The error as a line of text.
    pub open spec fn text(self) -> Seq<char> {
        match self {
            SQLErrorView::TableDoesNotExist(name) => "Table does not exists: "@ + name,
            SQLErrorView::TableAlreadyExists(name) => "Table already exists: "@ + name,
            SQLErrorView::ColumnDoesNotExist(name) => "Column does not exists: "@ + name,
            SQLErrorView::InvalidDataType(name) => "Invalid data type: "@ + name,
            SQLErrorView::MissingValues => "Missing values"@,
        }
    }
}

fn labelled(label: &str, name: &String) -> (r: String)
    ensures
        r@ == label@ + name@,
{
    let mut message: String = String::from_str(label);
    message.append(name.as_str());
    message
}

impl SQLError {
    /// The error as a line of text.
    pub fn to_string(&self) -> (r: String)
        ensures
            r@ == self@.text(),
    {
        match self {
            SQLError::TableDoesNotExist(name) => labelled("Table does not exists: ", name),
            SQLError::TableAlreadyExists(name) => labelled("Table already exists: ", name),
            SQLError::ColumnDoesNotExist(name) => labelled("Column does not exists: ", name),
            SQLError::InvalidDataType(name) => labelled("Invalid data type: ", name),
            SQLError::MissingValues => String::from_str("Missing values"),
        }
    }
}

/// The first place at or behind `from` where `flags` holds `true`, or -1.
pub open spec fn first_true(flags: Seq<bool>, from: int) -> int
    decreases flags.len() - from,
{
    if from < 0 || from >= flags.len() {
        -1
    } else if flags[from] {
        from
    } else {
        first_true(flags, from + 1)
    }
}

/// `first_true` finds a place that holds `true`, with none before it, or there is
/// none at all.
pub proof fn lemma_first_true(flags: Seq<bool>, from: int)
    requires
        0 <= from,
    ensures
        ({
            let at = first_true(flags, from);
            &&& at == -1 || (from <= at < flags.len() && flags[at])
            &&& forall|i: int| from <= i < flags.len() && (at == -1 || i < at) ==> !flags[i]
        }),
    decreases flags.len() - from,
{
    if from < flags.len() && !flags[from] {
        lemma_first_true(flags, from + 1);
    }
}

/// A storage cell: the bytes of one value.
pub type MemCell = Vec<u8>;

/// The four bytes that stand for `v`: little-endian, two's complement.
pub open spec fn int_cell(v: i32) -> Seq<u8> {
    let u = v as u32;
    seq![
        (u & 0xff) as u8,
        ((u >> 8) & 0xff) as u8,
        ((u >> 16) & 0xff) as u8,
        ((u >> 24) & 0xff) as u8,
    ]
}

/// The integer that four bytes stand for.
pub open spec fn cell_int(bytes: Seq<u8>) -> i32 {
    ((bytes[0] as u32) | (bytes[1] as u32) << 8 | (bytes[2] as u32) << 16 | (bytes[3] as u32)
        << 24) as i32
}

/// The bytes that stand for a text: its UTF-8 encoding.
pub open spec fn text_cell(text: Seq<char>) -> Seq<u8> {
    encode_utf8(text)
}

/// The text that bytes stand for.
pub open spec fn cell_text(bytes: Seq<u8>) -> Seq<char> {
    decode_utf8(bytes)
}

/// An integer comes back unchanged from its cell.
pub proof fn lemma_int_cell_round_trip(v: i32)
    ensures
        int_cell(v).len() == 4,
        cell_int(int_cell(v)) == v,
{
    let u = v as u32;
    let b0 = (u & 0xff) as u8;
    let b1 = ((u >> 8) & 0xff) as u8;
    let b2 = ((u >> 16) & 0xff) as u8;
    let b3 = ((u >> 24) & 0xff) as u8;
    assert(u == ((b0 as u32) | (b1 as u32) << 8 | (b2 as u32) << 16 | (b3 as u32) << 24)) by (bit_vector)
        requires
            b0 == (u & 0xff) as u8,
            b1 == ((u >> 8) & 0xff) as u8,
            b2 == ((u >> 16) & 0xff) as u8,
            b3 == ((u >> 24) & 0xff) as u8,
    ;
    assert((v as u32) as i32 == v) by (bit_vector);
}

/// A text comes back unchanged from its cell, which is valid UTF-8.
pub proof fn lemma_text_cell_round_trip(text: Seq<char>)
    ensures
        valid_utf8(text_cell(text)),
        cell_text(text_cell(text)) == text,
{
    encode_utf8_valid_utf8(text);
    encode_utf8_decode_utf8(text);
}

/// `String::from_utf8`: succeeds exactly on valid UTF-8, and the string that it
/// gives is the text that the bytes encode.
#[verifier::external_body]
fn string_from_utf8(bytes: Vec<u8>) -> (r: Option<String>)
    ensures
        match r {
            Some(s) => valid_utf8(bytes@) && s@ == decode_utf8(bytes@),
            None => !valid_utf8(bytes@),
        },
{
    String::from_utf8(bytes).ok()
}

fn clone_cell(cell: &Vec<u8>) -> (r: Vec<u8>)
    ensures
        r@ == cell@,
{
    let mut copy: Vec<u8> = Vec::new();
    let mut i: usize = 0;
    while i < cell.len()
        invariant
            i <= cell.len(),
            copy@ == cell@.take(i as int),
        decreases cell.len() - i,
    {
        copy.push(cell[i]);
        assert(copy@ =~= cell@.take(i + 1));
        i += 1;
    }
    assert(copy@ =~= cell@);
    copy
}

/// The two typed readings of a cell.
pub trait Cell {
    /// The bytes of the cell.
    spec fn bytes(&self) -> Seq<u8>;

    /// The cell as text. The bytes have to be valid UTF-8.
    fn as_text(&self) -> (r: String)
        requires
            valid_utf8(self.bytes()),
        ensures
            r@ == cell_text(self.bytes()),
    ;

    /// The cell as an integer. The cell has to hold exactly four bytes.
    fn as_int(&self) -> (r: i32)
        requires
            self.bytes().len() == 4,
        ensures
            r == cell_int(self.bytes()),
    ;
}

impl Cell for MemCell {
    open spec fn bytes(&self) -> Seq<u8> {
        self@
    }

    fn as_int(&self) -> (r: i32) {
        ((self[0] as u32) | (self[1] as u32) << 8 | (self[2] as u32) << 16 | (self[3] as u32)
            << 24) as i32
    }

    fn as_text(&self) -> (r: String) {
        match string_from_utf8(clone_cell(self)) {
            Some(text) => text,
            None => String::new(),
        }
    }
}

/// The number that a run of digits denotes.
pub open spec fn digits_value(s: Seq<char>) -> int
    decreases s.len(),
{
    if s.len() == 0 {
        0
    } else {
        digits_value(s.drop_last()) * 10 + (s.last() as int - '0' as int)
    }
}

/// Whether every character of `s` is a digit.
pub open spec fn all_digits(s: Seq<char>) -> bool {
    forall|i: int| 0 <= i < s.len() ==> is_digit(#[trigger] s[i])
}

/// The 32-bit integer that a literal denotes: an optional sign, then at least one
/// digit, the whole within the range of `i32`.
pub open spec fn int_value(s: Seq<char>) -> Option<i32> {
    let signed = s.len() > 0 && (s[0] == '-' || s[0] == '+');
    let body = if signed {
        s.subrange(1, s.len() as int)
    } else {
        s
    };
    let v = if signed && s[0] == '-' {
        -digits_value(body)
    } else {
        digits_value(body)
    };
    if body.len() > 0 && all_digits(body) && i32::MIN <= v <= i32::MAX {
        Some(v as i32)
    } else {
        None
    }
}

/// The value of a run of digits is not below that of any run it starts with.
pub proof fn lemma_digits_value_grows(s: Seq<char>, k: int)
    requires
        all_digits(s),
        0 <= k <= s.len(),
    ensures
        0 <= digits_value(s.take(k)) <= digits_value(s),
    decreases s.len() - k,
{
    if k == s.len() {
        assert(s.take(k) =~= s);
        lemma_digits_nonnegative(s);
    } else {
        lemma_digits_value_grows(s, k + 1);
        let t = s.take(k + 1);
        assert(t.drop_last() =~= s.take(k));
        assert(is_digit(s[k]));
        assert(t.last() == s[k]);
        lemma_digits_nonnegative(s.take(k));
        assert(digits_value(t) == digits_value(s.take(k)) * 10 + (s[k] as int - '0' as int));
    }
}

/// The value of a run of digits is not negative.
pub proof fn lemma_digits_nonnegative(s: Seq<char>)
    requires
        all_digits(s),
    ensures
        0 <= digits_value(s),
    decreases s.len(),
{
    if s.len() > 0 {
        assert(all_digits(s.drop_last()));
        lemma_digits_nonnegative(s.drop_last());
        assert(is_digit(s[s.len() - 1]));
    }
}

/// Reads a literal as a 32-bit integer.
pub fn parse_int(literal: &String) -> (r: Option<i32>)
    ensures
        r == int_value(literal@),
{
    let n: usize = literal.as_str().unicode_len();
    if n == 0 {
        return None;
    }
    let head: char = literal.as_str().get_char(0);
    let signed: bool = head == '-' || head == '+';
    let negative: bool = head == '-';
    let start: usize = if signed {
        1
    } else {
        0
    };
    if start == n {
        return None;
    }
    let ghost body = literal@.subrange(start as int, n as int);
    assert(!signed ==> body =~= literal@);
    let mut acc: i64 = 0;
    let mut i: usize = start;
    while i < n
        invariant
            start <= i <= n,
            n == literal@.len(),
            n > start,
            signed == (literal@[0] == '-' || literal@[0] == '+'),
            negative == (literal@[0] == '-'),
            start == (if signed { 1int } else { 0int }),
            body == literal@.subrange(start as int, n as int),
            !signed ==> body == literal@,
            all_digits(body.take(i - start)),
            acc == digits_value(body.take(i - start)),
            0 <= acc <= 2147483648,
        decreases n - i,
    {
        let c: char = literal.as_str().get_char(i);
        if !is_ascii_digit(c) {
            assert(body[i - start] == c);
            return None;
        }
        let d: i64 = (c as u8 - '0' as u8) as i64;
        let ghost prefix = body.take(i - start + 1);
        proof {
            assert(prefix.drop_last() =~= body.take(i - start));
            assert(prefix.last() == c);
            assert(all_digits(prefix)) by {
                assert forall|j: int| 0 <= j < prefix.len() implies is_digit(
                    #[trigger] prefix[j],
                ) by {
                    if j < i - start {
                        assert(body.take(i - start)[j] == prefix[j]);
                    }
                }
            }
        }
        acc = acc * 10 + d;
        assert(acc == digits_value(prefix));
        if acc > 2147483648 {
            proof {
                if all_digits(body) {
                    lemma_digits_value_grows(body, i - start + 1);
                }
            }
            return None;
        }
        i += 1;
    }
    assert(body.take(n - start) =~= body);
    assert(all_digits(body) && acc == digits_value(body));
    if negative {
        Some((-acc) as i32)
    } else if acc == 2147483648 {
        None
    } else {
        Some(acc as i32)
    }
}

/// The cell that a literal is stored as: a number as the four bytes of its value,
/// if it has one in 32 bits; anything else as the bytes of its text.
pub open spec fn cell_of(token: TokenView) -> Option<Seq<u8>> {
    if token.kind == TokenKind::Numeric {
        match int_value(token.literal) {
            Some(v) => Some(int_cell(v)),
            None => None,
        }
    } else {
        Some(text_cell(token.literal))
    }
}

fn int_to_cell(v: i32) -> (r: MemCell)
    ensures
        r@ == int_cell(v),
{
    let u: u32 = v as u32;
    let mut cell: Vec<u8> = Vec::new();
    cell.push((u & 0xff) as u8);
    cell.push(((u >> 8) & 0xff) as u8);
    cell.push(((u >> 16) & 0xff) as u8);
    cell.push(((u >> 24) & 0xff) as u8);
    assert(cell@ =~= int_cell(v));
    cell
}

/// Encodes a literal as a cell, where it has one.
pub fn encode_literal(token: &Token) -> (r: Option<MemCell>)
    ensures
        match r {
            Some(cell) => cell_of(token@) == Some(cell@),
            None => cell_of(token@) is None,
        },
{
    if token.token_kind == TokenKind::Numeric {
        match parse_int(&token.literal) {
            Some(v) => Some(int_to_cell(v)),
            None => None,
        }
    } else {
        Some(token.literal.as_str().as_bytes_vec())
    }
}

/// Encodes a literal as a cell. A numeric literal has to denote a 32-bit integer.
pub fn token_to_cell(token: Token) -> (r: MemCell)
    requires
        cell_of(token@) is Some,
    ensures
        cell_of(token@) == Some(r@),
{
    match encode_literal(&token) {
        Some(cell) => cell,
        None => Vec::new(),
    }
}

/// A literal's value comes back unchanged from the cell that it is stored as: a
/// number through the integer reading, any other text through the text reading.
pub proof fn lemma_cell_round_trip(token: TokenView)
    requires
        cell_of(token) is Some,
    ensures
        token.kind == TokenKind::Numeric ==> cell_of(token)->0.len() == 4 && Some(
            cell_int(cell_of(token)->0),
        ) == int_value(token.literal),
        token.kind != TokenKind::Numeric ==> valid_utf8(cell_of(token)->0) && cell_text(
            cell_of(token)->0,
        ) == token.literal,
{
    if token.kind == TokenKind::Numeric {
        lemma_int_cell_round_trip(int_value(token.literal)->0);
    } else {
        lemma_text_cell_round_trip(token.literal);
    }
}

/// A column of a query's output.
#[derive(Debug)]
pub struct Column {
    pub col_type: ColumnType,
    pub col_name: String,
}

/// An output column as plain values.
pub ghost struct ColumnView {
    pub col_type: ColumnType,
    pub col_name: Seq<char>,
}

impl View for Column {
    type V = ColumnView;

    open spec fn view(&self) -> ColumnView {
        ColumnView { col_type: self.col_type, col_name: self.col_name@ }
    }
}

/// The views of a list of output columns, in order.
pub open spec fn output_columns(columns: Seq<Column>) -> Seq<ColumnView> {
    Seq::new(columns.len(), |i: int| columns[i]@)
}

/// The cells of a row as plain bytes, in order.
pub open spec fn row_view(row: Seq<MemCell>) -> Seq<Seq<u8>> {
    Seq::new(row.len(), |i: int| row[i]@)
}

/// The rows of a table as plain bytes, in order.
pub open spec fn rows_view(rows: Seq<Vec<MemCell>>) -> Seq<Seq<Seq<u8>>> {
    Seq::new(rows.len(), |i: int| row_view(rows[i]@))
}

/// The output of a query.
pub struct Results {
    pub columns: Vec<Column>,
    pub rows: Vec<Vec<MemCell>>,
}

/// The output of a query as plain values.
pub ghost struct ResultsView {
    pub columns: Seq<ColumnView>,
    pub rows: Seq<Seq<Seq<u8>>>,
}

impl View for Results {
    type V = ResultsView;

    open spec fn view(&self) -> ResultsView {
        ResultsView { columns: output_columns(self.columns@), rows: rows_view(self.rows@) }
    }
}

/// A table: `columns[i]` and `column_types[i]` describe one column, and every row
/// holds one cell per column.
pub struct Table {
    pub name: String,
    pub columns: Vec<String>,
    pub rows: Vec<Vec<MemCell>>,
    pub column_types: Vec<ColumnType>,
}

/// A table as plain values.
pub ghost struct TableView {
    pub name: Seq<char>,
    pub columns: Seq<Seq<char>>,
    pub rows: Seq<Seq<Seq<u8>>>,
    pub column_types: Seq<ColumnType>,
}

impl TableView {
    /// Names and types are paired, and every row has one cell per column.
    pub open spec fn wf(self) -> bool {
        &&& self.columns.len() == self.column_types.len()
        &&& forall|i: int|
            0 <= i < self.rows.len() ==> (#[trigger] self.rows[i]).len() == self.columns.len()
    }

    /// The table with one more row at the end.
    pub open spec fn with_row(self, row: Seq<Seq<u8>>) -> TableView {
        TableView { rows: self.rows.push(row), ..self }
    }

    /// The place of the first column called `name`, or -1.
    pub open spec fn column_index(self, name: Seq<char>) -> int {
        first_true(Seq::new(self.columns.len(), |j: int| self.columns[j] == name), 0)
    }
}

impl View for Table {
    type V = TableView;

    open spec fn view(&self) -> TableView {
        TableView {
            name: self.name@,
            columns: texts(self.columns@),
            rows: rows_view(self.rows@),
            column_types: self.column_types@,
        }
    }
}

impl Table {
    /// A table without a name, columns or rows.
    pub fn new() -> (r: Table)
        ensures
            r@.wf(),
            r@ == (TableView {
                name: Seq::<char>::empty(),
                columns: Seq::<Seq<char>>::empty(),
                rows: Seq::<Seq<Seq<u8>>>::empty(),
                column_types: Seq::<ColumnType>::empty(),
            }),
    {
        let table = Table {
            name: String::new(),
            columns: Vec::new(),
            column_types: Vec::new(),
            rows: Vec::new(),
        };
        assert(table@.columns =~= Seq::<Seq<char>>::empty());
        assert(table@.rows =~= Seq::<Seq<Seq<u8>>>::empty());
        table
    }
}

/// The catalog that a list of tables stands for: each table under its name.
pub open spec fn catalog_of(tables: Seq<Table>) -> Map<Seq<char>, TableView>
    decreases tables.len(),
{
    if tables.len() == 0 {
        Map::empty()
    } else {
        catalog_of(tables.drop_last()).insert(tables.last().name@, tables.last()@)
    }
}

/// No two tables of the list have the same name.
pub open spec fn distinct_names(tables: Seq<Table>) -> bool {
    forall|i: int, j: int|
        0 <= i < j < tables.len() ==> (#[trigger] tables[i]).name@ != (#[trigger] tables[j]).name@
}

/// The catalog holds the names of the listed tables and no others.
pub proof fn lemma_catalog_names(tables: Seq<Table>, name: Seq<char>)
    ensures
        catalog_of(tables).contains_key(name) <==> exists|i: int|
            0 <= i < tables.len() && (#[trigger] tables[i]).name@ == name,
    decreases tables.len(),
{
    if tables.len() > 0 {
        let front = tables.drop_last();
        lemma_catalog_names(front, name);
        if catalog_of(tables).contains_key(name) {
            if tables.last().name@ == name {
                assert(tables[tables.len() - 1].name@ == name);
            } else {
                let i = choose|i: int| 0 <= i < front.len() && (#[trigger] front[i]).name@ == name;
                assert(tables[i].name@ == name);
            }
        }
        if exists|i: int| 0 <= i < tables.len() && (#[trigger] tables[i]).name@ == name {
            let i = choose|i: int| 0 <= i < tables.len() && (#[trigger] tables[i]).name@ == name;
            if i < front.len() {
                assert(front[i].name@ == name);
            }
        }
    }
}

/// Where names are distinct, the catalog holds each listed table under its name.
pub proof fn lemma_catalog_get(tables: Seq<Table>, i: int)
    requires
        distinct_names(tables),
        0 <= i < tables.len(),
    ensures
        catalog_of(tables).contains_key(tables[i].name@),
        catalog_of(tables)[tables[i].name@] == tables[i]@,
    decreases tables.len(),
{
    let front = tables.drop_last();
    if i < tables.len() - 1 {
        assert(distinct_names(front)) by {
            assert forall|a: int, b: int| 0 <= a < b < front.len() implies (#[trigger] front[a]).name@
                != (#[trigger] front[b]).name@ by {
                assert(tables[a].name@ != tables[b].name@);
            }
        }
        lemma_catalog_get(front, i);
        assert(front[i] == tables[i]);
        assert(tables[i].name@ != tables[tables.len() - 1].name@);
    }
}

/// Where names are distinct, replacing a table by one of the same name replaces
/// its entry in the catalog and nothing else.
pub proof fn lemma_catalog_update(tables: Seq<Table>, i: int, table: Table)
    requires
        distinct_names(tables),
        0 <= i < tables.len(),
        table.name@ == tables[i].name@,
    ensures
        distinct_names(tables.update(i, table)),
        catalog_of(tables.update(i, table)) == catalog_of(tables).insert(table.name@, table@),
    decreases tables.len(),
{
    let front = tables.drop_last();
    let updated = tables.update(i, table);
    assert(distinct_names(updated)) by {
        assert forall|a: int, b: int| 0 <= a < b < updated.len() implies (#[trigger] updated[a]).name@
            != (#[trigger] updated[b]).name@ by {
            assert(tables[a].name@ != tables[b].name@);
        }
    }
    if i == tables.len() - 1 {
        assert(updated.drop_last() =~= front);
        assert(catalog_of(updated) =~= catalog_of(tables).insert(table.name@, table@));
    } else {
        assert(distinct_names(front)) by {
            assert forall|a: int, b: int| 0 <= a < b < front.len() implies (#[trigger] front[a]).name@
                != (#[trigger] front[b]).name@ by {
                assert(tables[a].name@ != tables[b].name@);
            }
        }
        lemma_catalog_update(front, i, table);
        assert(updated.drop_last() =~= front.update(i, table));
        assert(updated.last() == tables.last());
        assert(tables[i].name@ != tables[tables.len() - 1].name@);
        assert(catalog_of(updated) =~= catalog_of(tables).insert(table.name@, table@));
    }
}

/// The type that a type literal names, if it names one.
pub open spec fn column_type_of(literal: Seq<char>) -> Option<ColumnType> {
    if literal == "int"@ {
        Some(ColumnType::IntType)
    } else if literal == "text"@ {
        Some(ColumnType::TextType)
    } else {
        None
    }
}

/// The place of the first column definition whose type literal names no type, or
/// -1.
pub open spec fn first_invalid_type(create: CreateView) -> int {
    first_true(
        Seq::new(
            create.cols.len(),
            |i: int| column_type_of(create.cols[i].data_type.literal) is None,
        ),
        0,
    )
}

/// The empty table that a `CREATE TABLE` describes.
pub open spec fn new_table(create: CreateView) -> TableView {
    TableView {
        name: create.name.literal,
        columns: Seq::new(create.cols.len(), |i: int| create.cols[i].name.literal),
        rows: Seq::<Seq<Seq<u8>>>::empty(),
        column_types: Seq::new(
            create.cols.len(),
            |i: int| column_type_of(create.cols[i].data_type.literal)->0,
        ),
    }
}

/// What a `CREATE TABLE` does to a catalog: it fails if the name is taken, or else
/// at the first column whose type is neither `int` nor `text`; otherwise the new
/// table is in the catalog.
pub open spec fn spec_create(catalog: Map<Seq<char>, TableView>, create: CreateView) -> Result<
    Map<Seq<char>, TableView>,
    SQLErrorView,
> {
    if catalog.contains_key(create.name.literal) {
        Err(SQLErrorView::TableAlreadyExists(create.name.literal))
    } else if first_invalid_type(create) >= 0 {
        Err(SQLErrorView::InvalidDataType(create.cols[first_invalid_type(create)].data_type.literal))
    } else {
        Ok(catalog.insert(create.name.literal, new_table(create)))
    }
}

/// The place of the first value that cannot be stored as a cell, or -1.
pub open spec fn first_unencodable(values: Seq<ExpressionView>) -> int {
    first_true(Seq::new(values.len(), |i: int| cell_of(values[i].literal) is None), 0)
}

/// The row that a list of values is stored as.
pub open spec fn row_of(values: Seq<ExpressionView>) -> Seq<Seq<u8>> {
    Seq::new(values.len(), |i: int| cell_of(values[i].literal)->0)
}

/// What an `INSERT` does to a catalog: it fails if the table is not there, if the
/// values are not as many as the table's columns, or at the first numeric literal
/// that is no 32-bit integer; otherwise the table has one more row, at the end.
pub open spec fn spec_insert(catalog: Map<Seq<char>, TableView>, insert: InsertView) -> Result<
    Map<Seq<char>, TableView>,
    SQLErrorView,
> {
    let name = insert.table.literal;
    if !catalog.contains_key(name) {
        Err(SQLErrorView::TableDoesNotExist(name))
    } else if insert.values.len() != catalog[name].columns.len() {
        Err(SQLErrorView::MissingValues)
    } else if first_unencodable(insert.values) >= 0 {
        Err(
            SQLErrorView::InvalidDataType(
                insert.values[first_unencodable(insert.values)].literal.literal,
            ),
        )
    } else {
        Ok(catalog.insert(name, catalog[name].with_row(row_of(insert.values))))
    }
}

/// Whether a projection names a column of the table.
pub open spec fn resolves(table: TableView, item: ExpressionView) -> bool {
    item.literal.kind == TokenKind::Identifier && table.column_index(item.literal.literal) >= 0
}

/// The place of the first projection that names no column of the table, or -1.
pub open spec fn first_unresolved(table: TableView, items: Seq<ExpressionView>) -> int {
    first_true(Seq::new(items.len(), |k: int| !resolves(table, items[k])), 0)
}

/// The first `n` cells of a row's projection.
pub open spec fn projected_row(
    table: TableView,
    row: Seq<Seq<u8>>,
    items: Seq<ExpressionView>,
    n: int,
) -> Seq<Seq<u8>> {
    Seq::new(n as nat, |k: int| row[table.column_index(items[k].literal.literal)])
}

/// The first `n` columns of a projection's schema.
pub open spec fn projected_columns(table: TableView, items: Seq<ExpressionView>, n: int) -> Seq<
    ColumnView,
> {
    Seq::new(
        n as nat,
        |k: int|
            ColumnView {
                col_type: table.column_types[table.column_index(items[k].literal.literal)],
                col_name: items[k].literal.literal,
            },
    )
}

/// The first `n` rows of a projection.
pub open spec fn projected_rows(table: TableView, items: Seq<ExpressionView>, n: int) -> Seq<
    Seq<Seq<u8>>,
> {
    Seq::new(n as nat, |i: int| projected_row(table, table.rows[i], items, items.len() as int))
}

/// What a `SELECT` yields: it fails if the table is not there; a table without rows
/// yields no columns and no rows, whatever is projected; otherwise it fails at the
/// first projection that is no identifier or names no column, or yields each row's
/// projection, in storage order, under the projected columns.
pub open spec fn spec_select(catalog: Map<Seq<char>, TableView>, select: SelectView) -> Result<
    ResultsView,
    SQLErrorView,
> {
    let name = select.from.literal;
    if !catalog.contains_key(name) {
        Err(SQLErrorView::TableDoesNotExist(name))
    } else {
        let table = catalog[name];
        if table.rows.len() == 0 {
            Ok(
                ResultsView {
                    columns: Seq::<ColumnView>::empty(),
                    rows: Seq::<Seq<Seq<u8>>>::empty(),
                },
            )
        } else if first_unresolved(table, select.items) >= 0 {
            Err(
                SQLErrorView::ColumnDoesNotExist(
                    select.items[first_unresolved(table, select.items)].literal.literal,
                ),
            )
        } else {
            Ok(
                ResultsView {
                    columns: projected_columns(table, select.items, select.items.len() as int),
                    rows: projected_rows(table, select.items, table.rows.len() as int),
                },
            )
        }
    }
}

/// Whether an operation that changes the catalog did what is expected of it: on
/// success the catalog is the expected one; on failure the error is the expected
/// one and the catalog is as it was.
pub open spec fn changed(
    before: Map<Seq<char>, TableView>,
    r: Result<(), SQLError>,
    after: Map<Seq<char>, TableView>,
    expected: Result<Map<Seq<char>, TableView>, SQLErrorView>,
) -> bool {
    match r {
        Ok(_) => expected == Ok::<Map<Seq<char>, TableView>, SQLErrorView>(after),
        Err(e) => expected == Err::<Map<Seq<char>, TableView>, SQLErrorView>(e@) && after
            == before,
    }
}

/// Whether a query yielded what is expected of it.
pub open spec fn selected(r: Result<Results, SQLError>, expected: Result<ResultsView, SQLErrorView>) -> bool {
    match r {
        Ok(results) => expected == Ok::<ResultsView, SQLErrorView>(results@),
        Err(e) => expected == Err::<ResultsView, SQLErrorView>(e@),
    }
}

/// The three operations of an engine on its catalog.
pub trait Backend {
    /// The invariant of the engine's state.
    spec fn wf(&self) -> bool;

    /// The catalog: each table under its name.
    spec fn catalog(&self) -> Map<Seq<char>, TableView>;

    /// Adds the table that `create` describes.
    fn create(&mut self, create: &Create) -> (r: Result<(), SQLError>)
        requires
            old(self).wf(),
        ensures
            final(self).wf(),
            changed(
                old(self).catalog(),
                r,
                final(self).catalog(),
                spec_create(old(self).catalog(), create@),
            ),
    ;

    /// Appends the row that `insert` describes to its table.
    fn insert(&mut self, insert: &Insert) -> (r: Result<(), SQLError>)
        requires
            old(self).wf(),
        ensures
            final(self).wf(),
            changed(
                old(self).catalog(),
                r,
                final(self).catalog(),
                spec_insert(old(self).catalog(), insert@),
            ),
    ;

    /// Projects the rows of a table, in storage order.
    fn select(&self, select: &Select) -> (r: Result<Results, SQLError>)
        requires
            self.wf(),
        ensures
            selected(r, spec_select(self.catalog(), select@)),
    ;
}

/// An engine that keeps its tables in memory, in the order of their creation.
pub struct MemoryBackend {
    pub tables: Vec<Table>,
}

impl MemoryBackend {
    /// An engine with an empty catalog.
    pub fn new() -> (r: MemoryBackend)
        ensures
            r.wf(),
            r.catalog() == Map::<Seq<char>, TableView>::empty(),
    {
        MemoryBackend { tables: Vec::new() }
    }
}

fn find_table(tables: &Vec<Table>, name: &String) -> (r: Option<usize>)
    ensures
        match r {
            Some(i) => i < tables.len() && tables[i as int].name@ == name@,
            None => !catalog_of(tables@).contains_key(name@),
        },
{
    let mut i: usize = 0;
    while i < tables.len()
        invariant
            i <= tables.len(),
            forall|j: int| 0 <= j < i ==> (#[trigger] tables@[j]).name@ != name@,
        decreases tables.len() - i,
    {
        if tables[i].name == *name {
            return Some(i);
        }
        i += 1;
    }
    proof {
        lemma_catalog_names(tables@, name@);
    }
    None
}

fn find_column(columns: &Vec<String>, name: &String) -> (r: Option<usize>)
    ensures
        match r {
            Some(j) => j < columns.len() && j == first_true(
                Seq::new(texts(columns@).len(), |j: int| texts(columns@)[j] == name@),
                0,
            ),
            None => first_true(
                Seq::new(texts(columns@).len(), |j: int| texts(columns@)[j] == name@),
                0,
            ) == -1,
        },
{
    let ghost flags = Seq::new(texts(columns@).len(), |j: int| texts(columns@)[j] == name@);
    let mut j: usize = 0;
    while j < columns.len()
        invariant
            j <= columns.len(),
            flags == Seq::new(texts(columns@).len(), |j: int| texts(columns@)[j] == name@),
            first_true(flags, 0) == first_true(flags, j as int),
        decreases columns.len() - j,
    {
        if columns[j] == *name {
            return Some(j);
        }
        j += 1;
    }
    None
}

fn column_type(literal: &String) -> (r: Option<ColumnType>)
    ensures
        r == column_type_of(literal@),
{
    if *literal == String::from_str("int") {
        Some(ColumnType::IntType)
    } else if *literal == String::from_str("text") {
        Some(ColumnType::TextType)
    } else {
        None
    }
}

impl Backend for MemoryBackend {
    /// No two tables share a name, and every table is well formed.
    open spec fn wf(&self) -> bool {
        &&& distinct_names(self.tables@)
        &&& forall|i: int| 0 <= i < self.tables@.len() ==> (#[trigger] self.tables@[i])@.wf()
    }

    open spec fn catalog(&self) -> Map<Seq<char>, TableView> {
        catalog_of(self.tables@)
    }

    #[verifier::loop_isolation(false)]
    fn create(&mut self, create: &Create) -> (r: Result<(), SQLError>) {
        match find_table(&self.tables, &create.name.literal) {
            Some(i) => {
                proof {
                    lemma_catalog_get(self.tables@, i as int);
                }
                return Err(SQLError::TableAlreadyExists(create.name.literal.clone()));
            },
            None => {},
        }
        let mut table = Table::new();
        table.name = create.name.literal.clone();
        let ghost flags = Seq::new(
            create@.cols.len(),
            |i: int| column_type_of(create@.cols[i].data_type.literal) is None,
        );
        let mut i: usize = 0;
        assert(table@.rows.len() == 0);
        assert(texts(table.columns@) =~= Seq::new(0, |k: int| create@.cols[k].name.literal));
        assert(table.column_types@ =~= Seq::new(
            0,
            |k: int| column_type_of(create@.cols[k].data_type.literal)->0,
        ));
        while i < create.cols.len()
            invariant
                i <= create.cols.len(),
                *self == *old(self),
                !catalog_of(self.tables@).contains_key(create@.name.literal),
                flags == Seq::new(
                    create@.cols.len(),
                    |i: int| column_type_of(create@.cols[i].data_type.literal) is None,
                ),
                first_true(flags, 0) == first_true(flags, i as int),
                table.name@ == create@.name.literal,
                texts(table.columns@) == Seq::new(i as nat, |k: int| create@.cols[k].name.literal),
                table.column_types@ == Seq::new(
                    i as nat,
                    |k: int| column_type_of(create@.cols[k].data_type.literal)->0,
                ),
                table.rows@.len() == 0,
            decreases create.cols.len() - i,
        {
            let col = &create.cols[i];
            assert(create@.cols[i as int] == col@);
            let ghost names = texts(table.columns@);
            let ghost types = table.column_types@;
            match column_type(&col.data_type.literal) {
                Some(column_type) => {
                    table.columns.push(col.name.literal.clone());
                    table.column_types.push(column_type);
                },
                None => {
                    return Err(SQLError::InvalidDataType(col.data_type.literal.clone()));
                },
            }
            i += 1;
            assert(texts(table.columns@) =~= names.push(col@.name.literal));
            assert(names.push(col@.name.literal) =~= Seq::new(
                i as nat,
                |k: int| create@.cols[k].name.literal,
            ));
            assert(types.push(column_type_of(col@.data_type.literal)->0) =~= Seq::new(
                i as nat,
                |k: int| column_type_of(create@.cols[k].data_type.literal)->0,
            ));
        }
        proof {
            lemma_catalog_names(self.tables@, create@.name.literal);
            assert(table@.rows =~= Seq::<Seq<Seq<u8>>>::empty());
            assert(table@ == new_table(create@));
            assert(self.tables@.push(table).drop_last() =~= self.tables@);
        }
        self.tables.push(table);
        Ok(())
    }

    #[verifier::loop_isolation(false)]
    fn insert(&mut self, insert: &Insert) -> (r: Result<(), SQLError>) {
        let idx: usize = match find_table(&self.tables, &insert.table.literal) {
            Some(i) => i,
            None => {
                return Err(SQLError::TableDoesNotExist(insert.table.literal.clone()));
            },
        };
        proof {
            lemma_catalog_get(self.tables@, idx as int);
        }
        if insert.values.len() != self.tables[idx].columns.len() {
            return Err(SQLError::MissingValues);
        }
        let ghost flags = Seq::new(
            insert@.values.len(),
            |i: int| cell_of(insert@.values[i].literal) is None,
        );
        let mut row: Vec<MemCell> = Vec::new();
        let mut k: usize = 0;
        assert(row_view(row@) =~= Seq::new(0, |m: int| cell_of(insert@.values[m].literal)->0));
        while k < insert.values.len()
            invariant
                k <= insert.values.len(),
                *self == *old(self),
                flags == Seq::new(
                    insert@.values.len(),
                    |i: int| cell_of(insert@.values[i].literal) is None,
                ),
                first_true(flags, 0) == first_true(flags, k as int),
                row_view(row@) == Seq::new(
                    k as nat,
                    |m: int| cell_of(insert@.values[m].literal)->0,
                ),
            decreases insert.values.len() - k,
        {
            let e = &insert.values[k];
            assert(insert@.values[k as int] == e@);
            let ghost cells = row_view(row@);
            match encode_literal(&e.literal) {
                Some(cell) => {
                    row.push(cell);
                },
                None => {
                    return Err(SQLError::InvalidDataType(e.literal.literal.clone()));
                },
            }
            k += 1;
            assert(row_view(row@) =~= cells.push(cell_of(e@.literal)->0));
            assert(cells.push(cell_of(e@.literal)->0) =~= Seq::new(
                k as nat,
                |m: int| cell_of(insert@.values[m].literal)->0,
            ));
        }
        assert(row_view(row@) =~= row_of(insert@.values));
        let mut table: Table = self.tables.remove(idx);
        let ghost before = table@;
        table.rows.push(row);
        proof {
            assert(table@.rows =~= before.rows.push(row_view(row@)));
            assert(table@ == before.with_row(row_of(insert@.values)));
            lemma_catalog_update(old(self).tables@, idx as int, table);
            assert(self.tables@.insert(idx as int, table) =~= old(self).tables@.update(
                idx as int,
                table,
            ));
        }
        self.tables.insert(idx, table);
        Ok(())
    }

    #[verifier::loop_isolation(false)]
    fn select(&self, select: &Select) -> (r: Result<Results, SQLError>) {
        let idx: usize = match find_table(&self.tables, &select.from.literal) {
            Some(i) => i,
            None => {
                return Err(SQLError::TableDoesNotExist(select.from.literal.clone()));
            },
        };
        proof {
            lemma_catalog_get(self.tables@, idx as int);
        }
        let table: &Table = &self.tables[idx];
        let ghost tv = table@;
        let ghost items = select@.items;
        let ghost flags = Seq::new(items.len(), |k: int| !resolves(tv, items[k]));
        let mut columns: Vec<Column> = Vec::new();
        let mut rows: Vec<Vec<MemCell>> = Vec::new();
        let mut i: usize = 0;
        assert(rows_view(rows@) =~= projected_rows(tv, items, 0));
        assert(output_columns(columns@) =~= Seq::<ColumnView>::empty());
        assert(rows_view(rows@) =~= Seq::<Seq<Seq<u8>>>::empty());
        while i < table.rows.len()
            invariant
                i <= table.rows.len(),
                tv == table@,
                tv.wf(),
                items == select@.items,
                flags == Seq::new(items.len(), |k: int| !resolves(tv, items[k])),
                self.catalog().contains_key(select@.from.literal),
                self.catalog()[select@.from.literal] == tv,
                rows_view(rows@) == projected_rows(tv, items, i as int),
                i == 0 ==> output_columns(columns@) == Seq::<ColumnView>::empty(),
                i > 0 ==> first_true(flags, 0) == -1 && output_columns(columns@)
                    == projected_columns(tv, items, items.len() as int),
            decreases table.rows.len() - i,
        {
            let row: &Vec<MemCell> = &table.rows[i];
            assert(tv.rows[i as int] == row_view(row@));
            assert(row@.len() == tv.columns.len());
            let mut result: Vec<MemCell> = Vec::new();
            let mut k: usize = 0;
            assert(row_view(result@) =~= projected_row(tv, tv.rows[i as int], items, 0));
            assert(i == 0 ==> output_columns(columns@) =~= projected_columns(tv, items, 0));
            while k < select.items.len()
                invariant
                    k <= select.items.len(),
                    i < table.rows.len(),
                    tv == table@,
                    tv.wf(),
                    row == &table.rows[i as int],
                    tv.rows[i as int] == row_view(row@),
                    row@.len() == tv.columns.len(),
                    items == select@.items,
                    flags == Seq::new(items.len(), |k: int| !resolves(tv, items[k])),
                    first_true(flags, 0) == first_true(flags, k as int),
                    row_view(result@) == projected_row(tv, tv.rows[i as int], items, k as int),
                    i == 0 ==> output_columns(columns@) == projected_columns(tv, items, k as int),
                    i > 0 ==> first_true(flags, 0) == -1 && output_columns(columns@)
                        == projected_columns(tv, items, items.len() as int),
                decreases select.items.len() - k,
            {
                let exp = &select.items[k];
                assert(items[k as int] == exp@);
                let lit: &Token = &exp.literal;
                if lit.token_kind != TokenKind::Identifier {
                    return Err(SQLError::ColumnDoesNotExist(lit.literal.clone()));
                }
                match find_column(&table.columns, &lit.literal) {
                    None => {
                        return Err(SQLError::ColumnDoesNotExist(lit.literal.clone()));
                    },
                    Some(j) => {
                        assert(j == tv.column_index(lit.literal@));
                        let ghost shown = output_columns(columns@);
                        let ghost cells = row_view(result@);
                        if i == 0 {
                            columns.push(
                                Column {
                                    col_type: table.column_types[j],
                                    col_name: lit.literal.clone(),
                                },
                            );
                            let ghost column = ColumnView {
                                col_type: tv.column_types[j as int],
                                col_name: lit.literal@,
                            };
                            assert(output_columns(columns@) =~= shown.push(column));
                            assert(shown.push(column) =~= projected_columns(tv, items, k + 1));
                        }
                        result.push(clone_cell(&row[j]));
                        assert(row_view(result@) =~= cells.push(row@[j as int]@));
                        assert(cells.push(row@[j as int]@) =~= projected_row(
                            tv,
                            tv.rows[i as int],
                            items,
                            k + 1,
                        ));
                    },
                }
                k += 1;
            }
            let ghost done = rows_view(rows@);
            let ghost cells = row_view(result@);
            rows.push(result);
            i += 1;
            assert(rows_view(rows@) =~= done.push(cells));
            assert(done.push(cells) =~= projected_rows(tv, items, i as int));
        }
        Ok(Results { rows: rows, columns: columns })
    }
}

/// An `INSERT` whose values are not as many as the table's columns fails with
/// `MissingValues`, whatever the values are; the catalog, and so the table's rows,
/// stay as they were.
pub proof fn lemma_insert_counts_values(catalog: Map<Seq<char>, TableView>, insert: InsertView)
    requires
        catalog.contains_key(insert.table.literal),
        insert.values.len() != catalog[insert.table.literal].columns.len(),
    ensures
        spec_insert(catalog, insert) == Err::<Map<Seq<char>, TableView>, SQLErrorView>(
            SQLErrorView::MissingValues,
        ),
{
}

/// A `SELECT` from a table that is not in the catalog fails with
/// `TableDoesNotExist`. From a table with at least one row, a projection that is no
/// identifier or names no column of the table makes it fail with
/// `ColumnDoesNotExist`.
pub proof fn lemma_select_fails(catalog: Map<Seq<char>, TableView>, select: SelectView, k: int)
    ensures
        !catalog.contains_key(select.from.literal) ==> spec_select(catalog, select) == Err::<
            ResultsView,
            SQLErrorView,
        >(SQLErrorView::TableDoesNotExist(select.from.literal)),
        catalog.contains_key(select.from.literal) && catalog[select.from.literal].rows.len() > 0
            && 0 <= k < select.items.len() && !resolves(
            catalog[select.from.literal],
            select.items[k],
        ) ==> spec_select(catalog, select) is Err && spec_select(
            catalog,
            select,
        )->Err_0 is ColumnDoesNotExist,
{
    if catalog.contains_key(select.from.literal) {
        let table = catalog[select.from.literal];
        let flags = Seq::new(select.items.len(), |k: int| !resolves(table, select.items[k]));
        lemma_first_true(flags, 0);
        if table.rows.len() > 0 && 0 <= k < select.items.len() && !resolves(table, select.items[k]) {
            assert(flags[k]);
        }
    }
}

/// A `CREATE TABLE` with a column whose type is neither `int` nor `text` fails with
/// `InvalidDataType`, unless the name is taken, and the table is not in the catalog
/// afterwards.
pub proof fn lemma_create_checks_types(catalog: Map<Seq<char>, TableView>, create: CreateView, i: int)
    requires
        !catalog.contains_key(create.name.literal),
        0 <= i < create.cols.len(),
        column_type_of(create.cols[i].data_type.literal) is None,
    ensures
        spec_create(catalog, create) is Err,
        spec_create(catalog, create)->Err_0 is InvalidDataType,
{
    let flags = Seq::new(
        create.cols.len(),
        |i: int| column_type_of(create.cols[i].data_type.literal) is None,
    );
    lemma_first_true(flags, 0);
    assert(flags[i]);
}

} // verus!
