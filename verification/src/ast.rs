//! The shapes of parsed statements and expressions.
use crate::lexer::{Token, TokenView};
use vstd::prelude::*;

verus! {

/// The forms of an expression. There is one today.
#[derive(Debug, Clone, Copy, PartialEq, Eq, Structural)]
pub enum ExpressionKind {
    Literal,
}

/// An expression: today a single token, a constant or the name of a column.
#[derive(Debug, Clone, PartialEq, Eq)]
pub struct Expression {
    pub literal: Token,
    pub kind: ExpressionKind,
}

/// An expression as plain values.
pub ghost struct ExpressionView {
    pub literal: TokenView,
    pub kind: ExpressionKind,
}

impl View for Expression {
    type V = ExpressionView;

    open spec fn view(&self) -> ExpressionView {
        ExpressionView { literal: self.literal@, kind: self.kind }
    }
}

/// The views of a list of expressions, in order.
pub open spec fn expression_views(items: Seq<Expression>) -> Seq<ExpressionView> {
    Seq::new(items.len(), |i: int| items[i]@)
}

/// A column of a `CREATE TABLE`: its name and the token that names its type.
#[derive(Debug, Clone)]
pub struct ColDefinition {
    pub name: Token,
    pub data_type: Token,
}

/// A column definition as plain values.
pub ghost struct ColDefinitionView {
    pub name: TokenView,
    pub data_type: TokenView,
}

impl View for ColDefinition {
    type V = ColDefinitionView;

    open spec fn view(&self) -> ColDefinitionView {
        ColDefinitionView { name: self.name@, data_type: self.data_type@ }
    }
}

/// The views of a list of column definitions, in order.
pub open spec fn column_views(cols: Seq<ColDefinition>) -> Seq<ColDefinitionView> {
    Seq::new(cols.len(), |i: int| cols[i]@)
}

/// A `CREATE TABLE`: the table's name and its columns, in order.
#[derive(Debug, Clone)]
pub struct Create {
    pub name: Token,
    pub cols: Vec<ColDefinition>,
}

/// A `CREATE TABLE` as plain values.
pub ghost struct CreateView {
    pub name: TokenView,
    pub cols: Seq<ColDefinitionView>,
}

impl View for Create {
    type V = CreateView;

    open spec fn view(&self) -> CreateView {
        CreateView { name: self.name@, cols: column_views(self.cols@) }
    }
}

/// An `INSERT`: the table's name and the values of one row, in order.
#[derive(Debug, Clone)]
pub struct Insert {
    pub table: Token,
    pub values: Vec<Expression>,
}

/// An `INSERT` as plain values.
pub ghost struct InsertView {
    pub table: TokenView,
    pub values: Seq<ExpressionView>,
}

impl View for Insert {
    type V = InsertView;

    open spec fn view(&self) -> InsertView {
        InsertView { table: self.table@, values: expression_views(self.values@) }
    }
}

/// A `SELECT`. Without a `FROM` clause, `from` is the nil token.
#[derive(Debug, Clone)]
pub struct Select {
    pub from: Token,
    pub items: Vec<Expression>,
}

/// A `SELECT` as plain values.
pub ghost struct SelectView {
    pub from: TokenView,
    pub items: Seq<ExpressionView>,
}

impl View for Select {
    type V = SelectView;

    open spec fn view(&self) -> SelectView {
        SelectView { from: self.from@, items: expression_views(self.items@) }
    }
}

/// The tag of a statement.
#[derive(Debug, Clone, Copy, PartialEq, Eq, Structural)]
pub enum StatementKind {
    Create,
    Insert,
    Select,
}

/// A statement: `kind` says which of the three payloads is the populated one.
#[derive(Debug, Clone)]
pub struct Statement {
    pub create: Option<Create>,
    pub insert: Option<Insert>,
    pub select: Option<Select>,
    pub kind: StatementKind,
}

/// A statement as the one variant that it is.
pub ghost enum StatementView {
    Create(CreateView),
    Insert(InsertView),
    Select(SelectView),
}

impl View for Statement {
    type V = StatementView;

    open spec fn view(&self) -> StatementView {
        match self.kind {
            StatementKind::Create => StatementView::Create(
                match self.create {
                    Some(c) => c@,
                    None => arbitrary(),
                },
            ),
            StatementKind::Insert => StatementView::Insert(
                match self.insert {
                    Some(i) => i@,
                    None => arbitrary(),
                },
            ),
            StatementKind::Select => StatementView::Select(
                match self.select {
                    Some(s) => s@,
                    None => arbitrary(),
                },
            ),
        }
    }
}

impl Statement {
    /// Exactly one payload is populated: the one that `kind` names.
    pub open spec fn wf(&self) -> bool {
        &&& self.create is Some <==> self.kind == StatementKind::Create
        &&& self.insert is Some <==> self.kind == StatementKind::Insert
        &&& self.select is Some <==> self.kind == StatementKind::Select
    }

    /// The statement that is this `CREATE TABLE`.
    pub fn from_create(create: Create) -> (r: Statement)
        ensures
            r.wf(),
            r@ == StatementView::Create(create@),
    {
        Statement { create: Some(create), insert: None, select: None, kind: StatementKind::Create }
    }

    /// The statement that is this `INSERT`.
    pub fn from_insert(insert: Insert) -> (r: Statement)
        ensures
            r.wf(),
            r@ == StatementView::Insert(insert@),
    {
        Statement { create: None, insert: Some(insert), select: None, kind: StatementKind::Insert }
    }

    /// The statement that is this `SELECT`.
    pub fn from_select(select: Select) -> (r: Statement)
        ensures
            r.wf(),
            r@ == StatementView::Select(select@),
    {
        Statement { create: None, insert: None, select: Some(select), kind: StatementKind::Select }
    }
}

/// The statements of a source text, in source order.
#[derive(Debug)]
pub struct Ast {
    pub statements: Vec<Statement>,
}

/// The views of a list of statements, in order.
pub open spec fn statement_views(statements: Seq<Statement>) -> Seq<StatementView> {
    Seq::new(statements.len(), |i: int| statements[i]@)
}

impl View for Ast {
    type V = Seq<StatementView>;

    open spec fn view(&self) -> Seq<StatementView> {
        statement_views(self.statements@)
    }
}

impl Ast {
    /// Every statement is well formed.
    pub open spec fn wf(&self) -> bool {
        forall|i: int| 0 <= i < self.statements@.len() ==> (#[trigger] self.statements@[i]).wf()
    }
}

} // verus!
