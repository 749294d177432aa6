//! The parts of a parsed SQL statement that lowering reads, as plain
//! values. Every node that lowering may reject carries `debug`, the text
//! that names it in the error message (the parser's debug rendering of the
//! node); names of tables, indexes and columns are carried as the parser
//! prints them.
use vstd::prelude::*;

verus! {

/// A literal value in SQL text.
#[derive(Debug)]
pub enum SqlValue {
    /// A numeric literal: its text, and the bit pattern of its `f64` value
    /// when the text reads as one.
    Number { text: String, float_bits: Option<u64> },
    Boolean(bool),
    SingleQuotedString(String),
    Null,
    Other { debug: String },
}

#[derive(Debug)]
pub enum SqlBinaryOperator {
    Eq,
    NotEq,
    Lt,
    LtEq,
    Gt,
    GtEq,
    And,
    Or,
    Plus,
    Other { debug: String },
}

#[derive(Debug)]
pub struct SqlExpr {
    pub kind: SqlExprKind,
    pub debug: String,
}

#[derive(Debug)]
pub enum SqlExprKind {
    Identifier(String),
    CompoundIdentifier(Vec<String>),
    /// A literal, and the debug rendering of the literal alone.
    Value { value: SqlValue, debug: String },
    BinaryOp { left: Box<SqlExpr>, op: SqlBinaryOperator, right: Box<SqlExpr> },
    IsNull(Box<SqlExpr>),
    IsNotNull(Box<SqlExpr>),
    Like { negated: bool, expr: Box<SqlExpr>, pattern: Box<SqlExpr> },
    Not(Box<SqlExpr>),
    InList { expr: Box<SqlExpr>, list: Vec<SqlExpr>, negated: bool },
    Between { expr: Box<SqlExpr>, negated: bool, low: Box<SqlExpr>, high: Box<SqlExpr> },
    Function(SqlFunction),
    Other,
}

#[derive(Debug)]
pub struct SqlFunction {
    /// The function's name as printed.
    pub name: String,
    pub args: SqlFunctionArgs,
}

#[derive(Debug)]
pub enum SqlFunctionArgs {
    /// No argument list at all.
    Absent,
    /// An argument list, and the debug rendering of the arguments.
    List { args: Vec<SqlFunctionArg>, debug: String },
    Subquery,
}

#[derive(Debug)]
pub enum SqlFunctionArg {
    /// An unnamed `*`.
    Wildcard,
    /// An unnamed expression.
    Expr(SqlExpr),
    Other,
}

#[derive(Debug)]
pub enum SqlTableFactor {
    Table { name: String, alias: Option<String> },
    Other { debug: String },
}

/// A join operator with an `ON` condition; any other operator or constraint
/// is `Other`.
#[derive(Debug)]
pub enum SqlJoinOperator {
    Inner(SqlExpr),
    Join(SqlExpr),
    Left(SqlExpr),
    Right(SqlExpr),
    FullOuter(SqlExpr),
    Other { debug: String },
}

#[derive(Debug)]
pub struct SqlJoin {
    pub relation: SqlTableFactor,
    pub operator: SqlJoinOperator,
}

#[derive(Debug)]
pub struct SqlTableWithJoins {
    pub relation: SqlTableFactor,
    pub joins: Vec<SqlJoin>,
}

#[derive(Debug)]
pub enum SqlSelectItemKind {
    UnnamedExpr(SqlExpr),
    ExprWithAlias { expr: SqlExpr, alias: String },
    Wildcard,
    Other,
}

#[derive(Debug)]
pub struct SqlSelectItem {
    pub kind: SqlSelectItemKind,
    pub debug: String,
}

#[derive(Debug)]
pub enum SqlGroupBy {
    Expressions(Vec<SqlExpr>),
    All,
}

#[derive(Debug)]
pub struct SqlSelect {
    pub from: Vec<SqlTableWithJoins>,
    pub selection: Option<SqlExpr>,
    pub projection: Vec<SqlSelectItem>,
    pub group_by: SqlGroupBy,
    pub having: Option<SqlExpr>,
}

#[derive(Debug)]
pub enum SqlSetExprKind {
    Select(SqlSelect),
    Values(Vec<Vec<SqlExpr>>),
    Other,
}

/// The body of a query, and its debug rendering.
#[derive(Debug)]
pub struct SqlSetExpr {
    pub kind: SqlSetExprKind,
    pub debug: String,
}

#[derive(Debug)]
pub struct SqlOrderByExpr {
    pub expr: SqlExpr,
    /// `Some(true)` for `ASC`, `Some(false)` for `DESC`, `None` when unstated.
    pub asc: Option<bool>,
}

#[derive(Debug)]
pub enum SqlOrderBy {
    Expressions(Vec<SqlOrderByExpr>),
    All,
}

#[derive(Debug)]
pub enum SqlLimitClause {
    LimitOffset { limit: Option<SqlExpr>, offset: Option<SqlExpr> },
    Other { debug: String },
}

#[derive(Debug)]
pub struct SqlQuery {
    pub body: SqlSetExpr,
    pub order_by: Option<SqlOrderBy>,
    pub limit: Option<SqlLimitClause>,
}

/// The last part of an inserted column's name.
#[derive(Debug)]
pub enum SqlColumnName {
    /// The name has no parts.
    Empty,
    /// The last part is not an identifier.
    Invalid,
    Name(String),
}

#[derive(Debug)]
pub struct SqlInsert {
    pub table: String,
    pub columns: Vec<SqlColumnName>,
    /// The body of the source query, if there is one.
    pub source: Option<SqlSetExpr>,
}

#[derive(Debug)]
pub enum SqlDataType {
    Int,
    Integer,
    BigInt,
    Bool,
    Boolean,
    Text,
    Varchar,
    String,
    Other { debug: String },
}

#[derive(Debug)]
pub struct SqlColumnDef {
    pub name: String,
    pub data_type: SqlDataType,
}

#[derive(Debug)]
pub struct SqlCreateTable {
    pub name: String,
    pub columns: Vec<SqlColumnDef>,
}

#[derive(Debug)]
pub struct SqlDelete {
    /// The `FROM` clause as printed, such as `FROM users`.
    pub from: String,
    pub selection: Option<SqlExpr>,
}

#[derive(Debug)]
pub struct SqlAssignment {
    /// The assignment target as printed.
    pub target: String,
    pub value: SqlExpr,
}

#[derive(Debug)]
pub struct SqlUpdate {
    pub table: SqlTableFactor,
    pub assignments: Vec<SqlAssignment>,
    pub selection: Option<SqlExpr>,
}

#[derive(Debug)]
pub struct SqlCreateIndex {
    pub name: Option<String>,
    pub table_name: String,
    pub columns: Vec<String>,
}

#[derive(Debug)]
pub enum SqlObjectType {
    Table,
    Index,
    Other { debug: String },
}

#[derive(Debug)]
pub enum SqlStatementKind {
    Query(SqlQuery),
    Insert(SqlInsert),
    CreateTable(SqlCreateTable),
    Delete(SqlDelete),
    Update(SqlUpdate),
    CreateIndex(SqlCreateIndex),
    Drop { object_type: SqlObjectType, if_exists: bool, names: Vec<String> },
    Vacuum { table_name: Option<String> },
    Other,
}

#[derive(Debug)]
pub struct SqlStatement {
    pub kind: SqlStatementKind,
    pub debug: String,
}

} // verus!
