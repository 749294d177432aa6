//! Parsing SQL text into statements, and recognising the transaction-control
//! statements (`BEGIN`, `COMMIT`, `ROLLBACK`).
use sqlparser::ast::Statement;
use sqlparser::parser::ParserError;
use vstd::prelude::*;

verus! {

#[verifier::external_type_specification]
#[verifier::external_body]
pub struct ExStatement(sqlparser::ast::Statement);

#[verifier::external_type_specification]
#[verifier::external_body]
pub struct ExParserError(sqlparser::parser::ParserError);

/// The kind of a parsed statement, as far as transaction control cares.
#[derive(Debug, Clone, Copy, PartialEq, Eq)]
pub enum StatementKind {
    StartTransaction,
    Commit,
    Rollback,
    Other,
}

#[derive(Debug, Clone, Copy, PartialEq, Eq)]
pub enum TransactionControl {
    Begin,
    Commit,
    Rollback,
}

/// The kinds of the statements that sqlparser's `Parser::parse_sql` finds in
/// `sql` under the generic dialect, or `None` when it reports an error.
pub uninterp spec fn sqlparser_statement_kinds(sql: Seq<char>) -> Option<Seq<StatementKind>>;

/// Parses `sql` with `sqlparser::parser::Parser::parse_sql` and the generic
/// dialect, and tells apart the kind of each statement. Trusted: the result
/// depends on the text alone, and the kinds list the statements in order.
#[verifier::external_body]
fn parse_statements(sql: &str) -> (parsed: Result<(Vec<Statement>, Vec<StatementKind>), ParserError>)
    ensures
        match parsed {
            Ok((statements, kinds)) => statements@.len() == kinds@.len() && sqlparser_statement_kinds(sql@) == Some(kinds@),
            Err(_) => sqlparser_statement_kinds(sql@) is None,
        },
{
    let statements = sqlparser::parser::Parser::parse_sql(&sqlparser::dialect::GenericDialect {}, sql)?;
    let kinds = statements.iter().map(|s| match s {
        Statement::StartTransaction { .. } => StatementKind::StartTransaction,
        Statement::Commit { .. } => StatementKind::Commit,
        Statement::Rollback { .. } => StatementKind::Rollback,
        _ => StatementKind::Other,
    }).collect();
    Ok((statements, kinds))
}

/// Parsed SQL text.
#[derive(Debug)]
pub struct Ast {
    pub statements: Vec<Statement>,
    kinds: Vec<StatementKind>,
}

impl Ast {
    /// The kinds of the statements, in order.
    pub closed spec fn kinds(&self) -> Seq<StatementKind> {
        self.kinds@
    }

    /// The number of statements.
    pub closed spec fn statement_count(&self) -> nat {
        self.statements@.len()
    }
}

/// Why SQL text could not be parsed.
#[derive(Debug)]
pub enum ParseError {
    Sql(ParserError),
}

/// Parses SQL text, under the generic dialect.
pub fn parse(sql: &str) -> (ast: Result<Ast, ParseError>)
    ensures
        match ast {
            Ok(a) => sqlparser_statement_kinds(sql@) == Some(a.kinds()) && a.statement_count() == a.kinds().len(),
            Err(_) => sqlparser_statement_kinds(sql@) is None,
        },
{
    match parse_statements(sql) {
        Ok((statements, kinds)) => Ok(Ast { statements, kinds }),
        Err(e) => Err(ParseError::Sql(e)),
    }
}

pub open spec fn transaction_control_of(kind: StatementKind) -> Option<TransactionControl> {
    match kind {
        StatementKind::StartTransaction => Some(TransactionControl::Begin),
        StatementKind::Commit => Some(TransactionControl::Commit),
        StatementKind::Rollback => Some(TransactionControl::Rollback),
        StatementKind::Other => None,
    }
}

/// Whether the first statement is `BEGIN`/`START TRANSACTION`, `COMMIT` or
/// `ROLLBACK`; `None` for any other statement, or when there is none.
pub fn transaction_control(ast: &Ast) -> (control: Option<TransactionControl>)
    ensures
        control == (if ast.kinds().len() == 0 { None } else { transaction_control_of(ast.kinds()[0]) }),
{
    if ast.kinds.len() == 0 {
        return None;
    }
    match ast.kinds[0] {
        StatementKind::StartTransaction => Some(TransactionControl::Begin),
        StatementKind::Commit => Some(TransactionControl::Commit),
        StatementKind::Rollback => Some(TransactionControl::Rollback),
        StatementKind::Other => None,
    }
}

} // verus!
