//! Lowering SQL statements to logical plans.
use crate::ir::{
    assignments_view, column_defs_view, expr_view, literal_rows_view, literal_view, literals_view, option_expr_view,
    plan_view, projection_view, strings_view, ColumnDef, ColumnType, Expr, ExprView, JoinKind, Literal, LiteralView,
    LogicalPlan, LowerError, PlanView, Projection, ProjectionView,
};
use crate::lower_expr::{
    dotted, error_is, expr_result_matches, join_dotted, literal_expr_spec, literal_result_matches, lower_expr,
    lower_expr_spec, lower_literal_expr, message, views_of,
};
use crate::sql_ast::{
    SqlAssignment, SqlColumnDef, SqlColumnName, SqlCreateTable, SqlDataType, SqlDelete, SqlExpr, SqlExprKind,
    SqlInsert, SqlJoinOperator, SqlSelect, SqlSelectItem, SqlSelectItemKind, SqlSetExpr, SqlSetExprKind, SqlStatement,
    SqlStatementKind, SqlTableFactor, SqlTableWithJoins, SqlUpdate,
};
use vstd::prelude::*;

verus! {

// ---------------------------------------------------------------------------
// Lowering a list: every item in order, or the first error
// ---------------------------------------------------------------------------
/// `f` applied to every item of `s`, in order, or the first error.
pub open spec fn collect_all<A, B>(s: Seq<A>, f: spec_fn(A) -> Result<B, Seq<char>>) -> Result<Seq<B>, Seq<char>>
    decreases s.len(),
{
    if s.len() == 0 {
        Ok(Seq::empty())
    } else {
        match collect_all(s.drop_last(), f) {
            Err(m) => Err(m),
            Ok(bs) => match f(s.last()) {
                Err(m) => Err(m),
                Ok(b) => Ok(bs.push(b)),
            },
        }
    }
}

/// One more item of the list.
pub proof fn lemma_collect_step<A, B>(s: Seq<A>, f: spec_fn(A) -> Result<B, Seq<char>>, i: int)
    requires
        0 <= i < s.len(),
    ensures
        collect_all(s.take(i + 1), f) == (match collect_all(s.take(i), f) {
            Err(m) => Err(m),
            Ok(bs) => match f(s[i]) {
                Err(m) => Err(m),
                Ok(b) => Ok(bs.push(b)),
            },
        }),
{
    assert(s.take(i + 1).drop_last() =~= s.take(i));
    assert(s.take(i + 1).last() == s[i]);
}

/// Once a prefix of the list fails, the whole list fails the same way.
pub proof fn lemma_collect_error_persists<A, B>(s: Seq<A>, f: spec_fn(A) -> Result<B, Seq<char>>, k: int)
    requires
        0 <= k <= s.len(),
        collect_all(s.take(k), f) is Err,
    ensures
        collect_all(s, f) == collect_all(s.take(k), f),
    decreases s.len() - k,
{
    if k < s.len() {
        lemma_collect_step(s, f, k);
        lemma_collect_error_persists(s, f, k + 1);
    } else {
        assert(s.take(k) =~= s);
    }
}

/// The whole list is its longest prefix.
pub proof fn lemma_collect_whole<A, B>(s: Seq<A>, f: spec_fn(A) -> Result<B, Seq<char>>)
    ensures
        collect_all(s.take(s.len() as int), f) == collect_all(s, f),
{
    assert(s.take(s.len() as int) =~= s);
}

/// Every item of the list lowers.
pub proof fn lemma_collect_len<A, B>(s: Seq<A>, f: spec_fn(A) -> Result<B, Seq<char>>)
    ensures
        collect_all(s, f) is Ok ==> collect_all(s, f)->Ok_0.len() == s.len(),
    decreases s.len(),
{
    if s.len() > 0 {
        lemma_collect_len(s.drop_last(), f);
    }
}

pub open spec fn plan_result_matches(r: Result<LogicalPlan, LowerError>, s: Result<PlanView, Seq<char>>) -> bool {
    match (r, s) {
        (Ok(p), Ok(v)) => plan_view(p) == v,
        (Err(e), Err(m)) => error_is(e, m),
        _ => false,
    }
}

// ---------------------------------------------------------------------------
// FROM and the projection
// ---------------------------------------------------------------------------
/// A table reference: its real name, and the name that qualifies its
/// columns (the alias when there is one).
pub open spec fn relation_spec(r: SqlTableFactor) -> Result<(Seq<char>, Seq<char>), Seq<char>> {
    match r {
        SqlTableFactor::Table { name, alias } => Ok(
            (
                name@,
                match alias {
                    Some(a) => a@,
                    None => name@,
                },
            ),
        ),
        SqlTableFactor::Other { debug } => Err("FROM entry: "@ + debug@),
    }
}

pub fn table_name_and_qualifier(relation: &SqlTableFactor) -> (r: Result<(String, String), LowerError>)
    ensures
        match (r, relation_spec(*relation)) {
            (Ok((a, b)), Ok((x, y))) => a@ == x && b@ == y,
            (Err(e), Err(m)) => error_is(e, m),
            _ => false,
        },
{
    match relation {
        SqlTableFactor::Table { name, alias } => {
            let qualifier = match alias {
                Some(a) => a.clone(),
                None => name.clone(),
            };
            Ok((name.clone(), qualifier))
        },
        SqlTableFactor::Other { debug } => Err(LowerError::Unsupported(message("FROM entry: ", debug))),
    }
}

/// A projected column: a plain or dotted column name.
pub open spec fn projection_item_spec(item: SqlSelectItem) -> Result<Seq<char>, Seq<char>> {
    match item.kind {
        SqlSelectItemKind::UnnamedExpr(e) => match e.kind {
            SqlExprKind::Identifier(n) => Ok(n@),
            SqlExprKind::CompoundIdentifier(parts) => Ok(dotted(views_of(parts@))),
            _ => Err("projection item: "@ + item.debug@),
        },
        _ => Err("projection item: "@ + item.debug@),
    }
}

pub open spec fn projection_item_fn() -> spec_fn(SqlSelectItem) -> Result<Seq<char>, Seq<char>> {
    |item: SqlSelectItem| projection_item_spec(item)
}

/// A lone `*` keeps every column; otherwise each item names one column.
pub open spec fn projection_spec(items: Seq<SqlSelectItem>) -> Result<ProjectionView, Seq<char>> {
    if items.len() == 1 && items[0].kind is Wildcard {
        Ok(ProjectionView::All)
    } else {
        match collect_all(items, projection_item_fn()) {
            Ok(names) => Ok(ProjectionView::Columns(names)),
            Err(m) => Err(m),
        }
    }
}

fn lower_projection_item(item: &SqlSelectItem) -> (r: Result<String, LowerError>)
    ensures
        match (r, projection_item_spec(*item)) {
            (Ok(a), Ok(x)) => a@ == x,
            (Err(e), Err(m)) => error_is(e, m),
            _ => false,
        },
{
    match &item.kind {
        SqlSelectItemKind::UnnamedExpr(e) => match &e.kind {
            SqlExprKind::Identifier(n) => Ok(n.clone()),
            SqlExprKind::CompoundIdentifier(parts) => Ok(join_dotted(parts)),
            _ => Err(LowerError::Unsupported(message("projection item: ", &item.debug))),
        },
        _ => Err(LowerError::Unsupported(message("projection item: ", &item.debug))),
    }
}

pub fn lower_projection(projection: &[SqlSelectItem]) -> (r: Result<Projection, LowerError>)
    ensures
        match (r, projection_spec(projection@)) {
            (Ok(p), Ok(v)) => projection_view(p) == v,
            (Err(e), Err(m)) => error_is(e, m),
            _ => false,
        },
{
    if projection.len() == 1 && matches!(projection[0].kind, SqlSelectItemKind::Wildcard) {
        return Ok(Projection::All);
    }
    let ghost f = projection_item_fn();
    let mut names: Vec<String> = Vec::new();
    let mut i: usize = 0;
    assert(projection@.take(0) =~= Seq::<SqlSelectItem>::empty());
    assert(strings_view(names@) =~= Seq::<Seq<char>>::empty());
    while i < projection.len()
        invariant
            i <= projection@.len(),
            f == projection_item_fn(),
            !(projection@.len() == 1 && projection@[0].kind is Wildcard),
            collect_all(projection@.take(i as int), f) == Ok::<Seq<Seq<char>>, Seq<char>>(strings_view(names@)),
        decreases projection.len() - i,
    {
        proof {
            lemma_collect_step(projection@, f, i as int);
        }
        let name = match lower_projection_item(&projection[i]) {
            Ok(n) => n,
            Err(e) => {
                proof {
                    lemma_collect_error_persists(projection@, f, i + 1);
                }
                return Err(e);
            },
        };
        let ghost before = names@;
        names.push(name);
        assert(strings_view(names@) =~= strings_view(before).push(name@));
        i = i + 1;
    }
    proof {
        lemma_collect_whole(projection@, f);
    }
    Ok(Projection::Columns(names))
}

/// The join condition and kind of a join operator.
pub open spec fn join_operator_spec(op: SqlJoinOperator) -> Result<(ExprView, JoinKind), Seq<char>> {
    match op {
        SqlJoinOperator::Inner(e) => with_kind(lower_expr_spec(e), JoinKind::Inner),
        SqlJoinOperator::Join(e) => with_kind(lower_expr_spec(e), JoinKind::Inner),
        SqlJoinOperator::Left(e) => with_kind(lower_expr_spec(e), JoinKind::Left),
        SqlJoinOperator::Right(e) => with_kind(lower_expr_spec(e), JoinKind::Right),
        SqlJoinOperator::FullOuter(e) => with_kind(lower_expr_spec(e), JoinKind::FullOuter),
        SqlJoinOperator::Other { debug } => Err("join type: "@ + debug@),
    }
}

pub open spec fn with_kind(r: Result<ExprView, Seq<char>>, kind: JoinKind) -> Result<(ExprView, JoinKind), Seq<char>> {
    match r {
        Ok(e) => Ok((e, kind)),
        Err(m) => Err(m),
    }
}

/// The plan that reads the `FROM` clause: exactly one entry, with at most
/// one join.
pub open spec fn from_spec(from: Seq<SqlTableWithJoins>) -> Result<PlanView, Seq<char>> {
    if from.len() != 1 {
        Err("queries must reference exactly one FROM entry"@)
    } else {
        match relation_spec(from[0].relation) {
            Err(m) => Err(m),
            Ok((left_real, left_qualifier)) => {
                let joins = from[0].joins@;
                if joins.len() == 0 {
                    Ok(PlanView::Scan(left_real))
                } else if joins.len() == 1 {
                    match relation_spec(joins[0].relation) {
                        Err(m) => Err(m),
                        Ok((right_real, right_qualifier)) => match join_operator_spec(joins[0].operator) {
                            Err(m) => Err(m),
                            Ok((on, kind)) => Ok(
                                PlanView::Join(
                                    Box::new(PlanView::Scan(left_real)),
                                    Box::new(PlanView::Scan(right_real)),
                                    left_qualifier,
                                    right_qualifier,
                                    on,
                                    kind,
                                ),
                            ),
                        },
                    }
                } else {
                    Err("only a single JOIN is supported for now"@)
                }
            },
        }
    }
}

fn lower_join_operator(op: &SqlJoinOperator) -> (r: Result<(Expr, JoinKind), LowerError>)
    ensures
        match (r, join_operator_spec(*op)) {
            (Ok((e, k)), Ok((x, j))) => expr_view(e) == x && k == j,
            (Err(e), Err(m)) => error_is(e, m),
            _ => false,
        },
{
    match op {
        SqlJoinOperator::Inner(e) => Ok((lower_expr(e)?, JoinKind::Inner)),
        SqlJoinOperator::Join(e) => Ok((lower_expr(e)?, JoinKind::Inner)),
        SqlJoinOperator::Left(e) => Ok((lower_expr(e)?, JoinKind::Left)),
        SqlJoinOperator::Right(e) => Ok((lower_expr(e)?, JoinKind::Right)),
        SqlJoinOperator::FullOuter(e) => Ok((lower_expr(e)?, JoinKind::FullOuter)),
        SqlJoinOperator::Other { debug } => Err(LowerError::Unsupported(message("join type: ", debug))),
    }
}

pub fn lower_from(from: &[SqlTableWithJoins]) -> (r: Result<LogicalPlan, LowerError>)
    ensures
        plan_result_matches(r, from_spec(from@)),
{
    if from.len() != 1 {
        return Err(LowerError::Unsupported("queries must reference exactly one FROM entry".to_string()));
    }
    let table_with_joins = &from[0];
    let (left_real, left_qualifier) = match table_name_and_qualifier(&table_with_joins.relation) {
        Ok(names) => names,
        Err(e) => return Err(e),
    };
    assert(relation_spec(from@[0].relation) == Ok::<(Seq<char>, Seq<char>), Seq<char>>((left_real@, left_qualifier@)));
    let left_plan = LogicalPlan::Scan { table: left_real };
    let ghost joins = from@[0].joins@;
    assert(table_with_joins.joins@ == joins);
    if table_with_joins.joins.len() == 0 {
        assert(plan_view(left_plan) == PlanView::Scan(left_real@));
        assert(from_spec(from@) == Ok::<PlanView, Seq<char>>(PlanView::Scan(left_real@)));
        Ok(left_plan)
    } else if table_with_joins.joins.len() == 1 {
        let join = &table_with_joins.joins[0];
        let (right_real, right_qualifier) = match table_name_and_qualifier(&join.relation) {
            Ok(names) => names,
            Err(e) => return Err(e),
        };
        let (on, kind) = match lower_join_operator(&join.operator) {
            Ok(j) => j,
            Err(e) => return Err(e),
        };
        let right_plan = LogicalPlan::Scan { table: right_real };
        assert(relation_spec(joins[0].relation) == Ok::<(Seq<char>, Seq<char>), Seq<char>>((right_real@, right_qualifier@)));
        assert(join_operator_spec(joins[0].operator) == Ok::<(ExprView, JoinKind), Seq<char>>((expr_view(on), kind)));
        assert(plan_view(left_plan) == PlanView::Scan(left_real@));
        assert(plan_view(right_plan) == PlanView::Scan(right_real@));
        let plan = LogicalPlan::Join {
            left: Box::new(left_plan),
            right: Box::new(right_plan),
            left_table: left_qualifier,
            right_table: right_qualifier,
            on,
            kind,
        };
        assert(from_spec(from@) == Ok::<PlanView, Seq<char>>(plan_view(plan)));
        Ok(plan)
    } else {
        assert(from_spec(from@) == Err::<PlanView, Seq<char>>("only a single JOIN is supported for now"@));
        let m = "only a single JOIN is supported for now".to_string();
        assert(m@ == "only a single JOIN is supported for now"@);
        Err(LowerError::Unsupported(m))
    }
}

// ---------------------------------------------------------------------------
// SELECT
// ---------------------------------------------------------------------------
/// The input of the projection: the `FROM` plan, filtered by `WHERE` when
/// there is one.
pub open spec fn filtered_spec(base: PlanView, selection: Option<SqlExpr>) -> Result<PlanView, Seq<char>> {
    match selection {
        Some(p) => match lower_expr_spec(p) {
            Ok(x) => Ok(PlanView::Filter(Box::new(base), x)),
            Err(m) => Err(m),
        },
        None => Ok(base),
    }
}

/// `SELECT`: the `FROM` plan, then the `WHERE` filter, then the projection;
/// the parts are lowered in that order and the first error is reported.
pub open spec fn select_spec(s: SqlSelect) -> Result<PlanView, Seq<char>> {
    match from_spec(s.from@) {
        Err(m) => Err(m),
        Ok(base) => match filtered_spec(base, s.selection) {
            Err(m) => Err(m),
            Ok(filtered) => match projection_spec(s.projection@) {
                Err(m) => Err(m),
                Ok(c) => Ok(PlanView::Project(Box::new(filtered), c)),
            },
        },
    }
}

pub fn lower_select(select: &SqlSelect) -> (r: Result<LogicalPlan, LowerError>)
    ensures
        plan_result_matches(r, select_spec(*select)),
{
    let base = lower_from(select.from.as_slice())?;
    let ghost base_view = plan_view(base);
    let filtered = match &select.selection {
        Some(predicate) => {
            let p = lower_expr(predicate)?;
            let f = LogicalPlan::Filter { input: Box::new(base), predicate: p };
            assert(plan_view(f) == PlanView::Filter(Box::new(base_view), expr_view(p)));
            f
        },
        None => base,
    };
    assert(filtered_spec(base_view, select.selection) == Ok::<PlanView, Seq<char>>(plan_view(filtered)));
    let ghost filtered_view = plan_view(filtered);
    let columns = lower_projection(select.projection.as_slice())?;
    let plan = LogicalPlan::Project { input: Box::new(filtered), columns };
    assert(plan_view(plan) == PlanView::Project(Box::new(filtered_view), projection_view(columns)));
    Ok(plan)
}

/// A query body must be a `SELECT`.
pub open spec fn set_expr_spec(q: SqlSetExpr) -> Result<PlanView, Seq<char>> {
    match q.kind {
        SqlSetExprKind::Select(s) => select_spec(s),
        _ => Err("query body: "@ + q.debug@),
    }
}

pub fn lower_select_expr(set_expr: &SqlSetExpr) -> (r: Result<LogicalPlan, LowerError>)
    ensures
        plan_result_matches(r, set_expr_spec(*set_expr)),
{
    match &set_expr.kind {
        SqlSetExprKind::Select(select) => lower_select(select),
        _ => Err(LowerError::Unsupported(message("query body: ", &set_expr.debug))),
    }
}

// ---------------------------------------------------------------------------
// INSERT
// ---------------------------------------------------------------------------
/// An inserted column is named by the last part of its name, which must be
/// an identifier.
pub open spec fn column_name_spec(c: SqlColumnName) -> Result<Seq<char>, Seq<char>> {
    match c {
        SqlColumnName::Empty => Err("empty column"@),
        SqlColumnName::Invalid => Err("invalid column"@),
        SqlColumnName::Name(n) => Ok(n@),
    }
}

pub open spec fn column_name_fn() -> spec_fn(SqlColumnName) -> Result<Seq<char>, Seq<char>> {
    |c: SqlColumnName| column_name_spec(c)
}

pub open spec fn literal_fn() -> spec_fn(SqlExpr) -> Result<LiteralView, Seq<char>> {
    |e: SqlExpr| literal_expr_spec(e)
}

pub open spec fn row_fn() -> spec_fn(Vec<SqlExpr>) -> Result<Seq<LiteralView>, Seq<char>> {
    |r: Vec<SqlExpr>| collect_all(r@, literal_fn())
}

/// `INSERT INTO t (columns) VALUES (rows)`: the columns, then the source,
/// which must be a `VALUES` list of literals.
pub open spec fn insert_spec(i: SqlInsert) -> Result<PlanView, Seq<char>> {
    match collect_all(i.columns@, column_name_fn()) {
        Err(m) => Err(m),
        Ok(columns) => match i.source {
            None => Err("INSERT without VALUES"@),
            Some(body) => match body.kind {
                SqlSetExprKind::Values(rows) => match collect_all(rows@, row_fn()) {
                    Err(m) => Err(m),
                    Ok(values) => Ok(PlanView::Insert(i.table@, columns, values)),
                },
                _ => Err("INSERT source: "@ + body.debug@),
            },
        },
    }
}

fn lower_column_name(c: &SqlColumnName) -> (r: Result<String, LowerError>)
    ensures
        match (r, column_name_spec(*c)) {
            (Ok(a), Ok(x)) => a@ == x,
            (Err(e), Err(m)) => error_is(e, m),
            _ => false,
        },
{
    match c {
        SqlColumnName::Empty => Err(LowerError::Unsupported("empty column".to_string())),
        SqlColumnName::Invalid => Err(LowerError::Unsupported("invalid column".to_string())),
        SqlColumnName::Name(n) => Ok(n.clone()),
    }
}

fn lower_column_names(columns: &[SqlColumnName]) -> (r: Result<Vec<String>, LowerError>)
    ensures
        match (r, collect_all(columns@, column_name_fn())) {
            (Ok(v), Ok(x)) => strings_view(v@) == x,
            (Err(e), Err(m)) => error_is(e, m),
            _ => false,
        },
{
    let ghost f = column_name_fn();
    let mut names: Vec<String> = Vec::new();
    let mut i: usize = 0;
    assert(columns@.take(0) =~= Seq::<SqlColumnName>::empty());
    assert(strings_view(names@) =~= Seq::<Seq<char>>::empty());
    while i < columns.len()
        invariant
            i <= columns@.len(),
            f == column_name_fn(),
            collect_all(columns@.take(i as int), f) == Ok::<Seq<Seq<char>>, Seq<char>>(strings_view(names@)),
        decreases columns.len() - i,
    {
        proof {
            lemma_collect_step(columns@, f, i as int);
        }
        let name = match lower_column_name(&columns[i]) {
            Ok(n) => n,
            Err(e) => {
                proof {
                    lemma_collect_error_persists(columns@, f, i + 1);
                }
                return Err(e);
            },
        };
        let ghost before = names@;
        names.push(name);
        assert(strings_view(names@) =~= strings_view(before).push(name@));
        i = i + 1;
    }
    proof {
        lemma_collect_whole(columns@, f);
    }
    Ok(names)
}

fn lower_row(row: &[SqlExpr]) -> (r: Result<Vec<Literal>, LowerError>)
    ensures
        match (r, collect_all(row@, literal_fn())) {
            (Ok(v), Ok(x)) => literals_view(v@) == x,
            (Err(e), Err(m)) => error_is(e, m),
            _ => false,
        },
{
    let ghost f = literal_fn();
    let mut values: Vec<Literal> = Vec::new();
    let mut i: usize = 0;
    assert(row@.take(0) =~= Seq::<SqlExpr>::empty());
    assert(literals_view(values@) =~= Seq::<LiteralView>::empty());
    while i < row.len()
        invariant
            i <= row@.len(),
            f == literal_fn(),
            collect_all(row@.take(i as int), f) == Ok::<Seq<LiteralView>, Seq<char>>(literals_view(values@)),
        decreases row.len() - i,
    {
        proof {
            lemma_collect_step(row@, f, i as int);
        }
        let value = match lower_literal_expr(&row[i]) {
            Ok(v) => v,
            Err(e) => {
                proof {
                    lemma_collect_error_persists(row@, f, i + 1);
                }
                return Err(e);
            },
        };
        let ghost before = values@;
        values.push(value);
        assert(literals_view(values@) =~= literals_view(before).push(literal_view(value)));
        i = i + 1;
    }
    proof {
        lemma_collect_whole(row@, f);
    }
    Ok(values)
}

fn lower_rows(rows: &[Vec<SqlExpr>]) -> (r: Result<Vec<Vec<Literal>>, LowerError>)
    ensures
        match (r, collect_all(rows@, row_fn())) {
            (Ok(v), Ok(x)) => literal_rows_view(v@) == x,
            (Err(e), Err(m)) => error_is(e, m),
            _ => false,
        },
{
    let ghost f = row_fn();
    let mut values: Vec<Vec<Literal>> = Vec::new();
    let mut i: usize = 0;
    assert(rows@.take(0) =~= Seq::<Vec<SqlExpr>>::empty());
    assert(literal_rows_view(values@) =~= Seq::<Seq<LiteralView>>::empty());
    while i < rows.len()
        invariant
            i <= rows@.len(),
            f == row_fn(),
            collect_all(rows@.take(i as int), f) == Ok::<Seq<Seq<LiteralView>>, Seq<char>>(literal_rows_view(values@)),
        decreases rows.len() - i,
    {
        proof {
            lemma_collect_step(rows@, f, i as int);
        }
        let row = match lower_row(rows[i].as_slice()) {
            Ok(v) => v,
            Err(e) => {
                proof {
                    lemma_collect_error_persists(rows@, f, i + 1);
                }
                return Err(e);
            },
        };
        let ghost before = values@;
        values.push(row);
        assert(literal_rows_view(values@) =~= literal_rows_view(before).push(literals_view(row@)));
        i = i + 1;
    }
    proof {
        lemma_collect_whole(rows@, f);
    }
    Ok(values)
}

pub fn lower_insert(insert: &SqlInsert) -> (r: Result<LogicalPlan, LowerError>)
    ensures
        plan_result_matches(r, insert_spec(*insert)),
{
    let table = insert.table.clone();
    let columns = lower_column_names(insert.columns.as_slice())?;
    let body = match &insert.source {
        Some(body) => body,
        None => return Err(LowerError::Unsupported("INSERT without VALUES".to_string())),
    };
    let values = match &body.kind {
        SqlSetExprKind::Values(values) => values,
        _ => return Err(LowerError::Unsupported(message("INSERT source: ", &body.debug))),
    };
    let rows = lower_rows(values.as_slice())?;
    Ok(LogicalPlan::Insert { table, columns, rows })
}

// ---------------------------------------------------------------------------
// CREATE TABLE
// ---------------------------------------------------------------------------
/// The column types a table can have.
pub open spec fn column_type_spec(t: SqlDataType) -> Result<ColumnType, Seq<char>> {
    match t {
        SqlDataType::Int => Ok(ColumnType::Int),
        SqlDataType::Integer => Ok(ColumnType::Int),
        SqlDataType::BigInt => Ok(ColumnType::Int),
        SqlDataType::Bool => Ok(ColumnType::Bool),
        SqlDataType::Boolean => Ok(ColumnType::Bool),
        SqlDataType::Text => Ok(ColumnType::Text),
        SqlDataType::Varchar => Ok(ColumnType::Text),
        SqlDataType::String => Ok(ColumnType::Text),
        SqlDataType::Other { debug } => Err("column type: "@ + debug@),
    }
}

pub fn lower_column_type(data_type: &SqlDataType) -> (r: Result<ColumnType, LowerError>)
    ensures
        match (r, column_type_spec(*data_type)) {
            (Ok(a), Ok(x)) => a == x,
            (Err(e), Err(m)) => error_is(e, m),
            _ => false,
        },
{
    match data_type {
        SqlDataType::Int | SqlDataType::Integer | SqlDataType::BigInt => Ok(ColumnType::Int),
        SqlDataType::Bool | SqlDataType::Boolean => Ok(ColumnType::Bool),
        SqlDataType::Text | SqlDataType::Varchar | SqlDataType::String => Ok(ColumnType::Text),
        SqlDataType::Other { debug } => Err(LowerError::Unsupported(message("column type: ", debug))),
    }
}

pub open spec fn column_def_spec(c: SqlColumnDef) -> Result<(Seq<char>, ColumnType), Seq<char>> {
    match column_type_spec(c.data_type) {
        Ok(t) => Ok((c.name@, t)),
        Err(m) => Err(m),
    }
}

pub open spec fn column_def_fn() -> spec_fn(SqlColumnDef) -> Result<(Seq<char>, ColumnType), Seq<char>> {
    |c: SqlColumnDef| column_def_spec(c)
}

/// `CREATE TABLE t (columns)`: every column with a supported type.
pub open spec fn create_spec(c: SqlCreateTable) -> Result<PlanView, Seq<char>> {
    match collect_all(c.columns@, column_def_fn()) {
        Ok(columns) => Ok(PlanView::CreateTable(c.name@, columns)),
        Err(m) => Err(m),
    }
}

pub fn lower_create(create_table: &SqlCreateTable) -> (r: Result<LogicalPlan, LowerError>)
    ensures
        plan_result_matches(r, create_spec(*create_table)),
{
    let table = create_table.name.clone();
    let defs = create_table.columns.as_slice();
    let ghost f = column_def_fn();
    let mut columns: Vec<ColumnDef> = Vec::new();
    let mut i: usize = 0;
    assert(defs@.take(0) =~= Seq::<SqlColumnDef>::empty());
    assert(column_defs_view(columns@) =~= Seq::<(Seq<char>, ColumnType)>::empty());
    while i < defs.len()
        invariant
            i <= defs@.len(),
            defs@ == create_table.columns@,
            f == column_def_fn(),
            collect_all(defs@.take(i as int), f) == Ok::<Seq<(Seq<char>, ColumnType)>, Seq<char>>(
                column_defs_view(columns@),
            ),
        decreases defs.len() - i,
    {
        proof {
            lemma_collect_step(defs@, f, i as int);
        }
        let typ = match lower_column_type(&defs[i].data_type) {
            Ok(t) => t,
            Err(e) => {
                proof {
                    lemma_collect_error_persists(defs@, f, i + 1);
                }
                return Err(e);
            },
        };
        let def = ColumnDef { name: defs[i].name.clone(), typ };
        let ghost before = columns@;
        columns.push(def);
        assert(column_defs_view(columns@) =~= column_defs_view(before).push((def.name@, typ)));
        i = i + 1;
    }
    proof {
        lemma_collect_whole(defs@, f);
    }
    Ok(LogicalPlan::CreateTable { table, columns })
}

// ---------------------------------------------------------------------------
// Optional predicates
// ---------------------------------------------------------------------------
pub open spec fn option_expr_spec(e: Option<SqlExpr>) -> Result<Option<ExprView>, Seq<char>> {
    match e {
        None => Ok(None),
        Some(x) => match lower_expr_spec(x) {
            Ok(v) => Ok(Some(v)),
            Err(m) => Err(m),
        },
    }
}

fn lower_option_expr(e: &Option<SqlExpr>) -> (r: Result<Option<Expr>, LowerError>)
    ensures
        match (r, option_expr_spec(*e)) {
            (Ok(a), Ok(x)) => option_expr_view(a) == x,
            (Err(err), Err(m)) => error_is(err, m),
            _ => false,
        },
{
    match e {
        None => Ok(None),
        Some(x) => Ok(Some(lower_expr(x)?)),
    }
}

// ---------------------------------------------------------------------------
// DELETE
// ---------------------------------------------------------------------------
/// Whether `c` is white space in the Unicode sense (`char::is_whitespace`).
pub open spec fn is_white_space(c: char) -> bool {
    let n = c as u32;
    (0x09 <= n && n <= 0x0d) || n == 0x20 || n == 0x85 || n == 0xa0 || n == 0x1680 || (0x2000 <= n && n <= 0x200a)
        || n == 0x2028 || n == 0x2029 || n == 0x202f || n == 0x205f || n == 0x3000
}

fn white_space(c: char) -> (b: bool)
    ensures
        b == is_white_space(c),
{
    let n = c as u32;
    (0x09 <= n && n <= 0x0d) || n == 0x20 || n == 0x85 || n == 0xa0 || n == 0x1680 || (0x2000 <= n && n <= 0x200a)
        || n == 0x2028 || n == 0x2029 || n == 0x202f || n == 0x205f || n == 0x3000
}

/// Past every leading `FROM ` from position `i` on.
pub open spec fn past_from_keywords(s: Seq<char>, i: int) -> int
    decreases s.len() - i,
{
    if 0 <= i && i + 5 <= s.len() && s.subrange(i, i + 5) == seq!['F', 'R', 'O', 'M', ' '] {
        past_from_keywords(s, i + 5)
    } else {
        i
    }
}

/// The first comma at or after position `i`, or the end.
pub open spec fn comma_or_end(s: Seq<char>, i: int) -> int
    decreases s.len() - i,
{
    if 0 <= i < s.len() && s[i] != ',' {
        comma_or_end(s, i + 1)
    } else {
        i
    }
}

/// Past the white space that starts `s[i..end]`.
pub open spec fn past_leading_space(s: Seq<char>, i: int, end: int) -> int
    decreases end - i,
{
    if 0 <= i < end && end <= s.len() && is_white_space(s[i]) {
        past_leading_space(s, i + 1, end)
    } else {
        i
    }
}

/// Before the white space that ends `s[start..j]`.
pub open spec fn before_trailing_space(s: Seq<char>, start: int, j: int) -> int
    decreases j - start,
{
    if 0 <= start < j && j <= s.len() && is_white_space(s[j - 1]) {
        before_trailing_space(s, start, j - 1)
    } else {
        j
    }
}

/// The table a `DELETE` names: its `FROM` clause as printed, past the
/// `FROM ` keywords, up to the first comma, without surrounding white space.
pub open spec fn delete_table_spec(s: Seq<char>) -> Seq<char> {
    let a = past_from_keywords(s, 0);
    let b = comma_or_end(s, a);
    let c = past_leading_space(s, a, b);
    let d = before_trailing_space(s, c, b);
    s.subrange(c, d)
}

pub fn delete_table_name(from: &String) -> (table: String)
    ensures
        table@ == delete_table_spec(from@),
{
    let s = from.as_str();
    let ghost v = from@;
    let n = s.unicode_len();
    let mut a: usize = 0;
    while n - a >= 5 && s.get_char(a) == 'F' && s.get_char(a + 1) == 'R' && s.get_char(a + 2) == 'O' && s.get_char(
        a + 3,
    ) == 'M' && s.get_char(a + 4) == ' '
        invariant
            s@ == v,
            n == v.len(),
            a <= n,
            past_from_keywords(v, 0) == past_from_keywords(v, a as int),
        decreases n - a,
    {
        assert(v.subrange(a as int, a + 5) =~= seq!['F', 'R', 'O', 'M', ' ']);
        a = a + 5;
    }
    proof {
        if a + 5 <= n {
            let t = v.subrange(a as int, a + 5);
            assert(t[0] == v[a as int] && t[1] == v[a + 1] && t[2] == v[a + 2] && t[3] == v[a + 3] && t[4] == v[a
                + 4]);
            assert(t != seq!['F', 'R', 'O', 'M', ' ']);
        }
    }
    let mut b: usize = a;
    while b < n && s.get_char(b) != ','
        invariant
            s@ == v,
            n == v.len(),
            a <= b <= n,
            comma_or_end(v, a as int) == comma_or_end(v, b as int),
        decreases n - b,
    {
        b = b + 1;
    }
    let mut c: usize = a;
    while c < b && white_space(s.get_char(c))
        invariant
            s@ == v,
            n == v.len(),
            a <= c <= b <= n,
            past_leading_space(v, a as int, b as int) == past_leading_space(v, c as int, b as int),
        decreases b - c,
    {
        c = c + 1;
    }
    let mut d: usize = b;
    while c < d && white_space(s.get_char(d - 1))
        invariant
            s@ == v,
            n == v.len(),
            c <= d <= b <= n,
            before_trailing_space(v, c as int, b as int) == before_trailing_space(v, c as int, d as int),
        decreases d - c,
    {
        d = d - 1;
    }
    s.substring_char(c, d).to_string()
}

/// `DELETE FROM t [WHERE predicate]`.
pub open spec fn delete_spec(d: SqlDelete) -> Result<PlanView, Seq<char>> {
    match option_expr_spec(d.selection) {
        Ok(p) => Ok(PlanView::Delete(delete_table_spec(d.from@), p)),
        Err(m) => Err(m),
    }
}

pub fn lower_delete(delete: &SqlDelete) -> (r: Result<LogicalPlan, LowerError>)
    ensures
        plan_result_matches(r, delete_spec(*delete)),
{
    let table = delete_table_name(&delete.from);
    let predicate = lower_option_expr(&delete.selection)?;
    Ok(LogicalPlan::Delete { table, predicate })
}

// ---------------------------------------------------------------------------
// UPDATE
// ---------------------------------------------------------------------------
/// An assignment sets its target to a literal.
pub open spec fn assignment_spec(a: SqlAssignment) -> Result<(Seq<char>, LiteralView), Seq<char>> {
    match literal_expr_spec(a.value) {
        Ok(l) => Ok((a.target@, l)),
        Err(m) => Err(m),
    }
}

pub open spec fn assignment_fn() -> spec_fn(SqlAssignment) -> Result<(Seq<char>, LiteralView), Seq<char>> {
    |a: SqlAssignment| assignment_spec(a)
}

/// `UPDATE t SET assignments [WHERE predicate]`: the target must be a plain
/// table; then the assignments, then the predicate.
pub open spec fn update_spec(u: SqlUpdate) -> Result<PlanView, Seq<char>> {
    match u.table {
        SqlTableFactor::Other { debug } => Err("UPDATE target: "@ + debug@),
        SqlTableFactor::Table { name, .. } => match collect_all(u.assignments@, assignment_fn()) {
            Err(m) => Err(m),
            Ok(assignments) => match option_expr_spec(u.selection) {
                Err(m) => Err(m),
                Ok(p) => Ok(PlanView::Update(name@, assignments, p)),
            },
        },
    }
}

pub fn lower_update(update: &SqlUpdate) -> (r: Result<LogicalPlan, LowerError>)
    ensures
        plan_result_matches(r, update_spec(*update)),
{
    let table = match &update.table {
        SqlTableFactor::Table { name, .. } => name.clone(),
        SqlTableFactor::Other { debug } => return Err(LowerError::Unsupported(message("UPDATE target: ", debug))),
    };
    let items = update.assignments.as_slice();
    let ghost f = assignment_fn();
    let mut assignments: Vec<(String, Literal)> = Vec::new();
    let mut i: usize = 0;
    assert(items@.take(0) =~= Seq::<SqlAssignment>::empty());
    assert(assignments_view(assignments@) =~= Seq::<(Seq<char>, LiteralView)>::empty());
    while i < items.len()
        invariant
            i <= items@.len(),
            items@ == update.assignments@,
            update.table is Table,
            f == assignment_fn(),
            collect_all(items@.take(i as int), f) == Ok::<Seq<(Seq<char>, LiteralView)>, Seq<char>>(
                assignments_view(assignments@),
            ),
        decreases items.len() - i,
    {
        proof {
            lemma_collect_step(items@, f, i as int);
        }
        let value = match lower_literal_expr(&items[i].value) {
            Ok(v) => v,
            Err(e) => {
                proof {
                    lemma_collect_error_persists(items@, f, i + 1);
                }
                return Err(e);
            },
        };
        let target = items[i].target.clone();
        let ghost before = assignments@;
        let ghost entry = (target@, literal_view(value));
        assignments.push((target, value));
        assert(assignments_view(assignments@) =~= assignments_view(before).push(entry));
        i = i + 1;
    }
    proof {
        lemma_collect_whole(items@, f);
    }
    let predicate = lower_option_expr(&update.selection)?;
    Ok(LogicalPlan::Update { table, assignments, predicate })
}

// ---------------------------------------------------------------------------
// Statements
// ---------------------------------------------------------------------------
/// What a statement lowers to: queries, `INSERT`, `CREATE TABLE`, `DELETE`
/// and `UPDATE` are supported.
pub open spec fn statement_spec(s: SqlStatement) -> Result<PlanView, Seq<char>> {
    match s.kind {
        SqlStatementKind::Query(q) => set_expr_spec(q.body),
        SqlStatementKind::Insert(i) => insert_spec(i),
        SqlStatementKind::CreateTable(c) => create_spec(c),
        SqlStatementKind::Delete(d) => delete_spec(d),
        SqlStatementKind::Update(u) => update_spec(u),
        _ => Err("statement: "@ + s.debug@),
    }
}

pub fn lower_statement(statement: &SqlStatement) -> (r: Result<LogicalPlan, LowerError>)
    ensures
        plan_result_matches(r, statement_spec(*statement)),
{
    match &statement.kind {
        SqlStatementKind::Query(query) => lower_select_expr(&query.body),
        SqlStatementKind::Insert(insert) => lower_insert(insert),
        SqlStatementKind::CreateTable(create_table) => lower_create(create_table),
        SqlStatementKind::Delete(delete) => lower_delete(delete),
        SqlStatementKind::Update(update) => lower_update(update),
        _ => Err(LowerError::Unsupported(message("statement: ", &statement.debug))),
    }
}

/// What a parsed script lowers to: its first statement.
pub open spec fn lower_spec(statements: Seq<SqlStatement>) -> Result<PlanView, Seq<char>> {
    if statements.len() == 0 {
        Err("empty statement"@)
    } else {
        statement_spec(statements[0])
    }
}

/// Lowers the first statement of a parsed script to a logical plan.
pub fn lower(statements: &[SqlStatement]) -> (r: Result<LogicalPlan, LowerError>)
    ensures
        plan_result_matches(r, lower_spec(statements@)),
{
    if statements.len() == 0 {
        return Err(LowerError::Unsupported("empty statement".to_string()));
    }
    lower_statement(&statements[0])
}

} // verus!
