//! Lowering `ORDER BY`, `LIMIT`/`OFFSET`, `CREATE INDEX`, `DROP` and
//! `VACUUM`.
use crate::ir::{plan_view, sort_keys_view, LogicalPlan, LowerError, PlanView, SortDirection};
use crate::lower::{
    collect_all, lemma_collect_error_persists, lemma_collect_step, lemma_collect_whole, plan_result_matches,
};
use crate::lower_expr::{dotted, error_is, join_dotted, message, parse_u64, parse_u64_spec, views_of};
use crate::sql_ast::{
    SqlCreateIndex, SqlExpr, SqlExprKind, SqlLimitClause, SqlObjectType, SqlOrderBy, SqlOrderByExpr, SqlValue,
};
use vstd::prelude::*;

verus! {

// ---------------------------------------------------------------------------
// ORDER BY
// ---------------------------------------------------------------------------
/// A sort key: a plain or dotted column, descending only when `DESC` was
/// written.
pub open spec fn order_item_spec(o: SqlOrderByExpr) -> Result<(Seq<char>, SortDirection), Seq<char>> {
    let direction = if o.asc == Some(false) {
        SortDirection::Desc
    } else {
        SortDirection::Asc
    };
    match o.expr.kind {
        SqlExprKind::Identifier(n) => Ok((n@, direction)),
        SqlExprKind::CompoundIdentifier(parts) => Ok((dotted(views_of(parts@)), direction)),
        _ => Err("ORDER BY expression: "@ + o.expr.debug@),
    }
}

pub open spec fn order_item_fn() -> spec_fn(SqlOrderByExpr) -> Result<(Seq<char>, SortDirection), Seq<char>> {
    |o: SqlOrderByExpr| order_item_spec(o)
}

/// The input, sorted by the `ORDER BY` keys when there are any.
pub open spec fn order_by_spec(input: PlanView, order_by: Option<SqlOrderBy>) -> Result<PlanView, Seq<char>> {
    match order_by {
        None => Ok(input),
        Some(SqlOrderBy::All) => Err("ORDER BY ALL not supported"@),
        Some(SqlOrderBy::Expressions(exprs)) => match collect_all(exprs@, order_item_fn()) {
            Err(m) => Err(m),
            Ok(keys) => Ok(PlanView::Sort(Box::new(input), keys)),
        },
    }
}

pub fn lower_order_by_expr(expr: &SqlOrderByExpr) -> (r: Result<(String, SortDirection), LowerError>)
    ensures
        match (r, order_item_spec(*expr)) {
            (Ok((c, d)), Ok((x, e))) => c@ == x && d == e,
            (Err(err), Err(m)) => error_is(err, m),
            _ => false,
        },
{
    let column = match &expr.expr.kind {
        SqlExprKind::Identifier(n) => n.clone(),
        SqlExprKind::CompoundIdentifier(parts) => join_dotted(parts),
        _ => return Err(LowerError::Unsupported(message("ORDER BY expression: ", &expr.expr.debug))),
    };
    let direction = match expr.asc {
        Some(false) => SortDirection::Desc,
        _ => SortDirection::Asc,
    };
    Ok((column, direction))
}

pub fn apply_order_by(input: LogicalPlan, order_by: &Option<SqlOrderBy>) -> (r: Result<LogicalPlan, LowerError>)
    ensures
        plan_result_matches(r, order_by_spec(plan_view(input), *order_by)),
{
    let exprs = match order_by {
        None => return Ok(input),
        Some(SqlOrderBy::All) => return Err(LowerError::Unsupported("ORDER BY ALL not supported".to_string())),
        Some(SqlOrderBy::Expressions(exprs)) => exprs.as_slice(),
    };
    let ghost f = order_item_fn();
    let mut keys: Vec<(String, SortDirection)> = Vec::new();
    let mut i: usize = 0;
    assert(exprs@.take(0) =~= Seq::<SqlOrderByExpr>::empty());
    assert(sort_keys_view(keys@) =~= Seq::<(Seq<char>, SortDirection)>::empty());
    while i < exprs.len()
        invariant
            i <= exprs@.len(),
            f == order_item_fn(),
            match *order_by {
                Some(SqlOrderBy::Expressions(v)) => v@ == exprs@,
                _ => false,
            },
            collect_all(exprs@.take(i as int), f) == Ok::<Seq<(Seq<char>, SortDirection)>, Seq<char>>(
                sort_keys_view(keys@),
            ),
        decreases exprs.len() - i,
    {
        proof {
            lemma_collect_step(exprs@, f, i as int);
        }
        let key = match lower_order_by_expr(&exprs[i]) {
            Ok(k) => k,
            Err(e) => {
                proof {
                    lemma_collect_error_persists(exprs@, f, i + 1);
                }
                return Err(e);
            },
        };
        let ghost before = keys@;
        let ghost entry = (key.0@, key.1);
        keys.push(key);
        assert(sort_keys_view(keys@) =~= sort_keys_view(before).push(entry));
        i = i + 1;
    }
    proof {
        lemma_collect_whole(exprs@, f);
    }
    let ghost input_view = plan_view(input);
    let plan = LogicalPlan::Sort { input: Box::new(input), order_by: keys };
    assert(plan_view(plan) == PlanView::Sort(Box::new(input_view), sort_keys_view(keys@)));
    Ok(plan)
}

// ---------------------------------------------------------------------------
// LIMIT and OFFSET
// ---------------------------------------------------------------------------
/// A `LIMIT` or `OFFSET` count: a numeric literal that reads as a `u64`.
pub open spec fn number_value_spec(e: SqlExpr) -> Result<u64, Seq<char>> {
    match e.kind {
        SqlExprKind::Value { value, debug } => match value {
            SqlValue::Number { text, .. } => match parse_u64_spec(text@) {
                Some(n) => Ok(n),
                None => Err("LIMIT/OFFSET value: "@ + text@),
            },
            _ => Err("LIMIT/OFFSET value: "@ + debug@),
        },
        _ => Err("LIMIT/OFFSET expression: "@ + e.debug@),
    }
}

pub open spec fn option_number_spec(e: Option<SqlExpr>) -> Result<Option<u64>, Seq<char>> {
    match e {
        None => Ok(None),
        Some(x) => match number_value_spec(x) {
            Ok(n) => Ok(Some(n)),
            Err(m) => Err(m),
        },
    }
}

/// The input, cut to the `LIMIT` and `OFFSET` counts when there is a clause.
pub open spec fn limit_spec(input: PlanView, clause: Option<SqlLimitClause>) -> Result<PlanView, Seq<char>> {
    match clause {
        None => Ok(input),
        Some(SqlLimitClause::Other { debug }) => Err("LIMIT clause: "@ + debug@),
        Some(SqlLimitClause::LimitOffset { limit, offset }) => match option_number_spec(limit) {
            Err(m) => Err(m),
            Ok(l) => match option_number_spec(offset) {
                Err(m) => Err(m),
                Ok(o) => Ok(PlanView::Limit(Box::new(input), l, o)),
            },
        },
    }
}

pub fn number_value(expr: &SqlExpr) -> (r: Result<u64, LowerError>)
    ensures
        match (r, number_value_spec(*expr)) {
            (Ok(a), Ok(x)) => a == x,
            (Err(e), Err(m)) => error_is(e, m),
            _ => false,
        },
{
    match &expr.kind {
        SqlExprKind::Value { value, debug } => match value {
            SqlValue::Number { text, .. } => match parse_u64(text.as_str()) {
                Some(n) => Ok(n),
                None => Err(LowerError::Unsupported(message("LIMIT/OFFSET value: ", text))),
            },
            _ => Err(LowerError::Unsupported(message("LIMIT/OFFSET value: ", debug))),
        },
        _ => Err(LowerError::Unsupported(message("LIMIT/OFFSET expression: ", &expr.debug))),
    }
}

fn option_number(e: &Option<SqlExpr>) -> (r: Result<Option<u64>, LowerError>)
    ensures
        match (r, option_number_spec(*e)) {
            (Ok(a), Ok(x)) => a == x,
            (Err(err), Err(m)) => error_is(err, m),
            _ => false,
        },
{
    match e {
        None => Ok(None),
        Some(x) => Ok(Some(number_value(x)?)),
    }
}

pub fn apply_limit(input: LogicalPlan, limit_clause: &Option<SqlLimitClause>) -> (r: Result<LogicalPlan, LowerError>)
    ensures
        plan_result_matches(r, limit_spec(plan_view(input), *limit_clause)),
{
    match limit_clause {
        None => Ok(input),
        Some(SqlLimitClause::Other { debug }) => Err(LowerError::Unsupported(message("LIMIT clause: ", debug))),
        Some(SqlLimitClause::LimitOffset { limit, offset }) => {
            let limit_value = option_number(limit)?;
            let offset_value = option_number(offset)?;
            let ghost input_view = plan_view(input);
            let plan = LogicalPlan::Limit { input: Box::new(input), limit: limit_value, offset: offset_value };
            assert(plan_view(plan) == PlanView::Limit(Box::new(input_view), limit_value, offset_value));
            Ok(plan)
        },
    }
}

// ---------------------------------------------------------------------------
// CREATE INDEX, DROP, VACUUM
// ---------------------------------------------------------------------------
/// `CREATE INDEX name ON table (column)`: a named index on exactly one
/// column.
pub open spec fn create_index_spec(c: SqlCreateIndex) -> Result<PlanView, Seq<char>> {
    match c.name {
        None => Err("CREATE INDEX requires a name"@),
        Some(name) => if c.columns@.len() == 0 {
            Err("CREATE INDEX requires a column"@)
        } else if c.columns@.len() > 1 {
            Err("multi-column indexes not supported yet"@)
        } else {
            Ok(PlanView::CreateIndex(name@, c.table_name@, c.columns@[0]@))
        },
    }
}

pub fn lower_create_index(create_index: &SqlCreateIndex) -> (r: Result<LogicalPlan, LowerError>)
    ensures
        plan_result_matches(r, create_index_spec(*create_index)),
{
    let index_name = match &create_index.name {
        Some(n) => n.clone(),
        None => return Err(LowerError::Unsupported("CREATE INDEX requires a name".to_string())),
    };
    let table = create_index.table_name.clone();
    if create_index.columns.len() == 0 {
        return Err(LowerError::Unsupported("CREATE INDEX requires a column".to_string()));
    }
    let column = create_index.columns[0].clone();
    if create_index.columns.len() > 1 {
        return Err(LowerError::Unsupported("multi-column indexes not supported yet".to_string()));
    }
    Ok(LogicalPlan::CreateIndex { index_name, table, column })
}

/// `DROP TABLE` or `DROP INDEX` of exactly one object.
pub open spec fn drop_spec(object_type: SqlObjectType, if_exists: bool, names: Seq<String>) -> Result<PlanView, Seq<char>> {
    if names.len() == 0 {
        Err("DROP requires a name"@)
    } else if names.len() > 1 {
        Err("dropping multiple objects at once not supported yet"@)
    } else {
        match object_type {
            SqlObjectType::Table => Ok(PlanView::DropTable(names[0]@, if_exists)),
            SqlObjectType::Index => Ok(PlanView::DropIndex(names[0]@, if_exists)),
            SqlObjectType::Other { debug } => Err("DROP target: "@ + debug@),
        }
    }
}

pub fn lower_drop(object_type: &SqlObjectType, if_exists: bool, names: &[String]) -> (r: Result<LogicalPlan, LowerError>)
    ensures
        plan_result_matches(r, drop_spec(*object_type, if_exists, names@)),
{
    if names.len() == 0 {
        return Err(LowerError::Unsupported("DROP requires a name".to_string()));
    }
    let name = names[0].clone();
    if names.len() > 1 {
        return Err(LowerError::Unsupported("dropping multiple objects at once not supported yet".to_string()));
    }
    match object_type {
        SqlObjectType::Table => Ok(LogicalPlan::DropTable { table: name, if_exists }),
        SqlObjectType::Index => Ok(LogicalPlan::DropIndex { index_name: name, if_exists }),
        SqlObjectType::Other { debug } => Err(LowerError::Unsupported(message("DROP target: ", debug))),
    }
}

/// `VACUUM table` or `VACUUM` of every table.
pub open spec fn vacuum_spec(table_name: Option<String>) -> PlanView {
    match table_name {
        Some(name) => PlanView::VacuumTable(name@),
        None => PlanView::VacuumAll,
    }
}

pub fn lower_vacuum(table_name: &Option<String>) -> (r: Result<LogicalPlan, LowerError>)
    ensures
        plan_result_matches(r, Ok(vacuum_spec(*table_name))),
{
    match table_name {
        Some(name) => Ok(LogicalPlan::VacuumTable { table: name.clone() }),
        None => Ok(LogicalPlan::VacuumAll),
    }
}

} // verus!
