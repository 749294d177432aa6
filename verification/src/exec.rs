//! The executor: runs a physical plan against the catalog, each node on the
//! rows its inputs produce.
use crate::aggregate::{aggregate, aggregate_spec, aggregates_have_columns};
use crate::eval::{ExecError, StorageError};
use crate::exec_index::{
    indexnestedloopjoin, indexnestedloopjoin_defined, indexnestedloopjoin_spec, indexscan, indexscan_spec,
    rangeindexscan, rangeindexscan_defined, rangeindexscan_spec,
};
use crate::exec_ops::{
    count_result, delete, delete_rows, delete_spec, error_view, insert, insert_spec, ordered_rows, outcome_of,
    result_view, update, update_rows, update_spec, ErrorView, Outcome,
};
use crate::eval::{column_index, eval_spec, Value};
use crate::exec_index::{keyed_rows, literal_key, row_key};
use crate::key::{key_le, key_lt, law_key_order_is_total, KeyValue};
use crate::btree::in_range;
use crate::exec_index::{bound_key, ranged_rows, value_key};
use crate::planner::{comparison_spec, equality_spec, index_lookup, rewrite_spec, IndexDef};
use crate::exec_ops::table_fits;
use crate::sort::{law_sort_is_permutation, stable_sort_spec};
use crate::row_set::keep_spec;
use crate::ir::{strings_view, BinaryOperator, Expr, Literal, SortDirection};
use crate::row_set::filter_rows_spec;
use crate::row_set::RowSetView;
use crate::storage::{with_rows, TableView};
use crate::ir::PhysicalPlan;
use crate::join::{join_evaluable, join_spec, nestedloopjoin};
use crate::row_set::{evaluable, filter, filter_spec, limit, limit_spec, project, project_spec, well_formed, RowSet};
use crate::sort::{sort, sort_spec};
use crate::storage::{
    create_index_spec, create_table_spec, drop_index_spec, drop_table_spec, empty_result, find_index, find_table,
    table_rows, Catalog, CatalogView,
};
use vstd::prelude::*;

verus! {

/// A statement that changes the catalog returns an empty result, or its
/// error with the catalog unchanged.
pub open spec fn catalog_outcome(r: Result<CatalogView, ExecError>, c: CatalogView) -> (Outcome, CatalogView) {
    match r {
        Ok(c2) => (Ok(empty_result()), c2),
        Err(e) => (Err(error_view(e)), c),
    }
}

/// What running a plan against a catalog returns, and the catalog after it:
/// inputs run first (the left before the right), an error from an input is
/// the plan's error. `None` where running the plan would fail outright: an
/// integer addition or sum overflows, a row does not match its columns, an
/// aggregate other than `COUNT` has no column, or inserted values are too
/// few for the columns they are read from.
pub open spec fn exec_spec(plan: PhysicalPlan, c: CatalogView) -> Option<(Outcome, CatalogView)>
    decreases plan,
{
    match plan {
        PhysicalPlan::SeqScan { table } => {
            let k = find_table(c.tables, table@);
            Some(
                (
                    if k < 0 {
                        Err(ErrorView::Storage(StorageError::TableNotFound(table)))
                    } else {
                        Ok(table_rows(c.tables[k]))
                    },
                    c,
                ),
            )
        },
        PhysicalPlan::Filter { input, predicate } => match exec_spec(*input, c) {
            Some((Ok(rs), c2)) => if evaluable(predicate, rs.columns, rs.rows) {
                Some((outcome_of(filter_spec(rs, predicate)), c2))
            } else {
                None
            },
            other => other,
        },
        PhysicalPlan::Project { input, columns } => match exec_spec(*input, c) {
            Some((Ok(rs), c2)) => if well_formed(rs) {
                Some((outcome_of(project_spec(rs, columns)), c2))
            } else {
                None
            },
            other => other,
        },
        PhysicalPlan::Insert { table, columns, rows } => insert_spec(c, table, columns@, rows@),
        PhysicalPlan::CreateTable { table, columns } => Some(catalog_outcome(create_table_spec(c, table, columns@), c)),
        PhysicalPlan::Delete { table, predicate } => delete_spec(c, table, predicate),
        PhysicalPlan::Update { table, assignments, predicate } => update_spec(c, table, assignments@, predicate),
        PhysicalPlan::CreateIndex { index_name, table, column } => Some(
            catalog_outcome(create_index_spec(c, index_name, table, column), c),
        ),
        PhysicalPlan::IndexScan { table, index_name, key } => Some((indexscan_spec(c, table, index_name, key), c)),
        PhysicalPlan::RangeIndexScan { table, index_name, lower, upper } => if rangeindexscan_defined(c, table) {
            Some((rangeindexscan_spec(c, table, index_name, lower, upper), c))
        } else {
            None
        },
        PhysicalPlan::NestedLoopJoin { left, right, left_table, right_table, on, kind } => match exec_spec(*left, c) {
            Some((Ok(l), c2)) => match exec_spec(*right, c2) {
                Some((Ok(r), c3)) => if join_evaluable(l, r, left_table@, right_table@, on) {
                    Some((outcome_of(join_spec(l, r, left_table@, right_table@, on, kind)), c3))
                } else {
                    None
                },
                other => other,
            },
            other => other,
        },
        PhysicalPlan::IndexNestedLoopJoin {
            left,
            left_table,
            right_table_real,
            right_table_qualifier,
            right_index_name,
            left_join_column,
            kind,
        } => match exec_spec(*left, c) {
            Some((Ok(l), c2)) => if indexnestedloopjoin_defined(c2, l, right_table_real) {
                Some(
                    (
                        indexnestedloopjoin_spec(
                            c2,
                            l,
                            left_table@,
                            right_table_real,
                            right_table_qualifier@,
                            right_index_name,
                            left_join_column,
                            kind,
                        ),
                        c2,
                    ),
                )
            } else {
                None
            },
            other => other,
        },
        PhysicalPlan::DropTable { table, if_exists } => Some(catalog_outcome(drop_table_spec(c, table, if_exists), c)),
        PhysicalPlan::DropIndex { index_name, if_exists } => Some(
            catalog_outcome(drop_index_spec(c, index_name, if_exists), c),
        ),
        PhysicalPlan::Aggregate { input, group_by, aggregates } => match exec_spec(*input, c) {
            Some((Ok(rs), c2)) => if well_formed(rs) && aggregates_have_columns(aggregates@) {
                match aggregate_spec(rs, group_by@, aggregates@) {
                    Some(r) => Some((outcome_of(r), c2)),
                    None => None,
                }
            } else {
                None
            },
            other => other,
        },
        PhysicalPlan::Sort { input, order_by } => match exec_spec(*input, c) {
            Some((Ok(rs), c2)) => if well_formed(rs) {
                Some((outcome_of(sort_spec(rs, order_by@)), c2))
            } else {
                None
            },
            other => other,
        },
        PhysicalPlan::Limit { input, limit, offset } => match exec_spec(*input, c) {
            Some((Ok(rs), c2)) => Some((Ok(limit_spec(rs, limit, offset)), c2)),
            other => other,
        },
        PhysicalPlan::VacuumTable { table } => {
            let k = find_table(c.tables, table@);
            Some(
                (
                    if k < 0 {
                        Err(ErrorView::Storage(StorageError::TableNotFound(table)))
                    } else {
                        Ok(empty_result())
                    },
                    c,
                ),
            )
        },
        PhysicalPlan::VacuumAll => Some((Ok(empty_result()), c)),
    }
}

fn empty_row_set() -> (s: RowSet)
    ensures
        s@ == empty_result(),
{
    let s = RowSet::new(Vec::new(), Vec::new());
    assert(s@.columns =~= Seq::<Seq<char>>::empty());
    assert(s@.rows =~= Seq::<Seq<crate::eval::Value>>::empty());
    s
}

/// Runs a physical plan against the catalog.
pub fn execute(plan: &PhysicalPlan, catalog: &mut Catalog) -> (r: Result<RowSet, ExecError>)
    requires
        exec_spec(*plan, old(catalog)@) is Some,
    ensures
        exec_spec(*plan, old(catalog)@) == Some((result_view(r), final(catalog)@)),
    decreases plan,
{
    match plan {
        PhysicalPlan::SeqScan { table } => catalog.scan(table),
        PhysicalPlan::Filter { input, predicate } => {
            let rows = match execute(input, catalog) {
                Ok(rows) => rows,
                Err(e) => return Err(e),
            };
            filter(&rows, predicate)
        },
        PhysicalPlan::Project { input, columns } => {
            let rows = match execute(input, catalog) {
                Ok(rows) => rows,
                Err(e) => return Err(e),
            };
            project(&rows, columns)
        },
        PhysicalPlan::Insert { table, columns, rows } => insert(catalog, table, columns.as_slice(), rows.as_slice()),
        PhysicalPlan::CreateTable { table, columns } => match catalog.create_table(table, columns.as_slice()) {
            Ok(()) => Ok(empty_row_set()),
            Err(e) => Err(e),
        },
        PhysicalPlan::Delete { table, predicate } => delete(catalog, table, predicate),
        PhysicalPlan::Update { table, assignments, predicate } => update(catalog, table, assignments.as_slice(), predicate),
        PhysicalPlan::CreateIndex { index_name, table, column } => match catalog.create_index(index_name, table, column) {
            Ok(()) => Ok(empty_row_set()),
            Err(e) => Err(e),
        },
        PhysicalPlan::IndexScan { table, index_name, key } => indexscan(catalog, table, index_name, key),
        PhysicalPlan::RangeIndexScan { table, index_name, lower, upper } => rangeindexscan(
            catalog,
            table,
            index_name,
            lower,
            upper,
        ),
        PhysicalPlan::NestedLoopJoin { left, right, left_table, right_table, on, kind } => {
            let left_rows = match execute(left, catalog) {
                Ok(rows) => rows,
                Err(e) => return Err(e),
            };
            let right_rows = match execute(right, catalog) {
                Ok(rows) => rows,
                Err(e) => return Err(e),
            };
            nestedloopjoin(&left_rows, &right_rows, left_table.as_str(), right_table.as_str(), on, *kind)
        },
        PhysicalPlan::IndexNestedLoopJoin {
            left,
            left_table,
            right_table_real,
            right_table_qualifier,
            right_index_name,
            left_join_column,
            kind,
        } => {
            let left_rows = match execute(left, catalog) {
                Ok(rows) => rows,
                Err(e) => return Err(e),
            };
            indexnestedloopjoin(
                catalog,
                &left_rows,
                left_table.as_str(),
                right_table_real,
                right_table_qualifier.as_str(),
                right_index_name,
                left_join_column,
                *kind,
            )
        },
        PhysicalPlan::DropTable { table, if_exists } => match catalog.drop_table(table, *if_exists) {
            Ok(()) => Ok(empty_row_set()),
            Err(e) => Err(e),
        },
        PhysicalPlan::DropIndex { index_name, if_exists } => match catalog.drop_index(index_name, *if_exists) {
            Ok(()) => Ok(empty_row_set()),
            Err(e) => Err(e),
        },
        PhysicalPlan::Aggregate { input, group_by, aggregates } => {
            let rows = match execute(input, catalog) {
                Ok(rows) => rows,
                Err(e) => return Err(e),
            };
            aggregate(&rows, group_by.as_slice(), aggregates.as_slice())
        },
        PhysicalPlan::Sort { input, order_by } => {
            let rows = match execute(input, catalog) {
                Ok(rows) => rows,
                Err(e) => return Err(e),
            };
            sort(&rows, order_by.as_slice())
        },
        PhysicalPlan::Limit { input, limit: count, offset } => {
            let rows = match execute(input, catalog) {
                Ok(rows) => rows,
                Err(e) => return Err(e),
            };
            Ok(limit(&rows, count, offset))
        },
        PhysicalPlan::VacuumTable { table } => match catalog.table_position(table) {
            Some(_) => Ok(empty_row_set()),
            None => Err(ExecError::Storage(StorageError::TableNotFound(table.clone()))),
        },
        PhysicalPlan::VacuumAll => Ok(empty_row_set()),
    }
}

// ---------------------------------------------------------------------------
// Laws
// ---------------------------------------------------------------------------
proof fn lemma_find_table_by_names(a: Seq<TableView>, b: Seq<TableView>, name: Seq<char>)
    requires
        a.len() == b.len(),
        forall|i: int| 0 <= i < a.len() ==> (#[trigger] a[i]).name == b[i].name,
    ensures
        find_table(a, name) == find_table(b, name),
    decreases a.len(),
{
    if a.len() > 0 {
        assert forall|i: int| 0 <= i < a.drop_last().len() implies (#[trigger] a.drop_last()[i]).name == b.drop_last()[i].name by {
            assert(a.drop_last()[i] == a[i]);
            assert(b.drop_last()[i] == b[i]);
        }
        lemma_find_table_by_names(a.drop_last(), b.drop_last(), name);
        assert(a.last().name == b.last().name);
    }
}

proof fn lemma_with_rows_keeps_names(c: CatalogView, k: int, rows: Seq<Seq<Value>>, name: Seq<char>)
    requires
        0 <= k < c.tables.len(),
    ensures
        find_table(with_rows(c, k, rows).tables, name) == find_table(c.tables, name),
{
    lemma_find_table_by_names(with_rows(c, k, rows).tables, c.tables, name);
}

/// `column = key`, or `key = column` when `key_first`.
pub open spec fn equality_predicate(column: String, key: Literal, key_first: bool) -> Expr {
    if key_first {
        Expr::BinaryOp {
            left: Box::new(Expr::Literal(key)),
            op: BinaryOperator::Eq,
            right: Box::new(Expr::Column(column)),
        }
    } else {
        Expr::BinaryOp {
            left: Box::new(Expr::Column(column)),
            op: BinaryOperator::Eq,
            right: Box::new(Expr::Literal(key)),
        }
    }
}

/// Where filtering by `column = key` (an integer or string key) succeeds,
/// it keeps exactly the rows whose value in that column has the key.
proof fn lemma_equality_filter_is_keyed(
    column: String,
    key: Literal,
    key_first: bool,
    columns: Seq<Seq<char>>,
    rows: Seq<Seq<Value>>,
)
    requires
        key is Int || key is String,
        filter_rows_spec(equality_predicate(column, key, key_first), columns, rows) is Ok,
    ensures
        filter_rows_spec(equality_predicate(column, key, key_first), columns, rows) == Ok::<Seq<Seq<Value>>, ExecError>(
            keyed_rows(rows, column_index(columns, column@), literal_key(key)->0),
        ),
    decreases rows.len(),
{
    let p = equality_predicate(column, key, key_first);
    reveal_with_fuel(eval_spec, 2);
    if rows.len() > 0 {
        let init = rows.drop_last();
        let r = rows.last();
        let i = column_index(columns, column@);
        assert(filter_rows_spec(p, columns, init) is Ok);
        lemma_equality_filter_is_keyed(column, key, key_first, columns, init);
        let kv = literal_key(key)->0;
        match eval_spec(p, columns, r) {
            Some(Ok(v)) => {
                assert(0 <= i < r.len());
                match key {
                    Literal::Int(n) => {
                        assert(keep_value(v) == (row_key(r, i) == Some(kv)));
                    },
                    Literal::String(t) => {
                        assert(keep_value(v) == (row_key(r, i) == Some(kv)));
                    },
                    _ => {},
                }
            },
            _ => {},
        }
    }
}

/// Whether the filter keeps a row on which the predicate gave `v`.
spec fn keep_value(v: Value) -> bool {
    v == Value::Bool(true)
}

/// An equality index scan returns what the filter it stands for returns:
/// on a table with an index over `column`, wherever filtering a full scan
/// by `column = key` succeeds (for an integer or string key), scanning the
/// index for `key` gives the same columns and the same rows, in table order.
pub proof fn law_index_scan_matches_filter(
    c: CatalogView,
    table: String,
    index_name: String,
    column: String,
    key: Literal,
    key_first: bool,
)
    requires
        key is Int || key is String,
        find_index(c.indexes, index_name@) >= 0,
        c.indexes[find_index(c.indexes, index_name@)].column == column@,
        exec_spec(
            PhysicalPlan::Filter {
                input: Box::new(PhysicalPlan::SeqScan { table }),
                predicate: equality_predicate(column, key, key_first),
            },
            c,
        ) matches Some((Ok(_), _)),
    ensures
        exec_spec(PhysicalPlan::IndexScan { table, index_name, key }, c) == exec_spec(
            PhysicalPlan::Filter {
                input: Box::new(PhysicalPlan::SeqScan { table }),
                predicate: equality_predicate(column, key, key_first),
            },
            c,
        ),
{
    reveal_with_fuel(exec_spec, 2);
    let k = find_table(c.tables, table@);
    assert(k >= 0);
    let t = c.tables[k];
    let p = equality_predicate(column, key, key_first);
    assert(filter_rows_spec(p, t.columns, t.rows) is Ok);
    lemma_equality_filter_is_keyed(column, key, key_first, t.columns, t.rows);
}

/// `column IS NULL`.
pub open spec fn null_predicate(column: String) -> Expr {
    Expr::IsNull { expr: Box::new(Expr::Column(column)), negated: false }
}

/// Where filtering by `column IS NULL` succeeds, it keeps exactly the rows
/// whose value in that column has the NULL key.
proof fn lemma_null_filter_is_keyed(column: String, columns: Seq<Seq<char>>, rows: Seq<Seq<Value>>)
    requires
        filter_rows_spec(null_predicate(column), columns, rows) is Ok,
    ensures
        filter_rows_spec(null_predicate(column), columns, rows) == Ok::<Seq<Seq<Value>>, ExecError>(
            keyed_rows(rows, column_index(columns, column@), KeyValue::Null),
        ),
    decreases rows.len(),
{
    let p = null_predicate(column);
    reveal_with_fuel(eval_spec, 2);
    if rows.len() > 0 {
        let init = rows.drop_last();
        let r = rows.last();
        let i = column_index(columns, column@);
        assert(filter_rows_spec(p, columns, init) is Ok);
        lemma_null_filter_is_keyed(column, columns, init);
        match eval_spec(p, columns, r) {
            Some(Ok(v)) => {
                assert(0 <= i < r.len());
                assert(keep_value(v) == (row_key(r, i) == Some(KeyValue::Null)));
            },
            _ => {},
        }
    }
}

/// An index scan for the NULL key returns what the filter `column IS NULL`
/// over a full scan returns, on a table with an index over `column`,
/// wherever that filter succeeds.
pub proof fn law_null_index_scan_matches_filter(c: CatalogView, table: String, index_name: String, column: String)
    requires
        find_index(c.indexes, index_name@) >= 0,
        c.indexes[find_index(c.indexes, index_name@)].column == column@,
        exec_spec(
            PhysicalPlan::Filter { input: Box::new(PhysicalPlan::SeqScan { table }), predicate: null_predicate(column) },
            c,
        ) matches Some((Ok(_), _)),
    ensures
        exec_spec(PhysicalPlan::IndexScan { table, index_name, key: Literal::Null }, c) == exec_spec(
            PhysicalPlan::Filter { input: Box::new(PhysicalPlan::SeqScan { table }), predicate: null_predicate(column) },
            c,
        ),
{
    reveal_with_fuel(exec_spec, 2);
    let k = find_table(c.tables, table@);
    assert(k >= 0);
    let t = c.tables[k];
    assert(filter_rows_spec(null_predicate(column), t.columns, t.rows) is Ok);
    lemma_null_filter_is_keyed(column, t.columns, t.rows);
}

/// The bounds of the range scan that a comparison of a column with `key`
/// stands for: a lower bound when the column is compared from above.
pub open spec fn comparison_bounds(key: Literal, inclusive: bool, lower_side: bool) -> (
    Option<(Literal, bool)>,
    Option<(Literal, bool)>,
) {
    if lower_side {
        (Some((key, inclusive)), None)
    } else {
        (None, Some((key, inclusive)))
    }
}

/// On one row whose value in the column is not NULL, a comparison that the
/// filter can keep or drop keeps the row exactly when the value's key lies
/// within the bounds the comparison stands for.
proof fn lemma_comparison_row(
    predicate: Expr,
    column: String,
    key: Literal,
    inclusive: bool,
    lower_side: bool,
    columns: Seq<Seq<char>>,
    r: Seq<Value>,
)
    requires
        comparison_spec(predicate) == Some((column, key, inclusive, lower_side)),
        key is Int || key is String,
        eval_spec(predicate, columns, r) matches Some(Ok(v)) && keep_spec(v) is Ok,
        0 <= column_index(columns, column@) < r.len() ==> !(r[column_index(columns, column@)] is Null),
    ensures
        0 <= column_index(columns, column@) < r.len(),
        value_key(r[column_index(columns, column@)]) is Some,
        keep_spec(eval_spec(predicate, columns, r)->Some_0->Ok_0) == Ok::<bool, ExecError>(
            in_range(
                value_key(r[column_index(columns, column@)])->0,
                bound_key(comparison_bounds(key, inclusive, lower_side).0)->Ok_0,
                bound_key(comparison_bounds(key, inclusive, lower_side).1)->Ok_0,
            ),
        ),
{
    reveal_with_fuel(eval_spec, 2);
    let i = column_index(columns, column@);
    let kv = literal_key(key)->0;
    assert(0 <= i < r.len());
    let x = r[i];
    match x {
        Value::Int(a) => {
            law_key_order_is_total(KeyValue::Int(a), kv, kv);
        },
        Value::String(a) => {
            law_key_order_is_total(KeyValue::Str(a@), kv, kv);
            law_key_order_is_total(kv, KeyValue::Str(a@), kv);
        },
        _ => {},
    }
}

/// Where filtering by a comparison of a column with an integer or string
/// key succeeds on rows with no NULL in that column, it keeps exactly the
/// rows whose key lies within the bounds the comparison stands for.
proof fn lemma_comparison_filter_is_ranged(
    predicate: Expr,
    column: String,
    key: Literal,
    inclusive: bool,
    lower_side: bool,
    columns: Seq<Seq<char>>,
    rows: Seq<Seq<Value>>,
)
    requires
        comparison_spec(predicate) == Some((column, key, inclusive, lower_side)),
        key is Int || key is String,
        forall|j: int|
            0 <= j < rows.len() && 0 <= column_index(columns, column@) < rows[j].len() ==> !((#[trigger] rows[j])[column_index(
                columns,
                column@,
            )] is Null),
        filter_rows_spec(predicate, columns, rows) is Ok,
    ensures
        filter_rows_spec(predicate, columns, rows) == Ok::<Seq<Seq<Value>>, ExecError>(
            ranged_rows(
                rows,
                column_index(columns, column@),
                bound_key(comparison_bounds(key, inclusive, lower_side).0)->Ok_0,
                bound_key(comparison_bounds(key, inclusive, lower_side).1)->Ok_0,
            ),
        ),
    decreases rows.len(),
{
    if rows.len() > 0 {
        let init = rows.drop_last();
        let r = rows.last();
        assert(filter_rows_spec(predicate, columns, init) is Ok);
        assert forall|j: int|
            0 <= j < init.len() && 0 <= column_index(columns, column@) < init[j].len() implies !((#[trigger] init[j])[column_index(
                columns,
                column@,
            )] is Null) by {
            assert(init[j] == rows[j]);
        }
        lemma_comparison_filter_is_ranged(predicate, column, key, inclusive, lower_side, columns, init);
        assert(r == rows[rows.len() - 1]);
        match eval_spec(predicate, columns, r) {
            Some(Ok(v)) => {
                assert(keep_spec(v) is Ok);
                lemma_comparison_row(predicate, column, key, inclusive, lower_side, columns, r);
            },
            _ => {
                reveal_with_fuel(eval_spec, 2);
            },
        }
    }
}

/// A range index scan returns, in key order, the rows that the comparison
/// filter it stands for returns: on a table with an index over `column`
/// and no NULL in that column, wherever filtering a full scan by a
/// comparison of the column with an integer or string key succeeds, the
/// range scan for the comparison's bounds gives the same columns and the
/// same rows, counted with their multiplicity.
pub proof fn law_range_index_scan_matches_filter(
    c: CatalogView,
    table: String,
    index_name: String,
    predicate: Expr,
    column: String,
    key: Literal,
    inclusive: bool,
    lower_side: bool,
)
    requires
        comparison_spec(predicate) == Some((column, key, inclusive, lower_side)),
        key is Int || key is String,
        find_index(c.indexes, index_name@) >= 0,
        c.indexes[find_index(c.indexes, index_name@)].column == column@,
        forall|j: int|
            0 <= j < c.tables[find_table(c.tables, table@)].rows.len() && 0 <= column_index(
                c.tables[find_table(c.tables, table@)].columns,
                column@,
            ) < c.tables[find_table(c.tables, table@)].rows[j].len() ==> !((#[trigger] c.tables[find_table(
                c.tables,
                table@,
            )].rows[j])[column_index(c.tables[find_table(c.tables, table@)].columns, column@)] is Null),
        exec_spec(PhysicalPlan::Filter { input: Box::new(PhysicalPlan::SeqScan { table }), predicate }, c) matches Some(
            (Ok(_), _),
        ),
    ensures
        ({
            let filtered = exec_spec(
                PhysicalPlan::Filter { input: Box::new(PhysicalPlan::SeqScan { table }), predicate },
                c,
            )->Some_0.0->Ok_0;
            let (lower, upper) = comparison_bounds(key, inclusive, lower_side);
            &&& rangeindexscan_spec(c, table, index_name, lower, upper) is Ok
            &&& rangeindexscan_spec(c, table, index_name, lower, upper)->Ok_0.columns == filtered.columns
            &&& rangeindexscan_spec(c, table, index_name, lower, upper)->Ok_0.rows.to_multiset()
                == filtered.rows.to_multiset()
        }),
{
    reveal_with_fuel(exec_spec, 2);
    let k = find_table(c.tables, table@);
    assert(k >= 0);
    let t = c.tables[k];
    let i = column_index(t.columns, column@);
    assert(filter_rows_spec(predicate, t.columns, t.rows) is Ok);
    lemma_comparison_filter_is_ranged(predicate, column, key, inclusive, lower_side, t.columns, t.rows);
    let (lower, upper) = comparison_bounds(key, inclusive, lower_side);
    let ranged = ranged_rows(t.rows, i, bound_key(lower)->Ok_0, bound_key(upper)->Ok_0);
    if i >= 0 {
        law_sort_is_permutation(ranged, seq![(i, SortDirection::Asc)]);
    } else {
        if t.rows.len() > 0 {
            reveal_with_fuel(eval_spec, 2);
            assert(filter_rows_spec(predicate, t.columns, t.rows.drop_last()) is Ok);
        }
        assert(ranged =~= Seq::<Seq<Value>>::empty());
    }
}

/// Whether no row of the table holds NULL in the column.
pub open spec fn no_null_in_column(t: TableView, column: Seq<char>) -> bool {
    forall|j: int|
        0 <= j < t.rows.len() && 0 <= column_index(t.columns, column) < t.rows[j].len() ==> !((#[trigger] t.rows[j])[column_index(
            t.columns,
            column,
        )] is Null)
}

/// The planner's index rewrites keep the rows of the filter they replace.
/// Take a filter over a full scan of `table` whose predicate compares
/// `column` with an integer or string literal by `=`, `<`, `<=`, `>` or
/// `>=` (in either operand order), and a catalog in which the index the
/// planner picks for `column` covers that column. Wherever the filter
/// succeeds, the planner rewrites it into an index scan, and that scan
/// returns the same columns and the same rows, counted with multiplicity;
/// for a comparison other than `=` this asks that the column hold no NULL
/// (the index orders NULL above every key).
pub proof fn law_rewrite_keeps_filter_rows(
    c: CatalogView,
    table: String,
    predicate: Expr,
    indexes: Seq<IndexDef>,
    column: String,
    key: Literal,
)
    requires
        equality_spec(predicate) == Some((column, key)) || (comparison_spec(predicate) matches Some((col, k, _, _))
            && col == column && k == key),
        key is Int || key is String,
        index_lookup(indexes, table@, column@) matches Some(name) && find_index(c.indexes, name@) >= 0
            && c.indexes[find_index(c.indexes, name@)].column == column@,
        table_fits(c.tables[find_table(c.tables, table@)]),
        comparison_spec(predicate) is Some ==> no_null_in_column(c.tables[find_table(c.tables, table@)], column@),
        exec_spec(PhysicalPlan::Filter { input: Box::new(PhysicalPlan::SeqScan { table }), predicate }, c) matches Some(
            (Ok(_), _),
        ),
    ensures
        ({
            let filtered = exec_spec(
                PhysicalPlan::Filter { input: Box::new(PhysicalPlan::SeqScan { table }), predicate },
                c,
            )->Some_0.0->Ok_0;
            &&& rewrite_spec(table, predicate, indexes) is Some
            &&& exec_spec(rewrite_spec(table, predicate, indexes)->Some_0, c) matches Some((Ok(rs), after))
            &&& exec_spec(rewrite_spec(table, predicate, indexes)->Some_0, c)->Some_0.1 == c
            &&& exec_spec(rewrite_spec(table, predicate, indexes)->Some_0, c)->Some_0.0->Ok_0.columns == filtered.columns
            &&& exec_spec(rewrite_spec(table, predicate, indexes)->Some_0, c)->Some_0.0->Ok_0.rows.to_multiset()
                == filtered.rows.to_multiset()
        }),
{
    let name = index_lookup(indexes, table@, column@)->Some_0;
    reveal_with_fuel(exec_spec, 2);
    if equality_spec(predicate) == Some((column, key)) {
        let key_first = (*predicate->BinaryOp_left) is Literal;
        assert(predicate == equality_predicate(column, key, key_first));
        assert(rewrite_spec(table, predicate, indexes) == Some(PhysicalPlan::IndexScan { table, index_name: name, key }));
        law_index_scan_matches_filter(c, table, name, column, key, key_first);
    } else {
        let (col, k, inclusive, lower_side) = comparison_spec(predicate)->Some_0;
        assert(equality_spec(predicate) is None);
        let (lower, upper) = comparison_bounds(key, inclusive, lower_side);
        assert(rewrite_spec(table, predicate, indexes) == Some(
            PhysicalPlan::RangeIndexScan { table, index_name: name, lower, upper },
        ));
        law_range_index_scan_matches_filter(c, table, name, predicate, column, key, inclusive, lower_side);
    }
}

/// A read gives back what a write wrote: after an `INSERT` succeeds, a scan
/// of the table returns its earlier rows followed by the inserted rows, in
/// the table's column order.
pub proof fn law_scan_reads_back_inserts(c: CatalogView, table: String, columns: Vec<String>, rows: Vec<Vec<Literal>>)
    requires
        exec_spec(PhysicalPlan::Insert { table, columns, rows }, c) matches Some((Ok(_), _)),
    ensures
        ({
            let after = exec_spec(PhysicalPlan::Insert { table, columns, rows }, c)->Some_0.1;
            let t = c.tables[find_table(c.tables, table@)];
            exec_spec(PhysicalPlan::SeqScan { table }, after) == Some(
                (
                    Ok::<RowSetView, ErrorView>(
                        RowSetView {
                            columns: t.columns,
                            rows: t.rows + ordered_rows(t.columns, strings_view(columns@), rows@)->Ok_0,
                        },
                    ),
                    after,
                ),
            )
        }),
{
    let k = find_table(c.tables, table@);
    let t = c.tables[k];
    crate::storage::lemma_find_table(c.tables, table@);
    let added = ordered_rows(t.columns, strings_view(columns@), rows@)->Ok_0;
    lemma_with_rows_keeps_names(c, k, t.rows + added, table@);
}

/// A `DELETE` without a predicate empties the table, and counts the rows it
/// held.
pub proof fn law_delete_without_predicate_empties(c: CatalogView, table: String)
    requires
        exec_spec(PhysicalPlan::Delete { table, predicate: None }, c) matches Some((Ok(_), _)),
    ensures
        ({
            let (outcome, after) = exec_spec(PhysicalPlan::Delete { table, predicate: None }, c)->Some_0;
            let t = c.tables[find_table(c.tables, table@)];
            &&& outcome == Ok::<RowSetView, ErrorView>(count_result("deleted"@, t.rows.len()))
            &&& exec_spec(PhysicalPlan::SeqScan { table }, after) == Some(
                (Ok::<RowSetView, ErrorView>(RowSetView { columns: t.columns, rows: Seq::empty() }), after),
            )
        }),
{
    let k = find_table(c.tables, table@);
    let t = c.tables[k];
    crate::storage::lemma_find_table(c.tables, table@);
    lemma_delete_all(t.columns, t.rows);
    lemma_with_rows_keeps_names(c, k, Seq::empty(), table@);
}

proof fn lemma_delete_all(columns: Seq<Seq<char>>, rows: Seq<Seq<Value>>)
    ensures
        delete_rows(None, columns, rows) == Ok::<(Seq<Seq<Value>>, nat), crate::eval::ExecError>((Seq::empty(), rows.len())),
    decreases rows.len(),
{
    if rows.len() > 0 {
        lemma_delete_all(columns, rows.drop_last());
    }
}

proof fn lemma_update_counts(p: Option<Expr>, columns: Seq<Seq<char>>, a: Seq<(String, Literal)>, rows: Seq<Seq<Value>>)
    ensures
        update_rows(p, columns, a, rows) is Ok ==> update_rows(p, columns, a, rows)->Ok_0.0.len() + update_rows(
            p,
            columns,
            a,
            rows,
        )->Ok_0.1.len() == rows.len(),
    decreases rows.len(),
{
    if rows.len() > 0 {
        lemma_update_counts(p, columns, a, rows.drop_last());
    }
}

/// An `UPDATE` keeps the number of rows of its table: each selected row is
/// replaced by exactly one updated row.
pub proof fn law_update_keeps_row_count(
    c: CatalogView,
    table: String,
    assignments: Vec<(String, Literal)>,
    predicate: Option<Expr>,
)
    requires
        exec_spec(PhysicalPlan::Update { table, assignments, predicate }, c) matches Some((Ok(_), _)),
    ensures
        ({
            let after = exec_spec(PhysicalPlan::Update { table, assignments, predicate }, c)->Some_0.1;
            let k = find_table(c.tables, table@);
            &&& after.tables.len() == c.tables.len()
            &&& after.tables[k].rows.len() == c.tables[k].rows.len()
        }),
{
    let k = find_table(c.tables, table@);
    let t = c.tables[k];
    crate::storage::lemma_find_table(c.tables, table@);
    lemma_update_counts(predicate, t.columns, assignments@, t.rows);
}

} // verus!
