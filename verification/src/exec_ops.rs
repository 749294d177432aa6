//! The statements that read or change the catalog: inserts, deletes,
//! updates, and the scans that go through an index.
use crate::eval::{
    column_index, eval_expr, eval_spec, find_column, lemma_column_index, literal_to_value, literal_value, ExecError,
    Row, StorageError, Value,
};
use crate::ir::{strings_view, Expr, Literal};
use crate::key::{IndexKey, KeyValue};
use crate::row_set::{
    missing_column_is, order_row_values, order_row_values_spec, rows_view, values_cover, RowSet, RowSetView,
};
use crate::storage::{empty_result, find_index, find_table, with_rows, Catalog, CatalogView, TableView};
use vstd::prelude::*;

verus! {

/// An execution error as plain values.
pub enum ErrorView {
    Storage(StorageError),
    ColumnNotFound(Seq<char>),
    TypeMismatch,
    MissingColumn(Seq<char>),
    FloatArithmetic,
}

pub open spec fn error_view(e: ExecError) -> ErrorView {
    match e {
        ExecError::Storage(s) => ErrorView::Storage(s),
        ExecError::ColumnNotFound(c) => ErrorView::ColumnNotFound(c@),
        ExecError::TypeMismatch => ErrorView::TypeMismatch,
        ExecError::MissingColumn(c) => ErrorView::MissingColumn(c@),
        ExecError::FloatArithmetic => ErrorView::FloatArithmetic,
    }
}

/// What a statement returns: a row set or an error.
pub type Outcome = Result<RowSetView, ErrorView>;

pub open spec fn outcome_of(r: Result<RowSetView, ExecError>) -> Outcome {
    match r {
        Ok(v) => Ok(v),
        Err(e) => Err(error_view(e)),
    }
}

pub open spec fn result_view(r: Result<RowSet, ExecError>) -> Outcome {
    match r {
        Ok(s) => Ok(s@),
        Err(e) => Err(error_view(e)),
    }
}

/// Every row of the table has one value per column.
pub open spec fn table_fits(t: TableView) -> bool {
    forall|i: int| 0 <= i < t.rows.len() ==> (#[trigger] t.rows[i]).len() == t.columns.len()
}

// ---------------------------------------------------------------------------
// INSERT
// ---------------------------------------------------------------------------
pub open spec fn literal_values(row: Seq<Literal>) -> Seq<Value> {
    row.map_values(|l: Literal| literal_value(l))
}

/// Every row of literals, in table column order, or the first failure.
pub open spec fn ordered_rows(table_columns: Seq<Seq<char>>, insert_columns: Seq<Seq<char>>, rows: Seq<Vec<Literal>>) -> Result<
    Seq<Seq<Value>>,
    Seq<char>,
>
    decreases rows.len(),
{
    if rows.len() == 0 {
        Ok(Seq::empty())
    } else {
        match ordered_rows(table_columns, insert_columns, rows.drop_last()) {
            Err(m) => Err(m),
            Ok(out) => match order_row_values_spec(table_columns, insert_columns, literal_values(rows.last()@)) {
                Err((_, m)) => Err(m),
                Ok(v) => Ok(out.push(v)),
            },
        }
    }
}

/// `INSERT`: the rows, ordered by the table's columns, are appended to the
/// table; nothing changes on an error. `None` where ordering a row would
/// read past its values.
pub open spec fn insert_spec(c: CatalogView, table: String, columns: Seq<String>, rows: Seq<Vec<Literal>>) -> Option<
    (Outcome, CatalogView),
> {
    let k = find_table(c.tables, table@);
    if k < 0 {
        Some((Err(ErrorView::Storage(StorageError::TableNotFound(table))), c))
    } else {
        let t = c.tables[k];
        let ic = strings_view(columns);
        if !(forall|i: int| 0 <= i < rows.len() ==> values_cover(t.columns, ic, #[trigger] literal_values(rows[i]@))) {
            None
        } else {
            match ordered_rows(t.columns, ic, rows) {
                Err(m) => Some((Err(ErrorView::MissingColumn(m)), c)),
                Ok(new_rows) => Some((Ok(empty_result()), with_rows(c, k, t.rows + new_rows))),
            }
        }
    }
}

fn literal_row(row: &[Literal]) -> (values: Vec<Value>)
    ensures
        values@ == literal_values(row@),
{
    let mut values: Vec<Value> = Vec::new();
    let mut i: usize = 0;
    while i < row.len()
        invariant
            i <= row@.len(),
            values@ == literal_values(row@.take(i as int)),
        decreases row.len() - i,
    {
        values.push(literal_to_value(&row[i]));
        assert(values@ =~= literal_values(row@.take(i + 1)));
        i = i + 1;
    }
    assert(row@.take(row.len() as int) =~= row@);
    values
}

pub fn insert(catalog: &mut Catalog, table: &String, columns: &[String], rows: &[Vec<Literal>]) -> (r: Result<
    RowSet,
    ExecError,
>)
    requires
        insert_spec(old(catalog)@, *table, columns@, rows@) is Some,
    ensures
        insert_spec(old(catalog)@, *table, columns@, rows@) == Some((result_view(r), final(catalog)@)),
{
    let k = match catalog.table_position(table) {
        None => return Err(ExecError::Storage(StorageError::TableNotFound(table.clone()))),
        Some(k) => k,
    };
    let ghost t = catalog@.tables[k as int];
    let ghost ic = strings_view(columns@);
    let table_columns = catalog.table_column_names(k);
    let mut new_rows: Vec<Row> = Vec::new();
    let mut i: usize = 0;
    assert(rows@.take(0) =~= Seq::<Vec<Literal>>::empty());
    assert(rows_view(new_rows@) =~= Seq::<Seq<Value>>::empty());
    while i < rows.len()
        invariant
            i <= rows@.len(),
            k < catalog@.tables.len(),
            t == catalog@.tables[k as int],
            catalog@ == old(catalog)@,
            k as int == find_table(catalog@.tables, table@),
            ic == strings_view(columns@),
            strings_view(table_columns@) == t.columns,
            forall|j: int| 0 <= j < rows@.len() ==> values_cover(t.columns, ic, #[trigger] literal_values(rows@[j]@)),
            ordered_rows(t.columns, ic, rows@.take(i as int)) == Ok::<Seq<Seq<Value>>, Seq<char>>(rows_view(new_rows@)),
        decreases rows.len() - i,
    {
        proof {
            assert(rows@.take(i + 1).drop_last() =~= rows@.take(i as int));
            assert(rows@.take(i + 1).last() == rows@[i as int]);
            assert(values_cover(t.columns, ic, literal_values(rows@[i as int]@)));
        }
        let values = literal_row(rows[i].as_slice());
        let ordered = match order_row_values(table_columns.as_slice(), columns, values) {
            Ok(v) => v,
            Err(e) => {
                proof {
                    lemma_ordered_error_persists(t.columns, ic, rows@, i + 1);
                    let m = ordered_rows(t.columns, ic, rows@)->Err_0;
                    assert(error_view(e) == ErrorView::MissingColumn(m));
                }
                return Err(e);
            },
        };
        let ghost before = rows_view(new_rows@);
        let row = Row::new(ordered);
        let ghost rv = row@;
        new_rows.push(row);
        assert(rows_view(new_rows@) =~= before.push(rv));
        i = i + 1;
    }
    assert(rows@.take(rows.len() as int) =~= rows@);
    let mut all = crate::row_set::copy_rows(catalog.table_row_slice(k));
    let ghost existing = rows_view(all@);
    let ghost added = rows_view(new_rows@);
    all.append(&mut new_rows);
    assert(rows_view(all@) =~= existing + added);
    catalog.set_rows(k, all);
    let result = RowSet::new(Vec::new(), Vec::new());
    assert(result@.columns =~= Seq::<Seq<char>>::empty());
    assert(result@.rows =~= Seq::<Seq<Value>>::empty());
    Ok(result)
}

proof fn lemma_ordered_error_persists(tc: Seq<Seq<char>>, ic: Seq<Seq<char>>, rows: Seq<Vec<Literal>>, k: int)
    requires
        0 <= k <= rows.len(),
        ordered_rows(tc, ic, rows.take(k)) is Err,
    ensures
        ordered_rows(tc, ic, rows) == ordered_rows(tc, ic, rows.take(k)),
    decreases rows.len() - k,
{
    if k < rows.len() {
        assert(rows.take(k + 1).drop_last() =~= rows.take(k));
        lemma_ordered_error_persists(tc, ic, rows, k + 1);
    } else {
        assert(rows.take(k) =~= rows);
    }
}

// ---------------------------------------------------------------------------
// DELETE
// ---------------------------------------------------------------------------
/// Whether the predicate selects a row: only a `true` value does.
pub open spec fn selects(p: Option<Expr>, columns: Seq<Seq<char>>, row: Seq<Value>) -> Result<bool, ExecError> {
    match p {
        None => Ok(true),
        Some(e) => match eval_spec(e, columns, row) {
            Some(Ok(v)) => Ok(v == Value::Bool(true)),
            Some(Err(err)) => Err(err),
            None => Ok(false),
        },
    }
}

pub open spec fn predicate_evaluable(p: Option<Expr>, columns: Seq<Seq<char>>, rows: Seq<Seq<Value>>) -> bool {
    match p {
        None => true,
        Some(e) => forall|i: int| 0 <= i < rows.len() ==> #[trigger] eval_spec(e, columns, rows[i]) is Some,
    }
}

/// The rows the predicate does not select, in order, and how many it does
/// select; or the first error.
pub open spec fn delete_rows(p: Option<Expr>, columns: Seq<Seq<char>>, rows: Seq<Seq<Value>>) -> Result<
    (Seq<Seq<Value>>, nat),
    ExecError,
>
    decreases rows.len(),
{
    if rows.len() == 0 {
        Ok((Seq::empty(), 0))
    } else {
        match delete_rows(p, columns, rows.drop_last()) {
            Err(e) => Err(e),
            Ok((kept, n)) => match selects(p, columns, rows.last()) {
                Err(e) => Err(e),
                Ok(true) => Ok((kept, n + 1)),
                Ok(false) => Ok((kept.push(rows.last()), n)),
            },
        }
    }
}

/// A one-row result naming a count.
pub open spec fn count_result(name: Seq<char>, n: nat) -> RowSetView {
    RowSetView { columns: seq![name], rows: seq![seq![Value::Int(n as i64)]] }
}

/// `DELETE`: the selected rows go; the result counts them under `deleted`.
/// Nothing changes on an error.
pub open spec fn delete_spec(c: CatalogView, table: String, predicate: Option<Expr>) -> Option<(Outcome, CatalogView)> {
    let k = find_table(c.tables, table@);
    if k < 0 {
        Some((Err(ErrorView::Storage(StorageError::TableNotFound(table))), c))
    } else {
        let t = c.tables[k];
        if !predicate_evaluable(predicate, t.columns, t.rows) {
            None
        } else {
            match delete_rows(predicate, t.columns, t.rows) {
                Err(e) => Some((Err(error_view(e)), c)),
                Ok((kept, n)) => Some((Ok(count_result("deleted"@, n)), with_rows(c, k, kept))),
            }
        }
    }
}

proof fn lemma_delete_error_persists(p: Option<Expr>, columns: Seq<Seq<char>>, rows: Seq<Seq<Value>>, k: int)
    requires
        0 <= k <= rows.len(),
        delete_rows(p, columns, rows.take(k)) is Err,
    ensures
        delete_rows(p, columns, rows) == delete_rows(p, columns, rows.take(k)),
    decreases rows.len() - k,
{
    if k < rows.len() {
        assert(rows.take(k + 1).drop_last() =~= rows.take(k));
        lemma_delete_error_persists(p, columns, rows, k + 1);
    } else {
        assert(rows.take(k) =~= rows);
    }
}

proof fn lemma_delete_count_bound(p: Option<Expr>, columns: Seq<Seq<char>>, rows: Seq<Seq<Value>>)
    ensures
        delete_rows(p, columns, rows) is Ok ==> delete_rows(p, columns, rows)->Ok_0.1 <= rows.len(),
    decreases rows.len(),
{
    if rows.len() > 0 {
        lemma_delete_count_bound(p, columns, rows.drop_last());
    }
}

fn selects_row(predicate: &Option<Expr>, columns: &[String], row: &Row) -> (r: Result<bool, ExecError>)
    requires
        *predicate matches Some(e) ==> eval_spec(e, strings_view(columns@), row@) is Some,
    ensures
        r == selects(*predicate, strings_view(columns@), row@),
{
    match predicate {
        None => Ok(true),
        Some(e) => {
            let v = eval_expr(e, columns, row)?;
            Ok(matches!(v, Value::Bool(true)))
        },
    }
}

fn count_row_set(name: &str, n: usize) -> (s: RowSet)
    ensures
        s@ == count_result(name@, n as nat),
{
    let mut columns: Vec<String> = Vec::new();
    columns.push(name.to_string());
    let mut values: Vec<Value> = Vec::new();
    values.push(Value::Int(n as i64));
    let mut rows: Vec<Row> = Vec::new();
    let row = Row::new(values);
    rows.push(row);
    let s = RowSet::new(columns, rows);
    assert(s@.columns =~= seq![name@]);
    assert(row@ =~= seq![Value::Int(n as i64)]);
    assert(s@.rows =~= seq![seq![Value::Int(n as i64)]]);
    s
}

pub fn delete(catalog: &mut Catalog, table: &String, predicate: &Option<Expr>) -> (r: Result<RowSet, ExecError>)
    requires
        delete_spec(old(catalog)@, *table, *predicate) is Some,
    ensures
        delete_spec(old(catalog)@, *table, *predicate) == Some((result_view(r), final(catalog)@)),
{
    let k = match catalog.table_position(table) {
        None => return Err(ExecError::Storage(StorageError::TableNotFound(table.clone()))),
        Some(k) => k,
    };
    let ghost t = catalog@.tables[k as int];
    let columns = catalog.table_column_names(k);
    let rows = catalog.table_row_slice(k);
    let mut kept: Vec<Row> = Vec::new();
    let mut deleted: usize = 0;
    let mut i: usize = 0;
    assert(t.rows.take(0) =~= Seq::<Seq<Value>>::empty());
    assert(rows_view(kept@) =~= Seq::<Seq<Value>>::empty());
    while i < rows.len()
        invariant
            i <= rows@.len(),
            rows_view(rows@) == t.rows,
            strings_view(columns@) == t.columns,
            catalog@ == old(catalog)@,
            k as int == find_table(catalog@.tables, table@),
            t == catalog@.tables[k as int],
            predicate_evaluable(*predicate, t.columns, t.rows),
            deleted <= i,
            delete_rows(*predicate, t.columns, t.rows.take(i as int)) == Ok::<(Seq<Seq<Value>>, nat), ExecError>(
                (rows_view(kept@), deleted as nat),
            ),
        decreases rows.len() - i,
    {
        proof {
            assert(t.rows.take(i + 1).drop_last() =~= t.rows.take(i as int));
            assert(t.rows.take(i + 1).last() == t.rows[i as int]);
            assert(t.rows[i as int] == rows@[i as int]@);
        }
        let selected = match selects_row(predicate, columns.as_slice(), &rows[i]) {
            Ok(b) => b,
            Err(e) => {
                proof {
                    lemma_delete_error_persists(*predicate, t.columns, t.rows, i + 1);
                }
                return Err(e);
            },
        };
        if selected {
            deleted = deleted + 1;
        } else {
            let ghost before = rows_view(kept@);
            kept.push(rows[i].copy());
            assert(rows_view(kept@) =~= before.push(t.rows[i as int]));
        }
        i = i + 1;
    }
    assert(t.rows.take(rows.len() as int) =~= t.rows);
    catalog.set_rows(k, kept);
    Ok(count_row_set("deleted", deleted))
}

// ---------------------------------------------------------------------------
// UPDATE
// ---------------------------------------------------------------------------
/// The row with each assignment applied in turn (a later assignment to the
/// same column wins), or the first assignment to a missing column.
pub open spec fn apply_assignments(columns: Seq<Seq<char>>, assignments: Seq<(String, Literal)>, row: Seq<Value>) -> Result<
    Seq<Value>,
    ExecError,
>
    decreases assignments.len(),
{
    if assignments.len() == 0 {
        Ok(row)
    } else {
        match apply_assignments(columns, assignments.drop_last(), row) {
            Err(e) => Err(e),
            Ok(r) => {
                let a = assignments.last();
                let i = column_index(columns, a.0@);
                if i < 0 {
                    Err(ExecError::ColumnNotFound(a.0))
                } else {
                    Ok(r.update(i, literal_value(a.1)))
                }
            },
        }
    }
}

/// The rows the predicate does not select, in order, and the selected rows
/// with the assignments applied, in order; or the first error.
pub open spec fn update_rows(
    p: Option<Expr>,
    columns: Seq<Seq<char>>,
    assignments: Seq<(String, Literal)>,
    rows: Seq<Seq<Value>>,
) -> Result<(Seq<Seq<Value>>, Seq<Seq<Value>>), ExecError>
    decreases rows.len(),
{
    if rows.len() == 0 {
        Ok((Seq::empty(), Seq::empty()))
    } else {
        match update_rows(p, columns, assignments, rows.drop_last()) {
            Err(e) => Err(e),
            Ok((kept, changed)) => match selects(p, columns, rows.last()) {
                Err(e) => Err(e),
                Ok(false) => Ok((kept.push(rows.last()), changed)),
                Ok(true) => match apply_assignments(columns, assignments, rows.last()) {
                    Err(e) => Err(e),
                    Ok(r) => Ok((kept, changed.push(r))),
                },
            },
        }
    }
}

/// `UPDATE`: every selected row is replaced by its updated version, which
/// is stored after the rows left alone (as a new version is appended to the
/// table); the result counts the rows under `updated`. Nothing changes on
/// an error.
pub open spec fn update_spec(c: CatalogView, table: String, assignments: Seq<(String, Literal)>, predicate: Option<Expr>) -> Option<
    (Outcome, CatalogView),
> {
    let k = find_table(c.tables, table@);
    if k < 0 {
        Some((Err(ErrorView::Storage(StorageError::TableNotFound(table))), c))
    } else {
        let t = c.tables[k];
        if !predicate_evaluable(predicate, t.columns, t.rows) || !table_fits(t) {
            None
        } else {
            match update_rows(predicate, t.columns, assignments, t.rows) {
                Err(e) => Some((Err(error_view(e)), c)),
                Ok((kept, changed)) => Some(
                    (Ok(count_result("updated"@, changed.len())), with_rows(c, k, kept + changed)),
                ),
            }
        }
    }
}

proof fn lemma_update_error_persists(
    p: Option<Expr>,
    columns: Seq<Seq<char>>,
    assignments: Seq<(String, Literal)>,
    rows: Seq<Seq<Value>>,
    k: int,
)
    requires
        0 <= k <= rows.len(),
        update_rows(p, columns, assignments, rows.take(k)) is Err,
    ensures
        update_rows(p, columns, assignments, rows) == update_rows(p, columns, assignments, rows.take(k)),
    decreases rows.len() - k,
{
    if k < rows.len() {
        assert(rows.take(k + 1).drop_last() =~= rows.take(k));
        lemma_update_error_persists(p, columns, assignments, rows, k + 1);
    } else {
        assert(rows.take(k) =~= rows);
    }
}

proof fn lemma_apply_error_persists(columns: Seq<Seq<char>>, assignments: Seq<(String, Literal)>, row: Seq<Value>, k: int)
    requires
        0 <= k <= assignments.len(),
        apply_assignments(columns, assignments.take(k), row) is Err,
    ensures
        apply_assignments(columns, assignments, row) == apply_assignments(columns, assignments.take(k), row),
    decreases assignments.len() - k,
{
    if k < assignments.len() {
        assert(assignments.take(k + 1).drop_last() =~= assignments.take(k));
        lemma_apply_error_persists(columns, assignments, row, k + 1);
    } else {
        assert(assignments.take(k) =~= assignments);
    }
}

fn apply_to_row(columns: &[String], assignments: &[(String, Literal)], row: &Row) -> (r: Result<Row, ExecError>)
    requires
        row@.len() == columns@.len(),
    ensures
        match (r, apply_assignments(strings_view(columns@), assignments@, row@)) {
            (Ok(a), Ok(b)) => a@ == b,
            (Err(e), Err(f)) => e == f,
            _ => false,
        },
{
    let ghost cv = strings_view(columns@);
    let mut values = crate::eval::copy_values(row.values());
    let mut i: usize = 0;
    assert(assignments@.take(0) =~= Seq::<(String, Literal)>::empty());
    while i < assignments.len()
        invariant
            i <= assignments@.len(),
            cv == strings_view(columns@),
            values@.len() == columns@.len(),
            apply_assignments(cv, assignments@.take(i as int), row@) == Ok::<Seq<Value>, ExecError>(values@),
        decreases assignments.len() - i,
    {
        proof {
            assert(assignments@.take(i + 1).drop_last() =~= assignments@.take(i as int));
            assert(assignments@.take(i + 1).last() == assignments@[i as int]);
            lemma_column_index(cv, assignments@[i as int].0@);
        }
        match find_column(columns, &assignments[i].0) {
            None => {
                proof {
                    lemma_apply_error_persists(cv, assignments@, row@, i + 1);
                }
                return Err(ExecError::ColumnNotFound(assignments[i].0.clone()));
            },
            Some(index) => {
                let v = literal_to_value(&assignments[i].1);
                values.set(index, v);
            },
        }
        i = i + 1;
    }
    assert(assignments@.take(assignments.len() as int) =~= assignments@);
    Ok(Row::new(values))
}

pub fn update(catalog: &mut Catalog, table: &String, assignments: &[(String, Literal)], predicate: &Option<Expr>) -> (r:
    Result<RowSet, ExecError>)
    requires
        update_spec(old(catalog)@, *table, assignments@, *predicate) is Some,
    ensures
        update_spec(old(catalog)@, *table, assignments@, *predicate) == Some((result_view(r), final(catalog)@)),
{
    let k = match catalog.table_position(table) {
        None => return Err(ExecError::Storage(StorageError::TableNotFound(table.clone()))),
        Some(k) => k,
    };
    let ghost t = catalog@.tables[k as int];
    let columns = catalog.table_column_names(k);
    let rows = catalog.table_row_slice(k);
    let mut kept: Vec<Row> = Vec::new();
    let mut changed: Vec<Row> = Vec::new();
    let mut i: usize = 0;
    assert(t.rows.take(0) =~= Seq::<Seq<Value>>::empty());
    assert(rows_view(kept@) =~= Seq::<Seq<Value>>::empty());
    assert(rows_view(changed@) =~= Seq::<Seq<Value>>::empty());
    while i < rows.len()
        invariant
            i <= rows@.len(),
            rows_view(rows@) == t.rows,
            strings_view(columns@) == t.columns,
            catalog@ == old(catalog)@,
            k as int == find_table(catalog@.tables, table@),
            t == catalog@.tables[k as int],
            predicate_evaluable(*predicate, t.columns, t.rows),
            table_fits(t),
            update_rows(*predicate, t.columns, assignments@, t.rows.take(i as int)) == Ok::<
                (Seq<Seq<Value>>, Seq<Seq<Value>>),
                ExecError,
            >((rows_view(kept@), rows_view(changed@))),
        decreases rows.len() - i,
    {
        proof {
            assert(t.rows.take(i + 1).drop_last() =~= t.rows.take(i as int));
            assert(t.rows.take(i + 1).last() == t.rows[i as int]);
            assert(t.rows[i as int] == rows@[i as int]@);
            assert(t.rows[i as int].len() == t.columns.len());
        }
        let selected = match selects_row(predicate, columns.as_slice(), &rows[i]) {
            Ok(b) => b,
            Err(e) => {
                proof {
                    lemma_update_error_persists(*predicate, t.columns, assignments@, t.rows, i + 1);
                }
                return Err(e);
            },
        };
        if selected {
            let updated = match apply_to_row(columns.as_slice(), assignments, &rows[i]) {
                Ok(r) => r,
                Err(e) => {
                    proof {
                        lemma_update_error_persists(*predicate, t.columns, assignments@, t.rows, i + 1);
                    }
                    return Err(e);
                },
            };
            let ghost before = rows_view(changed@);
            let ghost uv = updated@;
            changed.push(updated);
            assert(rows_view(changed@) =~= before.push(uv));
        } else {
            let ghost before = rows_view(kept@);
            kept.push(rows[i].copy());
            assert(rows_view(kept@) =~= before.push(t.rows[i as int]));
        }
        i = i + 1;
    }
    assert(t.rows.take(rows.len() as int) =~= t.rows);
    let count = changed.len();
    let ghost kv = rows_view(kept@);
    let ghost cv = rows_view(changed@);
    kept.append(&mut changed);
    assert(rows_view(kept@) =~= kv + cv);
    catalog.set_rows(k, kept);
    Ok(count_row_set("updated", count))
}

} // verus!
