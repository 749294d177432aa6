//! Row sets and the relational operators that work on them: projection,
//! filtering, `LIMIT`/`OFFSET`, and the ordering of inserted values.
use crate::eval::{column_index, eval_expr, eval_spec, find_column, lemma_column_index, ExecError, Row, Value};
use crate::ir::{strings_view, Expr, Projection};
use vstd::prelude::*;

verus! {

/// A row set as plain values: the column names, and each row's values.
pub struct RowSetView {
    pub columns: Seq<Seq<char>>,
    pub rows: Seq<Seq<Value>>,
}

pub open spec fn rows_view(rows: Seq<Row>) -> Seq<Seq<Value>> {
    rows.map_values(|r: Row| r@)
}

/// Rows together with the names of their columns, which travel with the
/// rows through every stage of a plan.
#[derive(Debug, PartialEq)]
pub struct RowSet {
    columns: Vec<String>,
    rows: Vec<Row>,
}

impl View for RowSet {
    type V = RowSetView;

    closed spec fn view(&self) -> RowSetView {
        RowSetView { columns: strings_view(self.columns@), rows: rows_view(self.rows@) }
    }
}

/// Every row has one value per column.
pub open spec fn well_formed(v: RowSetView) -> bool {
    forall|i: int| 0 <= i < v.rows.len() ==> (#[trigger] v.rows[i]).len() == v.columns.len()
}

impl RowSet {
    pub fn new(columns: Vec<String>, rows: Vec<Row>) -> (s: RowSet)
        ensures
            s@ == (RowSetView { columns: strings_view(columns@), rows: rows_view(rows@) }),
    {
        RowSet { columns, rows }
    }

    pub fn columns(&self) -> (columns: &[String])
        ensures
            strings_view(columns@) == self@.columns,
    {
        self.columns.as_slice()
    }

    pub fn rows(&self) -> (rows: &[Row])
        ensures
            rows_view(rows@) == self@.rows,
    {
        self.rows.as_slice()
    }

    /// The position of the first column named `name`.
    pub fn column_index(&self, name: &str) -> (index: Option<usize>)
        ensures
            match index {
                Some(i) => i == column_index(self@.columns, name@),
                None => column_index(self@.columns, name@) < 0,
            },
    {
        find_column(self.columns.as_slice(), &name.to_string())
    }
}

/// A copy of a sequence of rows.
pub fn copy_rows(rows: &[Row]) -> (c: Vec<Row>)
    ensures
        rows_view(c@) == rows_view(rows@),
{
    let mut c: Vec<Row> = Vec::new();
    let mut i: usize = 0;
    while i < rows.len()
        invariant
            i <= rows.len(),
            c@.len() == i,
            forall|k: int| 0 <= k < i ==> (#[trigger] c@[k])@ == rows@[k]@,
        decreases rows.len() - i,
    {
        let r = rows[i].copy();
        c.push(r);
        i = i + 1;
    }
    assert(rows_view(c@) =~= rows_view(rows@));
    c
}

/// A copy of a sequence of column names.
pub fn copy_names(names: &[String]) -> (c: Vec<String>)
    ensures
        c@ == names@,
{
    let mut c: Vec<String> = Vec::new();
    let mut i: usize = 0;
    while i < names.len()
        invariant
            i <= names.len(),
            c@ == names@.take(i as int),
        decreases names.len() - i,
    {
        c.push(names[i].clone());
        assert(c@ =~= names@.take(i + 1));
        i = i + 1;
    }
    assert(names@.take(names.len() as int) =~= names@);
    c
}

// ---------------------------------------------------------------------------
// Projection
// ---------------------------------------------------------------------------
/// The positions of the named columns, in order, or the first name that is
/// not a column.
pub open spec fn resolve_columns(columns: Seq<Seq<char>>, names: Seq<String>) -> Result<Seq<int>, ExecError>
    decreases names.len(),
{
    if names.len() == 0 {
        Ok(Seq::empty())
    } else {
        match resolve_columns(columns, names.drop_last()) {
            Err(e) => Err(e),
            Ok(ix) => {
                let i = column_index(columns, names.last()@);
                if i < 0 {
                    Err(ExecError::ColumnNotFound(names.last()))
                } else {
                    Ok(ix.push(i))
                }
            },
        }
    }
}

pub proof fn lemma_resolve_bounds(columns: Seq<Seq<char>>, names: Seq<String>)
    ensures
        resolve_columns(columns, names) is Ok ==> {
            let ix = resolve_columns(columns, names)->Ok_0;
            &&& ix.len() == names.len()
            &&& forall|k: int| 0 <= k < ix.len() ==> 0 <= #[trigger] ix[k] < columns.len()
        },
    decreases names.len(),
{
    if names.len() > 0 {
        lemma_resolve_bounds(columns, names.drop_last());
        lemma_column_index(columns, names.last()@);
    }
}

/// The values of `row` at the positions `ix`, in that order.
pub open spec fn pick(row: Seq<Value>, ix: Seq<int>) -> Seq<Value> {
    ix.map_values(|i: int| row[i])
}

/// The positions of every column, each found by its name (so a repeated
/// name reads its first column).
pub open spec fn all_columns(columns: Seq<Seq<char>>) -> Seq<int> {
    Seq::new(columns.len(), |k: int| column_index(columns, columns[k]))
}

/// A projection keeps the named columns (all of them for `*`), in the
/// order named; a name that is not a column is an error.
pub open spec fn project_spec(input: RowSetView, p: Projection) -> Result<RowSetView, ExecError> {
    match p {
        Projection::All => {
            let ix = all_columns(input.columns);
            Ok(RowSetView { columns: input.columns, rows: input.rows.map_values(|r: Seq<Value>| pick(r, ix)) })
        },
        Projection::Columns(names) => match resolve_columns(input.columns, names@) {
            Err(e) => Err(e),
            Ok(ix) => Ok(
                RowSetView { columns: strings_view(names@), rows: input.rows.map_values(|r: Seq<Value>| pick(r, ix)) },
            ),
        },
    }
}

pub fn resolve(columns: &[String], names: &[String]) -> (r: Result<Vec<usize>, ExecError>)
    ensures
        match (r, resolve_columns(strings_view(columns@), names@)) {
            (Ok(v), Ok(ix)) => v@.len() == ix.len() && forall|k: int| 0 <= k < ix.len() ==> v@[k] == #[trigger] ix[k],
            (Err(e), Err(f)) => e == f,
            _ => false,
        },
{
    let mut v: Vec<usize> = Vec::new();
    let mut i: usize = 0;
    let ghost mut ix: Seq<int> = Seq::empty();
    assert(names@.take(0) =~= Seq::<String>::empty());
    while i < names.len()
        invariant
            i <= names.len(),
            resolve_columns(strings_view(columns@), names@.take(i as int)) == Ok::<Seq<int>, ExecError>(ix),
            v@.len() == i,
            ix.len() == i,
            forall|k: int| 0 <= k < i ==> v@[k] == #[trigger] ix[k],
        decreases names.len() - i,
    {
        proof {
            assert(names@.take(i + 1).drop_last() =~= names@.take(i as int));
            assert(names@.take(i + 1).last() == names@[i as int]);
        }
        match find_column(columns, &names[i]) {
            Some(index) => {
                v.push(index);
                proof {
                    ix = ix.push(index as int);
                }
            },
            None => {
                proof {
                    lemma_resolve_error_persists(strings_view(columns@), names@, i + 1);
                }
                return Err(ExecError::ColumnNotFound(names[i].clone()));
            },
        }
        i = i + 1;
    }
    assert(names@.take(names.len() as int) =~= names@);
    Ok(v)
}

pub proof fn lemma_resolve_error_persists(columns: Seq<Seq<char>>, names: Seq<String>, k: int)
    requires
        0 <= k <= names.len(),
        resolve_columns(columns, names.take(k)) is Err,
    ensures
        resolve_columns(columns, names) == resolve_columns(columns, names.take(k)),
    decreases names.len() - k,
{
    if k < names.len() {
        assert(names.take(k + 1).drop_last() =~= names.take(k));
        lemma_resolve_error_persists(columns, names, k + 1);
    } else {
        assert(names.take(k) =~= names);
    }
}

pub fn pick_values(row: &Row, indices: &Vec<usize>) -> (values: Vec<Value>)
    requires
        forall|k: int| 0 <= k < indices@.len() ==> #[trigger] indices@[k] < row@.len(),
    ensures
        values@ == indices@.map_values(|i: usize| row@[i as int]),
{
    let mut values: Vec<Value> = Vec::new();
    let mut k: usize = 0;
    while k < indices.len()
        invariant
            k <= indices@.len(),
            forall|j: int| 0 <= j < indices@.len() ==> #[trigger] indices@[j] < row@.len(),
            values@ == indices@.take(k as int).map_values(|i: usize| row@[i as int]),
        decreases indices.len() - k,
    {
        let i = indices[k];
        values.push(row.values()[i].copy());
        assert(values@ =~= indices@.take(k + 1).map_values(|i: usize| row@[i as int]));
        k = k + 1;
    }
    assert(indices@.take(indices@.len() as int) =~= indices@);
    values
}

/// Keeps the named columns of every row.
pub fn project(input: &RowSet, columns: &Projection) -> (r: Result<RowSet, ExecError>)
    requires
        well_formed(input@),
    ensures
        match (r, project_spec(input@, *columns)) {
            (Ok(s), Ok(v)) => s@ == v && well_formed(s@),
            (Err(e), Err(f)) => e == f,
            _ => false,
        },
{
    let names: Vec<String> = match columns {
        Projection::All => copy_names(input.columns()),
        Projection::Columns(cols) => copy_names(cols.as_slice()),
    };
    proof {
        if columns is All {
            lemma_resolve_all(input@.columns, names@);
        }
    }
    let indices = resolve(input.columns(), names.as_slice())?;
    let ghost ix = resolve_columns(input@.columns, names@)->Ok_0;
    proof {
        lemma_resolve_bounds(input@.columns, names@);
    }
    let rows = input.rows();
    let mut out: Vec<Row> = Vec::new();
    let mut j: usize = 0;
    while j < rows.len()
        invariant
            j <= rows@.len(),
            rows_view(rows@) == input@.rows,
            well_formed(input@),
            indices@.len() == ix.len(),
            forall|k: int| 0 <= k < ix.len() ==> indices@[k] == #[trigger] ix[k],
            forall|k: int| 0 <= k < ix.len() ==> 0 <= #[trigger] ix[k] < input@.columns.len(),
            out@.len() == j,
            forall|k: int| 0 <= k < j ==> (#[trigger] out@[k])@ == pick(input@.rows[k], ix),
        decreases rows.len() - j,
    {
        assert(rows_view(rows@)[j as int] == rows@[j as int]@);
        assert(input@.rows[j as int].len() == input@.columns.len());
        proof {
            assert forall|k: int| 0 <= k < indices@.len() implies #[trigger] indices@[k] < rows@[j as int]@.len() by {
                assert(indices@[k] == ix[k]);
            }
        }
        let values = pick_values(&rows[j], &indices);
        assert(values@ =~= pick(rows@[j as int]@, ix));
        out.push(Row::new(values));
        j = j + 1;
    }
    assert(rows_view(out@) =~= input@.rows.map_values(|r: Seq<Value>| pick(r, ix)));
    let result = RowSet::new(names, out);
    assert forall|i: int| 0 <= i < result@.rows.len() implies (#[trigger] result@.rows[i]).len() == result@.columns.len() by {
        lemma_resolve_bounds(input@.columns, names@);
    }
    Ok(result)
}

/// Every column resolves by its own name.
proof fn lemma_resolve_all(columns: Seq<Seq<char>>, names: Seq<String>)
    requires
        strings_view(names) == columns,
    ensures
        resolve_columns(columns, names) == Ok::<Seq<int>, ExecError>(all_columns(columns)),
    decreases names.len(),
{
    assert(names.len() == columns.len());
    assert(columns.take(names.len() as int) =~= columns);
    lemma_resolve_prefix(columns, names);
    assert(all_columns(columns).take(names.len() as int) =~= all_columns(columns));
}

/// Resolving a prefix of the columns' own names gives their positions.
proof fn lemma_resolve_prefix(columns: Seq<Seq<char>>, names: Seq<String>)
    requires
        names.len() <= columns.len(),
        strings_view(names) == columns.take(names.len() as int),
    ensures
        resolve_columns(columns, names) == Ok::<Seq<int>, ExecError>(all_columns(columns).take(names.len() as int)),
    decreases names.len(),
{
    if names.len() > 0 {
        assert(strings_view(names.drop_last()) =~= columns.take(names.len() - 1));
        lemma_resolve_prefix(columns, names.drop_last());
        assert(names.last()@ == strings_view(names)[names.len() - 1]);
        lemma_column_index(columns, names.last()@);
        assert(resolve_columns(columns, names)->Ok_0 =~= all_columns(columns).take(names.len() as int));
    } else {
        assert(all_columns(columns).take(0) =~= Seq::<int>::empty());
    }
}

// ---------------------------------------------------------------------------
// LIMIT and OFFSET
// ---------------------------------------------------------------------------
/// The rows past the first `offset` (none when absent), at most `limit` of
/// them (all when absent).
pub open spec fn limit_spec(input: RowSetView, limit: Option<u64>, offset: Option<u64>) -> RowSetView {
    let n = input.rows.len();
    let off: int = match offset {
        Some(o) => o as int,
        None => 0,
    };
    let start = if off < n {
        off
    } else {
        n as int
    };
    let end = match limit {
        Some(l) => if start + l < n {
            start + l
        } else {
            n as int
        },
        None => n as int,
    };
    RowSetView { columns: input.columns, rows: input.rows.subrange(start, end) }
}

pub fn limit(input: &RowSet, count: &Option<u64>, offset: &Option<u64>) -> (r: RowSet)
    ensures
        r@ == limit_spec(input@, *count, *offset),
        well_formed(input@) ==> well_formed(r@),
{
    let rows = input.rows();
    let n = rows.len();
    let start: usize = match offset {
        Some(o) => if (*o as u128) < (n as u128) {
            *o as usize
        } else {
            n
        },
        None => 0,
    };
    let end: usize = match count {
        Some(l) => if (start as u128) + (*l as u128) < (n as u128) {
            start + (*l as usize)
        } else {
            n
        },
        None => n,
    };
    let mut out: Vec<Row> = Vec::new();
    let mut j: usize = start;
    while j < end
        invariant
            start <= j <= end <= n,
            n == rows@.len(),
            out@.len() == j - start,
            forall|k: int| 0 <= k < j - start ==> (#[trigger] out@[k])@ == rows@[start + k]@,
        decreases end - j,
    {
        out.push(rows[j].copy());
        j = j + 1;
    }
    assert(rows_view(out@) =~= rows_view(rows@).subrange(start as int, end as int));
    RowSet::new(copy_names(input.columns()), out)
}

// ---------------------------------------------------------------------------
// Filtering
// ---------------------------------------------------------------------------
/// Whether a predicate's value keeps a row: `true` keeps it, `false` and
/// NULL drop it, anything else is a type error.
pub open spec fn keep_spec(v: Value) -> Result<bool, ExecError> {
    match v {
        Value::Bool(b) => Ok(b),
        Value::Null => Ok(false),
        _ => Err(ExecError::TypeMismatch),
    }
}

/// Whether `expr` can be evaluated over every row (no integer addition in
/// it overflows, and no column it reads is past the end of a row).
pub open spec fn evaluable(expr: Expr, columns: Seq<Seq<char>>, rows: Seq<Seq<Value>>) -> bool {
    forall|i: int| 0 <= i < rows.len() ==> #[trigger] eval_spec(expr, columns, rows[i]) is Some
}

/// The rows the predicate keeps, in order, or the first error met.
pub open spec fn filter_rows_spec(predicate: Expr, columns: Seq<Seq<char>>, rows: Seq<Seq<Value>>) -> Result<
    Seq<Seq<Value>>,
    ExecError,
>
    decreases rows.len(),
{
    if rows.len() == 0 {
        Ok(Seq::empty())
    } else {
        match filter_rows_spec(predicate, columns, rows.drop_last()) {
            Err(e) => Err(e),
            Ok(kept) => match eval_spec(predicate, columns, rows.last()) {
                Some(Ok(v)) => match keep_spec(v) {
                    Ok(true) => Ok(kept.push(rows.last())),
                    Ok(false) => Ok(kept),
                    Err(e) => Err(e),
                },
                Some(Err(e)) => Err(e),
                None => Ok(kept),
            },
        }
    }
}

pub open spec fn filter_spec(input: RowSetView, predicate: Expr) -> Result<RowSetView, ExecError> {
    match filter_rows_spec(predicate, input.columns, input.rows) {
        Ok(rows) => Ok(RowSetView { columns: input.columns, rows }),
        Err(e) => Err(e),
    }
}

proof fn lemma_filter_error_persists(predicate: Expr, columns: Seq<Seq<char>>, rows: Seq<Seq<Value>>, k: int)
    requires
        0 <= k <= rows.len(),
        filter_rows_spec(predicate, columns, rows.take(k)) is Err,
    ensures
        filter_rows_spec(predicate, columns, rows) == filter_rows_spec(predicate, columns, rows.take(k)),
    decreases rows.len() - k,
{
    if k < rows.len() {
        assert(rows.take(k + 1).drop_last() =~= rows.take(k));
        lemma_filter_error_persists(predicate, columns, rows, k + 1);
    } else {
        assert(rows.take(k) =~= rows);
    }
}

proof fn lemma_filter_keeps_rows(predicate: Expr, columns: Seq<Seq<char>>, rows: Seq<Seq<Value>>)
    ensures
        filter_rows_spec(predicate, columns, rows) is Ok ==> forall|i: int|
            0 <= i < filter_rows_spec(predicate, columns, rows)->Ok_0.len() ==> exists|j: int|
                0 <= j < rows.len() && #[trigger] filter_rows_spec(predicate, columns, rows)->Ok_0[i] == rows[j],
    decreases rows.len(),
{
    if rows.len() > 0 {
        lemma_filter_keeps_rows(predicate, columns, rows.drop_last());
        if filter_rows_spec(predicate, columns, rows) is Ok {
            let kept = filter_rows_spec(predicate, columns, rows.drop_last())->Ok_0;
            let out = filter_rows_spec(predicate, columns, rows)->Ok_0;
            assert forall|i: int| 0 <= i < out.len() implies exists|j: int| 0 <= j < rows.len() && #[trigger] out[i] == rows[j] by {
                if i < kept.len() {
                    let j = choose|j: int| 0 <= j < rows.drop_last().len() && kept[i] == rows.drop_last()[j];
                    assert(out[i] == rows[j]);
                } else {
                    assert(out[i] == rows[rows.len() - 1]);
                }
            }
        }
    }
}

/// Keeps the rows on which the predicate is true.
pub fn filter(input: &RowSet, predicate: &Expr) -> (r: Result<RowSet, ExecError>)
    requires
        evaluable(*predicate, input@.columns, input@.rows),
    ensures
        match (r, filter_spec(input@, *predicate)) {
            (Ok(s), Ok(v)) => s@ == v,
            (Err(e), Err(f)) => e == f,
            _ => false,
        },
        r is Ok && well_formed(input@) ==> well_formed(r->Ok_0@),
{
    let columns = input.columns();
    let rows = input.rows();
    let mut kept: Vec<Row> = Vec::new();
    let mut j: usize = 0;
    assert(input@.rows.take(0) =~= Seq::<Seq<Value>>::empty());
    assert(rows_view(kept@) =~= Seq::<Seq<Value>>::empty());
    while j < rows.len()
        invariant
            j <= rows@.len(),
            rows_view(rows@) == input@.rows,
            strings_view(columns@) == input@.columns,
            evaluable(*predicate, input@.columns, input@.rows),
            filter_rows_spec(*predicate, input@.columns, input@.rows.take(j as int)) == Ok::<
                Seq<Seq<Value>>,
                ExecError,
            >(rows_view(kept@)),
        decreases rows.len() - j,
    {
        proof {
            assert(input@.rows.take(j + 1).drop_last() =~= input@.rows.take(j as int));
            assert(input@.rows.take(j + 1).last() == input@.rows[j as int]);
            assert(rows_view(rows@)[j as int] == rows@[j as int]@);
            assert(eval_spec(*predicate, input@.columns, input@.rows[j as int]) is Some);
        }
        let value = match eval_expr(predicate, columns, &rows[j]) {
            Ok(v) => v,
            Err(e) => {
                proof {
                    lemma_filter_error_persists(*predicate, input@.columns, input@.rows, j + 1);
                }
                return Err(e);
            },
        };
        let keep = match value {
            Value::Bool(b) => b,
            Value::Null => false,
            _ => {
                proof {
                    lemma_filter_error_persists(*predicate, input@.columns, input@.rows, j + 1);
                }
                return Err(ExecError::TypeMismatch);
            },
        };
        if keep {
            let ghost before = kept@;
            kept.push(rows[j].copy());
            assert(rows_view(kept@) =~= rows_view(before).push(input@.rows[j as int]));
        }
        j = j + 1;
    }
    assert(input@.rows.take(rows.len() as int) =~= input@.rows);
    let result = RowSet::new(copy_names(columns), kept);
    proof {
        if well_formed(input@) {
            lemma_filter_keeps_rows(*predicate, input@.columns, input@.rows);
            assert forall|i: int| 0 <= i < result@.rows.len() implies (#[trigger] result@.rows[i]).len()
                == result@.columns.len() by {
                let j = choose|j: int| 0 <= j < input@.rows.len() && result@.rows[i] == input@.rows[j];
                assert(input@.rows[j].len() == input@.columns.len());
            }
        }
    }
    Ok(result)
}

// ---------------------------------------------------------------------------
// Inserted values in table order
// ---------------------------------------------------------------------------
/// For each table column in order, the position of the first inserted
/// column with its name, or the first table column that is missing.
pub open spec fn resolve_insert_columns(table_columns: Seq<Seq<char>>, insert_columns: Seq<Seq<char>>) -> Result<
    Seq<int>,
    Seq<char>,
>
    decreases table_columns.len(),
{
    if table_columns.len() == 0 {
        Ok(Seq::empty())
    } else {
        match resolve_insert_columns(table_columns.drop_last(), insert_columns) {
            Err(m) => Err(m),
            Ok(ix) => {
                let i = column_index(insert_columns, table_columns.last());
                if i < 0 {
                    Err(table_columns.last())
                } else {
                    Ok(ix.push(i))
                }
            },
        }
    }
}

pub proof fn lemma_resolve_insert_bounds(table_columns: Seq<Seq<char>>, insert_columns: Seq<Seq<char>>)
    ensures
        resolve_insert_columns(table_columns, insert_columns) is Ok ==> {
            let ix = resolve_insert_columns(table_columns, insert_columns)->Ok_0;
            &&& ix.len() == table_columns.len()
            &&& forall|k: int| 0 <= k < ix.len() ==> 0 <= #[trigger] ix[k] < insert_columns.len()
        },
    decreases table_columns.len(),
{
    if table_columns.len() > 0 {
        lemma_resolve_insert_bounds(table_columns.drop_last(), insert_columns);
        lemma_column_index(insert_columns, table_columns.last());
    }
}

proof fn lemma_resolve_insert_error_persists(table_columns: Seq<Seq<char>>, insert_columns: Seq<Seq<char>>, k: int)
    requires
        0 <= k <= table_columns.len(),
        resolve_insert_columns(table_columns.take(k), insert_columns) is Err,
    ensures
        resolve_insert_columns(table_columns, insert_columns) == resolve_insert_columns(
            table_columns.take(k),
            insert_columns,
        ),
    decreases table_columns.len() - k,
{
    if k < table_columns.len() {
        assert(table_columns.take(k + 1).drop_last() =~= table_columns.take(k));
        lemma_resolve_insert_error_persists(table_columns, insert_columns, k + 1);
    } else {
        assert(table_columns.take(k) =~= table_columns);
    }
}

/// The message of the error for a statement that names some but not all
/// columns.
pub open spec fn missing_columns_message() -> Seq<char> {
    "INSERT must specify all columns until NULL/defaults are supported"@
}

/// Every value position read while ordering (each table column in turn,
/// until one is missing) is within the values.
pub open spec fn values_cover(table_columns: Seq<Seq<char>>, insert_columns: Seq<Seq<char>>, values: Seq<Value>) -> bool {
    insert_columns.len() > 0 && insert_columns.len() == table_columns.len() ==> forall|k: int|
        0 <= k < table_columns.len() && #[trigger] resolve_insert_columns(table_columns.take(k + 1), insert_columns)
            is Ok ==> resolve_insert_columns(table_columns.take(k + 1), insert_columns)->Ok_0[k] < values.len()
}

/// The inserted values in the table's column order: as given when the
/// statement names no columns; otherwise each table column takes the value
/// of the first inserted column with its name. A statement that names
/// columns must name as many as the table has, and every one of them.
pub open spec fn order_row_values_spec(table_columns: Seq<Seq<char>>, insert_columns: Seq<Seq<char>>, values: Seq<Value>) -> Result<
    Seq<Value>,
    (bool, Seq<char>),
> {
    if insert_columns.len() == 0 {
        Ok(values)
    } else if insert_columns.len() != table_columns.len() {
        Err((true, missing_columns_message()))
    } else {
        match resolve_insert_columns(table_columns, insert_columns) {
            Err(m) => Err((false, m)),
            Ok(ix) => Ok(pick(values, ix)),
        }
    }
}

/// The error an ordering failure is reported as: a missing column, named
/// by the message.
pub open spec fn missing_column_is(e: ExecError, m: Seq<char>) -> bool {
    match e {
        ExecError::MissingColumn(s) => s@ == m,
        _ => false,
    }
}

pub fn order_row_values(table_columns: &[String], insert_columns: &[String], values: Vec<Value>) -> (r: Result<
    Vec<Value>,
    ExecError,
>)
    requires
        values_cover(strings_view(table_columns@), strings_view(insert_columns@), values@),
    ensures
        match (r, order_row_values_spec(strings_view(table_columns@), strings_view(insert_columns@), values@)) {
            (Ok(v), Ok(w)) => v@ == w,
            (Err(e), Err((_, m))) => missing_column_is(e, m),
            _ => false,
        },
{
    let ghost tc = strings_view(table_columns@);
    let ghost ic = strings_view(insert_columns@);
    if insert_columns.len() == 0 {
        return Ok(values);
    }
    if insert_columns.len() != table_columns.len() {
        return Err(
            ExecError::MissingColumn("INSERT must specify all columns until NULL/defaults are supported".to_string()),
        );
    }
    let mut ordered: Vec<Value> = Vec::new();
    let mut i: usize = 0;
    let ghost mut ix: Seq<int> = Seq::empty();
    assert(tc.take(0) =~= Seq::<Seq<char>>::empty());
    while i < table_columns.len()
        invariant
            i <= table_columns@.len(),
            tc == strings_view(table_columns@),
            ic == strings_view(insert_columns@),
            insert_columns@.len() > 0,
            insert_columns@.len() == table_columns@.len(),
            values_cover(tc, ic, values@),
            resolve_insert_columns(tc.take(i as int), ic) == Ok::<Seq<int>, Seq<char>>(ix),
            ix.len() == i,
            ordered@ == pick(values@, ix),
        decreases table_columns.len() - i,
    {
        proof {
            assert(tc.take(i + 1).drop_last() =~= tc.take(i as int));
            assert(tc.take(i + 1).last() == table_columns@[i as int]@);
        }
        match crate::eval::find_column(insert_columns, &table_columns[i]) {
            Some(index) => {
                proof {
                    lemma_column_index(ic, table_columns@[i as int]@);
                    let nix = ix.push(index as int);
                    assert(resolve_insert_columns(tc.take(i + 1), ic) == Ok::<Seq<int>, Seq<char>>(nix));
                    assert(nix[i as int] < values@.len());
                    assert(nix[i as int] == index as int);
                    assert(index < values@.len());
                }
                let v = values[index].copy();
                ordered.push(v);
                proof {
                    ix = ix.push(index as int);
                }
                assert(ordered@ =~= pick(values@, ix));
            },
            None => {
                proof {
                    lemma_resolve_insert_error_persists(tc, ic, i + 1);
                }
                return Err(ExecError::MissingColumn(table_columns[i].clone()));
            },
        }
        i = i + 1;
    }
    assert(tc.take(table_columns.len() as int) =~= tc);
    Ok(ordered)
}


/// `LIMIT l OFFSET o` skips the first `o` rows and keeps at most `l` of the
/// rest, in order: the result holds `min(l, max(0, n - o))` rows (all the
/// rest when there is no limit), and its row `k` is input row `o + k`.
pub proof fn law_limit_keeps_a_window(input: RowSetView, limit: Option<u64>, offset: Option<u64>)
    ensures
        ({
            let out = limit_spec(input, limit, offset);
            let n = input.rows.len() as int;
            let o: int = match offset {
                Some(o) => o as int,
                None => 0,
            };
            let rest: int = if o < n { n - o } else { 0 };
            &&& out.columns == input.columns
            &&& out.rows.len() == match limit {
                Some(l) => if (l as int) < rest { l as int } else { rest },
                None => rest,
            }
            &&& forall|k: int| 0 <= k < out.rows.len() ==> #[trigger] out.rows[k] == input.rows[o + k]
        }),
{
}

} // verus!
