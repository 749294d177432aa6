//! The scans and the join that go through an index: an index finds the
//! rows of its table whose indexed value has a given key, or a key in a
//! range.
use crate::btree::in_range;
use crate::eval::{
    binary_value, column_index, eval_spec, find_column, lemma_column_index, ExecError, Row, StorageError, Value,
};
use crate::exec_ops::{error_view, outcome_of, table_fits, ErrorView, Outcome};
use crate::ir::{strings_view, BinaryOperator, Expr, JoinKind, Literal, SortDirection};
use crate::join::{
    accepts, concat_rows, join_spec, left_pass, matched_rows, null_values, nulls, qualified, qualify_all, right_matched,
    right_pass,
};
use crate::storage::table_rows;
use crate::key::{str_eq, IndexKey, KeyValue};
use crate::row_set::{copy_rows, rows_view, well_formed, RowSet, RowSetView};
use crate::sort::{stable_sort_spec, Order};
use crate::storage::{find_index, find_table, Catalog, CatalogView, TableView};
use vstd::prelude::*;

verus! {

// ---------------------------------------------------------------------------
// Keys of values
// ---------------------------------------------------------------------------
/// The index key of a value: integers, strings and NULL have one; booleans
/// and floats are not indexed.
pub open spec fn value_key(v: Value) -> Option<KeyValue> {
    match v {
        Value::Int(n) => Some(KeyValue::Int(n)),
        Value::String(s) => Some(KeyValue::Str(s@)),
        Value::Null => Some(KeyValue::Null),
        _ => None,
    }
}

/// The index key a literal denotes, as `value_key` does for its value.
pub open spec fn literal_key(l: Literal) -> Option<KeyValue> {
    match l {
        Literal::Int(n) => Some(KeyValue::Int(n)),
        Literal::String(s) => Some(KeyValue::Str(s@)),
        Literal::Null => Some(KeyValue::Null),
        _ => None,
    }
}

pub fn value_to_index_key(v: &Value) -> (k: Option<IndexKey>)
    ensures
        match k {
            Some(key) => value_key(*v) == Some(key@),
            None => value_key(*v) is None,
        },
{
    match v {
        Value::Int(n) => Some(IndexKey::Int(*n)),
        Value::String(s) => Some(IndexKey::String(s.clone())),
        Value::Null => Some(IndexKey::Null),
        _ => None,
    }
}

pub fn literal_to_index_key(literal: &Literal) -> (k: Option<IndexKey>)
    ensures
        match k {
            Some(key) => literal_key(*literal) == Some(key@),
            None => literal_key(*literal) is None,
        },
{
    match literal {
        Literal::Int(n) => Some(IndexKey::Int(*n)),
        Literal::String(s) => Some(IndexKey::String(s.clone())),
        Literal::Null => Some(IndexKey::Null),
        Literal::Bool(_) | Literal::Float(_) => None,
    }
}

/// The key of a row's value at position `c`, if the row has one there.
pub open spec fn row_key(row: Seq<Value>, c: int) -> Option<KeyValue> {
    if 0 <= c < row.len() {
        value_key(row[c])
    } else {
        None
    }
}

fn row_key_exec(row: &Row, c: Option<usize>) -> (k: Option<IndexKey>)
    ensures
        match k {
            Some(key) => c is Some && row_key(row@, c->Some_0 as int) == Some(key@),
            None => c is None || row_key(row@, c->Some_0 as int) is None,
        },
{
    match c {
        None => None,
        Some(i) => if i < row.values().len() {
            value_to_index_key(&row.values()[i])
        } else {
            None
        },
    }
}

pub open spec fn position_of(c: Option<usize>) -> int {
    match c {
        Some(i) => i as int,
        None => -1,
    }
}

/// The rows whose key at position `c` is `key`, in order.
pub open spec fn keyed_rows(rows: Seq<Seq<Value>>, c: int, key: KeyValue) -> Seq<Seq<Value>>
    decreases rows.len(),
{
    if rows.len() == 0 {
        Seq::empty()
    } else {
        let r = keyed_rows(rows.drop_last(), c, key);
        if row_key(rows.last(), c) == Some(key) {
            r.push(rows.last())
        } else {
            r
        }
    }
}

/// The rows whose key at position `c` lies within the bounds, in order.
pub open spec fn ranged_rows(
    rows: Seq<Seq<Value>>,
    c: int,
    lower: Option<(KeyValue, bool)>,
    upper: Option<(KeyValue, bool)>,
) -> Seq<Seq<Value>>
    decreases rows.len(),
{
    if rows.len() == 0 {
        Seq::empty()
    } else {
        let r = ranged_rows(rows.drop_last(), c, lower, upper);
        match row_key(rows.last(), c) {
            Some(k) => if in_range(k, lower, upper) {
                r.push(rows.last())
            } else {
                r
            },
            None => r,
        }
    }
}

fn keys_equal(a: &IndexKey, b: &IndexKey) -> (r: bool)
    ensures
        r == (a@ == b@),
{
    a.equals(b)
}

fn rows_with_key(rows: &[Row], c: Option<usize>, key: &IndexKey) -> (out: Vec<Row>)
    ensures
        rows_view(out@) == keyed_rows(rows_view(rows@), position_of(c), key@),
{
    let ghost rv = rows_view(rows@);
    let mut out: Vec<Row> = Vec::new();
    let mut j: usize = 0;
    assert(rv.take(0) =~= Seq::<Seq<Value>>::empty());
    assert(rows_view(out@) =~= Seq::<Seq<Value>>::empty());
    while j < rows.len()
        invariant
            j <= rows@.len(),
            rv == rows_view(rows@),
            rows_view(out@) == keyed_rows(rv.take(j as int), position_of(c), key@),
        decreases rows.len() - j,
    {
        proof {
            assert(rv.take(j + 1).drop_last() =~= rv.take(j as int));
            assert(rv.take(j + 1).last() == rv[j as int]);
            assert(rv[j as int] == rows@[j as int]@);
        }
        let k = row_key_exec(&rows[j], c);
        let hit = match &k {
            Some(x) => keys_equal(x, key),
            None => false,
        };
        if hit {
            let ghost before = rows_view(out@);
            out.push(rows[j].copy());
            assert(rows_view(out@) =~= before.push(rv[j as int]));
        }
        j = j + 1;
    }
    assert(rv.take(rows.len() as int) =~= rv);
    out
}

// ---------------------------------------------------------------------------
// Index scans
// ---------------------------------------------------------------------------
/// The position, in a table's columns, of the column an index covers.
pub open spec fn index_column(c: CatalogView, x: int, t: TableView) -> int {
    column_index(t.columns, c.indexes[x].column)
}

/// An equality scan: the key must be one an index holds, the index and the
/// table must exist (checked in that order); the rows of the table whose
/// indexed value has the key come back in table order.
pub open spec fn indexscan_spec(c: CatalogView, table: String, index_name: String, key: Literal) -> Outcome {
    match literal_key(key) {
        None => Err(ErrorView::TypeMismatch),
        Some(kv) => {
            let x = find_index(c.indexes, index_name@);
            let k = find_table(c.tables, table@);
            if x < 0 {
                Err(ErrorView::Storage(StorageError::IndexNotFound(index_name)))
            } else if k < 0 {
                Err(ErrorView::Storage(StorageError::TableNotFound(table)))
            } else {
                let t = c.tables[k];
                Ok(RowSetView { columns: t.columns, rows: keyed_rows(t.rows, index_column(c, x, t), kv) })
            }
        },
    }
}

pub open spec fn outcome_matches(r: Result<RowSet, ExecError>, o: Outcome) -> bool {
    match (r, o) {
        (Ok(s), Ok(v)) => s@ == v,
        (Err(e), Err(f)) => error_view(e) == f,
        _ => false,
    }
}

fn index_column_position(catalog: &Catalog, x: usize, k: usize) -> (c: Option<usize>)
    requires
        x < catalog@.indexes.len(),
        k < catalog@.tables.len(),
    ensures
        position_of(c) == index_column(catalog@, x as int, catalog@.tables[k as int]),
{
    let names = catalog.table_column_names(k);
    let (_, column) = catalog.index_target(x);
    proof {
        lemma_column_index(strings_view(names@), column@);
    }
    find_column(names.as_slice(), column)
}

pub fn indexscan(catalog: &Catalog, table: &String, index_name: &String, key: &Literal) -> (r: Result<RowSet, ExecError>)
    ensures
        outcome_matches(r, indexscan_spec(catalog@, *table, *index_name, *key)),
{
    let index_key = match literal_to_index_key(key) {
        Some(k) => k,
        None => return Err(ExecError::TypeMismatch),
    };
    let x = match catalog.index_position(index_name) {
        Some(x) => x,
        None => return Err(ExecError::Storage(StorageError::IndexNotFound(index_name.clone()))),
    };
    let k = match catalog.table_position(table) {
        Some(k) => k,
        None => return Err(ExecError::Storage(StorageError::TableNotFound(table.clone()))),
    };
    let c = index_column_position(catalog, x, k);
    let columns = catalog.table_column_names(k);
    let rows = rows_with_key(catalog.table_row_slice(k), c, &index_key);
    Ok(RowSet::new(columns, rows))
}

pub open spec fn bound_key(b: Option<(Literal, bool)>) -> Result<Option<(KeyValue, bool)>, ()> {
    match b {
        None => Ok(None),
        Some((l, inclusive)) => match literal_key(l) {
            None => Err(()),
            Some(k) => Ok(Some((k, inclusive))),
        },
    }
}

/// A range scan: both bounds must be keys an index holds (the lower one is
/// checked first), then the index and the table must exist; the rows whose
/// indexed value lies within the bounds come back in key order, rows with
/// equal keys in table order.
pub open spec fn rangeindexscan_spec(
    c: CatalogView,
    table: String,
    index_name: String,
    lower: Option<(Literal, bool)>,
    upper: Option<(Literal, bool)>,
) -> Outcome {
    match (bound_key(lower), bound_key(upper)) {
        (Err(_), _) => Err(ErrorView::TypeMismatch),
        (_, Err(_)) => Err(ErrorView::TypeMismatch),
        (Ok(lo), Ok(hi)) => {
            let x = find_index(c.indexes, index_name@);
            let k = find_table(c.tables, table@);
            if x < 0 {
                Err(ErrorView::Storage(StorageError::IndexNotFound(index_name)))
            } else if k < 0 {
                Err(ErrorView::Storage(StorageError::TableNotFound(table)))
            } else {
                let t = c.tables[k];
                let col = index_column(c, x, t);
                Ok(
                    RowSetView {
                        columns: t.columns,
                        rows: if col < 0 {
                            Seq::empty()
                        } else {
                            stable_sort_spec(ranged_rows(t.rows, col, lo, hi), seq![(col, SortDirection::Asc)])
                        },
                    },
                )
            }
        },
    }
}

fn bound_to_key(b: &Option<(Literal, bool)>) -> (r: Result<Option<(IndexKey, bool)>, ()>)
    ensures
        match (r, bound_key(*b)) {
            (Ok(Some((k, i))), Ok(Some((kv, j)))) => k@ == kv && i == j,
            (Ok(None), Ok(None)) => true,
            (Err(_), Err(_)) => true,
            _ => false,
        },
{
    match b {
        None => Ok(None),
        Some((l, inclusive)) => match literal_to_index_key(l) {
            None => Err(()),
            Some(k) => Ok(Some((k, *inclusive))),
        },
    }
}

pub open spec fn key_bound_view(b: Option<(IndexKey, bool)>) -> Option<(KeyValue, bool)> {
    match b {
        Some((k, i)) => Some((k@, i)),
        None => None,
    }
}

fn rows_in_range(
    rows: &[Row],
    c: Option<usize>,
    lower: &Option<(IndexKey, bool)>,
    upper: &Option<(IndexKey, bool)>,
) -> (out: Vec<Row>)
    ensures
        rows_view(out@) == ranged_rows(rows_view(rows@), position_of(c), key_bound_view(*lower), key_bound_view(*upper)),
{
    let ghost rv = rows_view(rows@);
    let ghost lo = key_bound_view(*lower);
    let ghost hi = key_bound_view(*upper);
    let mut out: Vec<Row> = Vec::new();
    let mut j: usize = 0;
    assert(rv.take(0) =~= Seq::<Seq<Value>>::empty());
    assert(rows_view(out@) =~= Seq::<Seq<Value>>::empty());
    while j < rows.len()
        invariant
            j <= rows@.len(),
            rv == rows_view(rows@),
            lo == key_bound_view(*lower),
            hi == key_bound_view(*upper),
            rows_view(out@) == ranged_rows(rv.take(j as int), position_of(c), lo, hi),
        decreases rows.len() - j,
    {
        proof {
            assert(rv.take(j + 1).drop_last() =~= rv.take(j as int));
            assert(rv.take(j + 1).last() == rv[j as int]);
            assert(rv[j as int] == rows@[j as int]@);
        }
        let k = row_key_exec(&rows[j], c);
        let hit = match &k {
            Some(x) => {
                let lower_ref = match lower {
                    Some((b, i)) => Some((b, *i)),
                    None => None,
                };
                let upper_ref = match upper {
                    Some((b, i)) => Some((b, *i)),
                    None => None,
                };
                crate::btree::key_in_range(x, &lower_ref, &upper_ref)
            },
            None => false,
        };
        if hit {
            let ghost before = rows_view(out@);
            out.push(rows[j].copy());
            assert(rows_view(out@) =~= before.push(rv[j as int]));
        }
        j = j + 1;
    }
    assert(rv.take(rows.len() as int) =~= rv);
    out
}

proof fn lemma_ranged_rows_from(
    rows: Seq<Seq<Value>>,
    c: int,
    lower: Option<(KeyValue, bool)>,
    upper: Option<(KeyValue, bool)>,
    w: int,
)
    requires
        forall|i: int| 0 <= i < rows.len() ==> (#[trigger] rows[i]).len() == w,
    ensures
        forall|i: int| 0 <= i < ranged_rows(rows, c, lower, upper).len() ==> (#[trigger] ranged_rows(
            rows,
            c,
            lower,
            upper,
        )[i]).len() == w,
    decreases rows.len(),
{
    if rows.len() > 0 {
        assert forall|i: int| 0 <= i < rows.drop_last().len() implies (#[trigger] rows.drop_last()[i]).len() == w by {
            assert(rows.drop_last()[i] == rows[i]);
        }
        lemma_ranged_rows_from(rows.drop_last(), c, lower, upper, w);
        assert(rows.last() == rows[rows.len() - 1]);
        let r = ranged_rows(rows.drop_last(), c, lower, upper);
        let out = ranged_rows(rows, c, lower, upper);
        assert forall|i: int| 0 <= i < out.len() implies (#[trigger] out[i]).len() == w by {
            if i < r.len() {
                assert(out[i] == r[i]);
            } else {
                assert(out[i] == rows.last());
            }
        }
    }
}

/// `None` where the table's rows do not all match its columns.
pub open spec fn rangeindexscan_defined(c: CatalogView, table: String) -> bool {
    let k = find_table(c.tables, table@);
    k >= 0 ==> table_fits(c.tables[k])
}

pub fn rangeindexscan(
    catalog: &Catalog,
    table: &String,
    index_name: &String,
    lower: &Option<(Literal, bool)>,
    upper: &Option<(Literal, bool)>,
) -> (r: Result<RowSet, ExecError>)
    requires
        rangeindexscan_defined(catalog@, *table),
    ensures
        outcome_matches(r, rangeindexscan_spec(catalog@, *table, *index_name, *lower, *upper)),
{
    let lo = match bound_to_key(lower) {
        Ok(b) => b,
        Err(_) => return Err(ExecError::TypeMismatch),
    };
    let hi = match bound_to_key(upper) {
        Ok(b) => b,
        Err(_) => return Err(ExecError::TypeMismatch),
    };
    let x = match catalog.index_position(index_name) {
        Some(x) => x,
        None => return Err(ExecError::Storage(StorageError::IndexNotFound(index_name.clone()))),
    };
    let k = match catalog.table_position(table) {
        Some(k) => k,
        None => return Err(ExecError::Storage(StorageError::TableNotFound(table.clone()))),
    };
    let ghost t = catalog@.tables[k as int];
    let c = index_column_position(catalog, x, k);
    let columns = catalog.table_column_names(k);
    if c.is_none() {
        let empty: Vec<Row> = Vec::new();
        let s = RowSet::new(columns, empty);
        assert(s@.rows =~= Seq::<Seq<Value>>::empty());
        return Ok(s);
    }
    let ranged = rows_in_range(catalog.table_row_slice(k), c, &lo, &hi);
    let ghost col = position_of(c);
    let ghost lov = key_bound_view(lo);
    let ghost hiv = key_bound_view(hi);
    proof {
        lemma_ranged_rows_from(t.rows, col, lov, hiv, t.columns.len() as int);
    }
    let (_, column) = catalog.index_target(x);
    let input = RowSet::new(columns, ranged);
    assert(well_formed(input@));
    let mut keys: Vec<(String, SortDirection)> = Vec::new();
    keys.push((column.clone(), SortDirection::Asc));
    let sorted = crate::sort::sort(&input, keys.as_slice());
    proof {
        let names = keys@.map_values(|o: (String, SortDirection)| o.0);
        assert(names =~= seq![*column]);
        assert(names.drop_last() =~= Seq::<String>::empty());
        assert(names.last() == *column);
        assert(input@.columns == t.columns);
        assert(column@ == catalog@.indexes[x as int].column);
        assert(column_index(input@.columns, column@) == col);
        assert(crate::row_set::resolve_columns(input@.columns, names.drop_last()) == Ok::<Seq<int>, ExecError>(
            Seq::empty(),
        ));
        assert(seq![col] =~= Seq::<int>::empty().push(col));
        assert(crate::row_set::resolve_columns(input@.columns, names) == Ok::<Seq<int>, ExecError>(seq![col]));
        assert(Seq::new(keys@.len(), |j: int| (seq![col][j], keys@[j].1)) =~= seq![(col, SortDirection::Asc)]);
    }
    sorted
}

// ---------------------------------------------------------------------------
// Index nested-loop join
// ---------------------------------------------------------------------------
/// The combined rows of a left row with the right rows whose key at `c`
/// equals the left row's key at `p`, in right order; none when the left
/// value has no key.
pub open spec fn probe_rows(left: Seq<Value>, p: int, rights: Seq<Seq<Value>>, c: int) -> Seq<Seq<Value>> {
    match row_key(left, p) {
        None => Seq::empty(),
        Some(kv) => keyed_rows(rights, c, kv).map_values(|r: Seq<Value>| left + r),
    }
}

/// For each left row: its combined rows, then, when it has none and
/// `pad_left` holds, the left row padded with `right_width` NULLs.
pub open spec fn probe_pass(
    lefts: Seq<Seq<Value>>,
    p: int,
    rights: Seq<Seq<Value>>,
    c: int,
    pad_left: bool,
    right_width: nat,
) -> Seq<Seq<Value>>
    decreases lefts.len(),
{
    if lefts.len() == 0 {
        Seq::empty()
    } else {
        let out = probe_pass(lefts.drop_last(), p, rights, c, pad_left, right_width);
        let ms = probe_rows(lefts.last(), p, rights, c);
        if ms.len() == 0 && pad_left {
            out + ms + seq![lefts.last() + nulls(right_width)]
        } else {
            out + ms
        }
    }
}

/// Whether some left row's key at `p` is the right row's key at `c`.
pub open spec fn probed(lefts: Seq<Seq<Value>>, p: int, r: Seq<Value>, c: int) -> bool {
    exists|i: int| 0 <= i < lefts.len() && #[trigger] row_key(lefts[i], p) is Some && row_key(lefts[i], p) == row_key(r, c)
}

/// The right rows no left row reached, in order, padded on the left.
pub open spec fn unprobed(lefts: Seq<Seq<Value>>, p: int, rights: Seq<Seq<Value>>, c: int, left_width: nat) -> Seq<
    Seq<Value>,
>
    decreases rights.len(),
{
    if rights.len() == 0 {
        Seq::empty()
    } else {
        let rest = unprobed(lefts, p, rights.drop_last(), c, left_width);
        if probed(lefts, p, rights.last(), c) {
            rest
        } else {
            rest.push(nulls(left_width) + rights.last())
        }
    }
}

/// Whether some left row has a key at `p`, so that the index is consulted.
pub open spec fn some_probe(lefts: Seq<Seq<Value>>, p: int) -> bool {
    exists|i: int| 0 <= i < lefts.len() && #[trigger] row_key(lefts[i], p) is Some
}

/// An index nested-loop join: the left join column and the right table must
/// exist; the index is consulted for every left row with a key (and must
/// exist if there is one); otherwise as a nested-loop join on equal keys.
pub open spec fn indexnestedloopjoin_spec(
    c: CatalogView,
    left: RowSetView,
    left_table: Seq<char>,
    right_table_real: String,
    right_table_qualifier: Seq<char>,
    right_index_name: String,
    left_join_column: String,
    kind: JoinKind,
) -> Outcome {
    let p = column_index(left.columns, left_join_column@);
    let k = find_table(c.tables, right_table_real@);
    if p < 0 {
        Err(ErrorView::ColumnNotFound(left_join_column@))
    } else if k < 0 {
        Err(ErrorView::Storage(StorageError::TableNotFound(right_table_real)))
    } else {
        let t = c.tables[k];
        let x = find_index(c.indexes, right_index_name@);
        if x < 0 && some_probe(left.rows, p) {
            Err(ErrorView::Storage(StorageError::IndexNotFound(right_index_name)))
        } else {
            let col = if x < 0 {
                -1
            } else {
                index_column(c, x, t)
            };
            let pad_left = kind == JoinKind::Left || kind == JoinKind::FullOuter;
            let pad_right = kind == JoinKind::Right || kind == JoinKind::FullOuter;
            let out = probe_pass(left.rows, p, t.rows, col, pad_left, t.columns.len());
            Ok(
                RowSetView {
                    columns: qualified(left_table, left.columns) + qualified(right_table_qualifier, t.columns),
                    rows: if pad_right {
                        out + unprobed(left.rows, p, t.rows, col, left.columns.len())
                    } else {
                        out
                    },
                },
            )
        }
    }
}

/// `None` where a row of the left input or of the right table does not
/// match its columns.
pub open spec fn indexnestedloopjoin_defined(c: CatalogView, left: RowSetView, right_table_real: String) -> bool {
    let k = find_table(c.tables, right_table_real@);
    well_formed(left) && (k >= 0 ==> table_fits(c.tables[k]))
}

pub fn indexnestedloopjoin(
    catalog: &Catalog,
    left: &RowSet,
    left_table: &str,
    right_table_real: &String,
    right_table_qualifier: &str,
    right_index_name: &String,
    left_join_column: &String,
    kind: JoinKind,
) -> (r: Result<RowSet, ExecError>)
    requires
        indexnestedloopjoin_defined(catalog@, left@, *right_table_real),
    ensures
        outcome_matches(
            r,
            indexnestedloopjoin_spec(
                catalog@,
                left@,
                left_table@,
                *right_table_real,
                right_table_qualifier@,
                *right_index_name,
                *left_join_column,
                kind,
            ),
        ),
{
    let p = match left.column_index(left_join_column.as_str()) {
        Some(p) => p,
        None => return Err(ExecError::ColumnNotFound(left_join_column.clone())),
    };
    proof {
        lemma_column_index(left@.columns, left_join_column@);
    }
    let k = match catalog.table_position(right_table_real) {
        Some(k) => k,
        None => return Err(ExecError::Storage(StorageError::TableNotFound(right_table_real.clone()))),
    };
    let ghost t = catalog@.tables[k as int];
    let right_names = catalog.table_column_names(k);
    let rrows = catalog.table_row_slice(k);
    let x = catalog.index_position(right_index_name);
    let c: Option<usize> = match x {
        Some(x) => index_column_position(catalog, x, k),
        None => None,
    };
    let ghost col = position_of(c);
    assert(col == (if find_index(catalog@.indexes, right_index_name@) < 0 {
        -1
    } else {
        index_column(catalog@, find_index(catalog@.indexes, right_index_name@), t)
    }));
    let mut columns: Vec<String> = Vec::new();
    qualify_all(left_table, left.columns(), &mut columns);
    qualify_all(right_table_qualifier, right_names.as_slice(), &mut columns);
    assert(strings_view(columns@) =~= qualified(left_table@, left@.columns) + qualified(right_table_qualifier@, t.columns));
    let pad_left = matches!(kind, JoinKind::Left | JoinKind::FullOuter);
    let pad_right = matches!(kind, JoinKind::Right | JoinKind::FullOuter);
    let lrows = left.rows();
    let ghost lefts = left@.rows;
    let ghost rights = t.rows;
    let right_width = right_names.len();
    let left_width = left.columns().len();
    let mut flags: Vec<bool> = Vec::new();
    let mut j: usize = 0;
    while j < rrows.len()
        invariant
            j <= rrows@.len(),
            flags@.len() == j,
            forall|q: int| 0 <= q < j ==> !(#[trigger] flags@[q]),
        decreases rrows.len() - j,
    {
        flags.push(false);
        j = j + 1;
    }
    let mut out: Vec<Row> = Vec::new();
    let mut i: usize = 0;
    assert(lefts.take(0) =~= Seq::<Seq<Value>>::empty());
    assert(rows_view(out@) =~= Seq::<Seq<Value>>::empty());
    while i < lrows.len()
        invariant
            i <= lrows@.len(),
            rows_view(lrows@) == lefts,
            rows_view(rrows@) == rights,
            lefts == left@.rows,
            well_formed(left@),
            p as int == column_index(left@.columns, left_join_column@),
            0 <= p < left@.columns.len(),
            right_width == t.columns.len(),
            pad_left == (kind == JoinKind::Left || kind == JoinKind::FullOuter),
            col == position_of(c),
            x is None ==> col == -1,
            x is None ==> !some_probe(lefts.take(i as int), p as int),
            x is None <==> find_index(catalog@.indexes, right_index_name@) < 0,
            k as int == find_table(catalog@.tables, right_table_real@),
            0 <= k < catalog@.tables.len(),
            t == catalog@.tables[k as int],
            flags@.len() == rights.len(),
            forall|q: int| 0 <= q < rights.len() ==> (#[trigger] flags@[q] <==> probed(lefts.take(i as int), p as int, rights[q], col)),
            rows_view(out@) == probe_pass(lefts.take(i as int), p as int, rights, col, pad_left, right_width as nat),
        decreases lrows.len() - i,
    {
        let ghost l = lefts[i as int];
        assert(l == lrows@[i as int]@);
        assert(l.len() == left@.columns.len());
        let ghost base = rows_view(out@);
        let ghost flags_before = flags@;
        let key = row_key_exec(&lrows[i], Some(p));
        let mut matched_any = false;
        proof {
            assert(lefts.take(i + 1).drop_last() =~= lefts.take(i as int));
            assert(lefts.take(i + 1).last() == l);
        }
        match &key {
            None => {
                assert(probe_rows(l, p as int, rights, col) =~= Seq::<Seq<Value>>::empty());
            },
            Some(kv) => {
                if x.is_none() {
                    proof {
                        assert(lefts[i as int] == l);
                        assert(row_key(lefts[i as int], p as int) is Some);
                    }
                    return Err(ExecError::Storage(StorageError::IndexNotFound(right_index_name.clone())));
                }
                let mut j: usize = 0;
                assert(rights.take(0) =~= Seq::<Seq<Value>>::empty());
                assert(keyed_rows(rights.take(0), col, kv@).map_values(|r: Seq<Value>| l + r) =~= Seq::<Seq<Value>>::empty());
                while j < rrows.len()
                    invariant
                        j <= rrows@.len(),
                        i < lrows@.len(),
                        rows_view(rrows@) == rights,
                        l == lrows@[i as int]@,
                        row_key(l, p as int) == Some(kv@),
                        col == position_of(c),
                        flags@.len() == rights.len(),
                        flags_before.len() == rights.len(),
                        forall|q: int| 0 <= q < j ==> (#[trigger] flags@[q] <==> (flags_before[q] || row_key(rights[q], col) == Some(kv@))),
                        forall|q: int| j <= q < rights.len() ==> #[trigger] flags@[q] == flags_before[q],
                        rows_view(out@) == base + keyed_rows(rights.take(j as int), col, kv@).map_values(|r: Seq<Value>| l + r),
                        matched_any == (keyed_rows(rights.take(j as int), col, kv@).len() > 0),
                    decreases rrows.len() - j,
                {
                    proof {
                        assert(rights.take(j + 1).drop_last() =~= rights.take(j as int));
                        assert(rights.take(j + 1).last() == rights[j as int]);
                        assert(rights[j as int] == rrows@[j as int]@);
                    }
                    let rk = row_key_exec(&rrows[j], c);
                    let hit = match &rk {
                        Some(y) => keys_equal(y, kv),
                        None => false,
                    };
                    let ghost before_keyed = keyed_rows(rights.take(j as int), col, kv@);
                    if hit {
                        let combined = concat_rows(lrows[i].values(), rrows[j].values());
                        let ghost cv = combined@;
                        let ghost before_out = rows_view(out@);
                        out.push(combined);
                        matched_any = true;
                        flags.set(j, true);
                        assert(keyed_rows(rights.take(j + 1), col, kv@) == before_keyed.push(rights[j as int]));
                        assert(rows_view(out@) =~= before_out.push(cv));
                        assert(before_keyed.push(rights[j as int]).map_values(|r: Seq<Value>| l + r) =~= before_keyed.map_values(
                            |r: Seq<Value>| l + r,
                        ).push(l + rights[j as int]));
                    } else {
                        assert(keyed_rows(rights.take(j + 1), col, kv@) == before_keyed);
                    }
                    j = j + 1;
                }
                assert(rights.take(rights.len() as int) =~= rights);
            },
        }
        let ghost ms = probe_rows(l, p as int, rights, col);
        assert(rows_view(out@) == base + ms);
        assert(matched_any == (ms.len() > 0));
        if !matched_any && pad_left {
            let mut padded = crate::eval::copy_values(lrows[i].values());
            let mut extra = null_values(right_width);
            padded.append(&mut extra);
            let ghost pv = padded@;
            assert(pv == l + nulls(right_width as nat));
            let ghost before_out = rows_view(out@);
            out.push(Row::new(padded));
            assert(rows_view(out@) =~= before_out.push(pv));
            assert(rows_view(out@) =~= base + ms + seq![l + nulls(right_width as nat)]);
        }
        proof {
            let lt = lefts.take(i + 1);
            assert forall|q: int| 0 <= q < rights.len() implies (#[trigger] flags@[q] <==> probed(lt, p as int, rights[q], col)) by {
                if flags@[q] {
                    if flags_before[q] {
                        let w = choose|w: int| 0 <= w < i && #[trigger] row_key(lefts.take(i as int)[w], p as int) is Some && row_key(lefts.take(i as int)[w], p as int) == row_key(rights[q], col);
                        assert(lt[w] == lefts.take(i as int)[w]);
                    } else {
                        assert(lt[i as int] == l);
                    }
                }
                if probed(lt, p as int, rights[q], col) {
                    let w = choose|w: int| 0 <= w < lt.len() && #[trigger] row_key(lt[w], p as int) is Some && row_key(lt[w], p as int) == row_key(rights[q], col);
                    if w < i {
                        assert(lefts.take(i as int)[w] == lt[w]);
                    } else {
                        assert(lt[w] == l);
                    }
                }
            }
            if x is None {
                assert(key is None);
                if some_probe(lt, p as int) {
                    let w = choose|w: int| 0 <= w < lt.len() && #[trigger] row_key(lt[w], p as int) is Some;
                    if w < i {
                        assert(lefts.take(i as int)[w] == lt[w]);
                    } else {
                        assert(lt[w] == l);
                    }
                }
            }
        }
        i = i + 1;
    }
    assert(lefts.take(lrows.len() as int) =~= lefts);
    if pad_right {
        let ghost before = rows_view(out@);
        let mut j: usize = 0;
        assert(rights.take(0) =~= Seq::<Seq<Value>>::empty());
        while j < rrows.len()
            invariant
                j <= rrows@.len(),
                rows_view(rrows@) == rights,
                flags@.len() == rights.len(),
                left_width == left@.columns.len(),
                forall|q: int| 0 <= q < rights.len() ==> (#[trigger] flags@[q] <==> probed(lefts, p as int, rights[q], col)),
                rows_view(out@) == before + unprobed(lefts, p as int, rights.take(j as int), col, left_width as nat),
            decreases rrows.len() - j,
        {
            proof {
                assert(rights.take(j + 1).drop_last() =~= rights.take(j as int));
                assert(rights.take(j + 1).last() == rights[j as int]);
                assert(rights[j as int] == rrows@[j as int]@);
            }
            let ghost rest = unprobed(lefts, p as int, rights.take(j as int), col, left_width as nat);
            if !flags[j] {
                let mut padded = null_values(left_width);
                let mut tail = crate::eval::copy_values(rrows[j].values());
                padded.append(&mut tail);
                let ghost pv = padded@;
                assert(pv == nulls(left_width as nat) + rights[j as int]);
                let ghost before_out = rows_view(out@);
                out.push(Row::new(padded));
                assert(rows_view(out@) =~= before_out.push(pv));
                assert(unprobed(lefts, p as int, rights.take(j + 1), col, left_width as nat) == rest.push(pv));
            } else {
                assert(unprobed(lefts, p as int, rights.take(j + 1), col, left_width as nat) == rest);
            }
            j = j + 1;
        }
        assert(rights.take(rights.len() as int) =~= rights);
    }
    Ok(RowSet::new(columns, out))
}


// ---------------------------------------------------------------------------
// The index join and the nested-loop join
// ---------------------------------------------------------------------------
/// The first column named `name` is the one at `i` when it has that name
/// and no column before it does.
proof fn lemma_column_index_at(columns: Seq<Seq<char>>, name: Seq<char>, i: int)
    requires
        0 <= i < columns.len(),
        columns[i] == name,
        forall|j: int| 0 <= j < i ==> #[trigger] columns[j] != name,
    ensures
        column_index(columns, name) == i,
{
    lemma_column_index(columns, name);
    let ci = column_index(columns, name);
    if ci >= 0 && ci < i {
        assert(columns[ci] != name);
    }
}

/// A qualified name determines the name it qualifies.
proof fn lemma_qualified_injective(prefix: Seq<char>, a: Seq<char>, b: Seq<char>)
    requires
        prefix + seq!['.'] + a == prefix + seq!['.'] + b,
    ensures
        a == b,
{
    assert((prefix + seq!['.'] + a).skip(prefix.len() + 1int) =~= a);
    assert((prefix + seq!['.'] + b).skip(prefix.len() + 1int) =~= b);
}

/// The join condition `left.column = right.column` of an index join, over
/// the qualified columns of both sides.
pub open spec fn key_equality(left_name: String, right_name: String) -> Expr {
    Expr::BinaryOp {
        left: Box::new(Expr::Column(left_name)),
        op: BinaryOperator::Eq,
        right: Box::new(Expr::Column(right_name)),
    }
}

/// Where the two names of `key_equality` point in the combined columns.
proof fn lemma_key_columns(
    left_table: Seq<char>,
    lcols: Seq<Seq<char>>,
    left_column: Seq<char>,
    right_qualifier: Seq<char>,
    rcols: Seq<Seq<char>>,
    right_column: Seq<char>,
)
    requires
        column_index(lcols, left_column) >= 0,
        column_index(rcols, right_column) >= 0,
        !qualified(left_table, lcols).contains(right_qualifier + seq!['.'] + right_column),
    ensures
        column_index(qualified(left_table, lcols) + qualified(right_qualifier, rcols), left_table + seq!['.'] + left_column)
            == column_index(lcols, left_column),
        column_index(qualified(left_table, lcols) + qualified(right_qualifier, rcols), right_qualifier + seq!['.'] + right_column)
            == lcols.len() + column_index(rcols, right_column),
{
    let cols = qualified(left_table, lcols) + qualified(right_qualifier, rcols);
    let p = column_index(lcols, left_column);
    let cc = column_index(rcols, right_column);
    lemma_column_index(lcols, left_column);
    lemma_column_index(rcols, right_column);
    let ln = left_table + seq!['.'] + left_column;
    let rn = right_qualifier + seq!['.'] + right_column;
    assert(cols[p] == ln);
    assert forall|j: int| 0 <= j < p implies #[trigger] cols[j] != ln by {
        assert(cols[j] == left_table + seq!['.'] + lcols[j]);
        if cols[j] == ln {
            lemma_qualified_injective(left_table, lcols[j], left_column);
        }
    }
    lemma_column_index_at(cols, ln, p);
    let w = lcols.len() as int;
    assert(cols[w + cc] == rn);
    assert forall|j: int| 0 <= j < w + cc implies #[trigger] cols[j] != rn by {
        if j < w {
            assert(cols[j] == qualified(left_table, lcols)[j]);
        } else {
            assert(cols[j] == right_qualifier + seq!['.'] + rcols[j - w]);
            if cols[j] == rn {
                lemma_qualified_injective(right_qualifier, rcols[j - w], right_column);
            }
        }
    }
    lemma_column_index_at(cols, rn, w + cc);
}

/// The key a left row probes with: an integer or a string.
pub open spec fn probes_with_value(row: Seq<Value>, p: int) -> bool {
    0 <= p < row.len() && (row[p] is Int || row[p] is String)
}

/// On a combined row, the key equality is accepted exactly when the two
/// keys are equal, or it fails.
proof fn lemma_key_equality_accepts(on: Expr, cols: Seq<Seq<char>>, l: Seq<Value>, r: Seq<Value>, p: int, q: int)
    requires
        on matches Expr::BinaryOp { left, op: BinaryOperator::Eq, right } && *left matches Expr::Column(a)
            && *right matches Expr::Column(b) && column_index(cols, a@) == p && column_index(cols, b@) == l.len() + q,
        probes_with_value(l, p),
        0 <= q < r.len(),
    ensures
        accepts(on, cols, l + r) is Ok ==> accepts(on, cols, l + r) == Ok::<bool, ExecError>(row_key(r, q) == row_key(l, p)),
{
    reveal_with_fuel(eval_spec, 2);
    let row = l + r;
    assert(row[p] == l[p]);
    assert(row[l.len() + q] == r[q]);
}


/// The requirements on the key equality that the lemmas below share.
pub open spec fn key_equality_at(on: Expr, cols: Seq<Seq<char>>, p: int, right_at: int) -> bool {
    on matches Expr::BinaryOp { left, op: BinaryOperator::Eq, right } && *left matches Expr::Column(a)
        && *right matches Expr::Column(b) && column_index(cols, a@) == p && column_index(cols, b@) == right_at
}

proof fn lemma_matched_rows_probe(
    on: Expr,
    cols: Seq<Seq<char>>,
    l: Seq<Value>,
    rights: Seq<Seq<Value>>,
    p: int,
    q: int,
)
    requires
        key_equality_at(on, cols, p, l.len() + q),
        probes_with_value(l, p),
        forall|j: int| 0 <= j < rights.len() ==> 0 <= q < (#[trigger] rights[j]).len(),
        matched_rows(on, cols, l, rights) is Ok,
    ensures
        matched_rows(on, cols, l, rights) == Ok::<Seq<Seq<Value>>, ExecError>(probe_rows(l, p, rights, q)),
        forall|j: int| 0 <= j < rights.len() ==> #[trigger] accepts(on, cols, l + rights[j]) is Ok,
    decreases rights.len(),
{
    if rights.len() == 0 {
        assert(probe_rows(l, p, rights, q) =~= Seq::<Seq<Value>>::empty());
    } else {
        let init = rights.drop_last();
        let r = rights.last();
        assert(matched_rows(on, cols, l, init) is Ok);
        assert forall|j: int| 0 <= j < init.len() implies 0 <= q < (#[trigger] init[j]).len() by {
            assert(init[j] == rights[j]);
        }
        lemma_matched_rows_probe(on, cols, l, init, p, q);
        assert(0 <= q < rights[rights.len() - 1].len());
        lemma_key_equality_accepts(on, cols, l, r, p, q);
        let kv = row_key(l, p)->0;
        assert(row_key(l, p) == Some(kv));
        assert(accepts(on, cols, l + r) is Ok);
        assert(accepts(on, cols, l + r) == Ok::<bool, ExecError>(row_key(r, q) == Some(kv)));
        if row_key(r, q) == Some(kv) {
            assert(keyed_rows(rights, q, kv) == keyed_rows(init, q, kv).push(r));
            assert(probe_rows(l, p, rights, q) =~= probe_rows(l, p, init, q).push(l + r));
        } else {
            assert(keyed_rows(rights, q, kv) == keyed_rows(init, q, kv));
            assert(probe_rows(l, p, rights, q) =~= probe_rows(l, p, init, q));
        }
        assert forall|j: int| 0 <= j < rights.len() implies #[trigger] accepts(on, cols, l + rights[j]) is Ok by {
            if j < init.len() {
                assert(rights[j] == init[j]);
            }
        }
    }
}

proof fn lemma_left_pass_probe(
    on: Expr,
    cols: Seq<Seq<char>>,
    lefts: Seq<Seq<Value>>,
    rights: Seq<Seq<Value>>,
    p: int,
    q: int,
    lw: nat,
    pad_left: bool,
    right_width: nat,
)
    requires
        key_equality_at(on, cols, p, lw + q),
        forall|i: int| 0 <= i < lefts.len() ==> (#[trigger] lefts[i]).len() == lw && probes_with_value(lefts[i], p),
        forall|j: int| 0 <= j < rights.len() ==> 0 <= q < (#[trigger] rights[j]).len(),
        left_pass(on, cols, lefts, rights, pad_left, right_width) is Ok,
    ensures
        left_pass(on, cols, lefts, rights, pad_left, right_width) == Ok::<Seq<Seq<Value>>, ExecError>(
            probe_pass(lefts, p, rights, q, pad_left, right_width),
        ),
        forall|i: int, j: int|
            0 <= i < lefts.len() && 0 <= j < rights.len() ==> #[trigger] accepts(on, cols, lefts[i] + rights[j]) is Ok,
    decreases lefts.len(),
{
    if lefts.len() > 0 {
        let init = lefts.drop_last();
        let l = lefts.last();
        assert(left_pass(on, cols, init, rights, pad_left, right_width) is Ok);
        assert forall|i: int| 0 <= i < init.len() implies (#[trigger] init[i]).len() == lw && probes_with_value(init[i], p) by {
            assert(init[i] == lefts[i]);
        }
        lemma_left_pass_probe(on, cols, init, rights, p, q, lw, pad_left, right_width);
        assert(l == lefts[lefts.len() - 1]);
        assert(matched_rows(on, cols, l, rights) is Ok);
        lemma_matched_rows_probe(on, cols, l, rights, p, q);
        assert forall|i: int, j: int|
            0 <= i < lefts.len() && 0 <= j < rights.len() implies #[trigger] accepts(on, cols, lefts[i] + rights[j]) is Ok by {
            if i < init.len() {
                assert(lefts[i] == init[i]);
            }
        }
    }
}

proof fn lemma_right_pass_unprobed(
    on: Expr,
    cols: Seq<Seq<char>>,
    lefts: Seq<Seq<Value>>,
    rights: Seq<Seq<Value>>,
    p: int,
    q: int,
    lw: nat,
)
    requires
        key_equality_at(on, cols, p, lw + q),
        forall|i: int| 0 <= i < lefts.len() ==> (#[trigger] lefts[i]).len() == lw && probes_with_value(lefts[i], p),
        forall|j: int| 0 <= j < rights.len() ==> 0 <= q < (#[trigger] rights[j]).len(),
        forall|i: int, j: int|
            0 <= i < lefts.len() && 0 <= j < rights.len() ==> #[trigger] accepts(on, cols, lefts[i] + rights[j]) is Ok,
    ensures
        right_pass(on, cols, lefts, rights, lw) == unprobed(lefts, p, rights, q, lw),
    decreases rights.len(),
{
    if rights.len() > 0 {
        let init = rights.drop_last();
        let r = rights.last();
        assert forall|j: int| 0 <= j < init.len() implies 0 <= q < (#[trigger] init[j]).len() by {
            assert(init[j] == rights[j]);
        }
        assert forall|i: int, j: int|
            0 <= i < lefts.len() && 0 <= j < init.len() implies #[trigger] accepts(on, cols, lefts[i] + init[j]) is Ok by {
            assert(init[j] == rights[j]);
        }
        lemma_right_pass_unprobed(on, cols, lefts, init, p, q, lw);
        assert(r == rights[rights.len() - 1]);
        if right_matched(on, cols, lefts, r) {
            let i = choose|i: int|
                0 <= i < lefts.len() && #[trigger] accepts(on, cols, lefts[i] + r) == Ok::<bool, ExecError>(true);
            lemma_key_equality_accepts(on, cols, lefts[i], r, p, q);
            assert(row_key(lefts[i], p) is Some);
        }
        if probed(lefts, p, r, q) {
            let i = choose|i: int|
                0 <= i < lefts.len() && #[trigger] row_key(lefts[i], p) is Some && row_key(lefts[i], p) == row_key(r, q);
            lemma_key_equality_accepts(on, cols, lefts[i], r, p, q);
            assert(accepts(on, cols, lefts[i] + rights[rights.len() - 1]) is Ok);
            assert(accepts(on, cols, lefts[i] + r) == Ok::<bool, ExecError>(true));
        }
    }
}

/// An index join returns what the nested-loop join it stands for returns.
/// Take a right table with an index over one of its columns, and the join
/// condition `left_table.left_join_column = right_qualifier.column` over the
/// qualified columns of both sides (where no left column is qualified to
/// the right name). When every left row's join value is an integer or a
/// string, and the nested-loop join succeeds, the index join gives the same
/// columns and the same rows in the same order, for every join kind.
pub proof fn law_index_join_matches_nested_loop_join(
    c: CatalogView,
    left: RowSetView,
    left_table: Seq<char>,
    right_table_real: String,
    right_qualifier: Seq<char>,
    right_index_name: String,
    left_join_column: String,
    left_name: String,
    right_name: String,
    kind: JoinKind,
)
    requires
        well_formed(left),
        find_table(c.tables, right_table_real@) >= 0,
        table_fits(c.tables[find_table(c.tables, right_table_real@)]),
        find_index(c.indexes, right_index_name@) >= 0,
        column_index(
            c.tables[find_table(c.tables, right_table_real@)].columns,
            c.indexes[find_index(c.indexes, right_index_name@)].column,
        ) >= 0,
        column_index(left.columns, left_join_column@) >= 0,
        left_name@ == left_table + seq!['.'] + left_join_column@,
        right_name@ == right_qualifier + seq!['.'] + c.indexes[find_index(c.indexes, right_index_name@)].column,
        !qualified(left_table, left.columns).contains(right_name@),
        forall|i: int|
            0 <= i < left.rows.len() ==> probes_with_value(
                #[trigger] left.rows[i],
                column_index(left.columns, left_join_column@),
            ),
        join_spec(
            left,
            table_rows(c.tables[find_table(c.tables, right_table_real@)]),
            left_table,
            right_qualifier,
            key_equality(left_name, right_name),
            kind,
        ) is Ok,
    ensures
        indexnestedloopjoin_spec(
            c,
            left,
            left_table,
            right_table_real,
            right_qualifier,
            right_index_name,
            left_join_column,
            kind,
        ) == outcome_of(
            join_spec(
                left,
                table_rows(c.tables[find_table(c.tables, right_table_real@)]),
                left_table,
                right_qualifier,
                key_equality(left_name, right_name),
                kind,
            ),
        ),
{
    let k = find_table(c.tables, right_table_real@);
    let t = c.tables[k];
    let x = find_index(c.indexes, right_index_name@);
    let column = c.indexes[x].column;
    let p = column_index(left.columns, left_join_column@);
    let q = index_column(c, x, t);
    let lw = left.columns.len();
    let cols = qualified(left_table, left.columns) + qualified(right_qualifier, t.columns);
    let on = key_equality(left_name, right_name);
    lemma_key_columns(left_table, left.columns, left_join_column@, right_qualifier, t.columns, column);
    assert(key_equality_at(on, cols, p, lw + q));
    assert forall|i: int| 0 <= i < left.rows.len() implies (#[trigger] left.rows[i]).len() == lw && probes_with_value(
        left.rows[i],
        p,
    ) by {}
    lemma_column_index(t.columns, column);
    assert forall|j: int| 0 <= j < t.rows.len() implies 0 <= q < (#[trigger] t.rows[j]).len() by {}
    let pad_left = kind == JoinKind::Left || kind == JoinKind::FullOuter;
    assert(left_pass(on, cols, left.rows, t.rows, pad_left, t.columns.len()) is Ok);
    lemma_left_pass_probe(on, cols, left.rows, t.rows, p, q, lw, pad_left, t.columns.len());
    lemma_right_pass_unprobed(on, cols, left.rows, t.rows, p, q, lw);
}

} // verus!
