//! Aggregation: rows grouped by the values of the grouping columns, and
//! `COUNT`, `SUM`, `AVG`, `MIN`, `MAX` computed per group.
use crate::eval::{column_index, find_column, lemma_column_index, ExecError, Row, Value};
use crate::float::{float_eq, float_equals, float_less, float_lt};
use crate::ir::{strings_view, AggFunc, AggregateExpr};
use crate::key::{lemma_seq_lt_irreflexive, lemma_seq_lt_total, lemma_seq_lt_transitive, seq_lt, str_eq, str_lt};
use crate::row_set::{
    copy_names, lemma_resolve_bounds, pick, pick_values, resolve, resolve_columns, rows_view, well_formed, RowSet,
    RowSetView,
};
use vstd::prelude::*;

verus! {

// ---------------------------------------------------------------------------
// Value equality, as rows compare when they are grouped
// ---------------------------------------------------------------------------
/// Equality of values: same type and equal contents, floats by `f64`
/// equality (NaN equals nothing).
pub open spec fn value_eq(a: Value, b: Value) -> bool {
    match (a, b) {
        (Value::Int(x), Value::Int(y)) => x == y,
        (Value::Bool(x), Value::Bool(y)) => x == y,
        (Value::String(x), Value::String(y)) => x@ == y@,
        (Value::Float(x), Value::Float(y)) => float_eq(x, y),
        (Value::Null, Value::Null) => true,
        _ => false,
    }
}

pub open spec fn values_eq(a: Seq<Value>, b: Seq<Value>) -> bool {
    a.len() == b.len() && forall|i: int| 0 <= i < a.len() ==> #[trigger] value_eq(a[i], b[i])
}

pub fn value_equals(a: &Value, b: &Value) -> (r: bool)
    ensures
        r == value_eq(*a, *b),
{
    match (a, b) {
        (Value::Int(x), Value::Int(y)) => *x == *y,
        (Value::Bool(x), Value::Bool(y)) => *x == *y,
        (Value::String(x), Value::String(y)) => str_eq(x, y),
        (Value::Float(x), Value::Float(y)) => float_equals(*x, *y),
        (Value::Null, Value::Null) => true,
        _ => false,
    }
}

fn values_equal(a: &[Value], b: &[Value]) -> (r: bool)
    ensures
        r == values_eq(a@, b@),
{
    if a.len() != b.len() {
        return false;
    }
    let mut i: usize = 0;
    while i < a.len()
        invariant
            i <= a@.len(),
            a@.len() == b@.len(),
            forall|k: int| 0 <= k < i ==> #[trigger] value_eq(a@[k], b@[k]),
        decreases a.len() - i,
    {
        if !value_equals(&a[i], &b[i]) {
            return false;
        }
        i = i + 1;
    }
    true
}

// ---------------------------------------------------------------------------
// Groups
// ---------------------------------------------------------------------------
/// A group: its key (the values of the grouping columns) and its rows.
pub type Group = (Seq<Value>, Seq<Seq<Value>>);

/// The first group whose key equals `key`, or `-1`.
pub open spec fn find_group(groups: Seq<Group>, key: Seq<Value>) -> int
    decreases groups.len(),
{
    if groups.len() == 0 {
        -1
    } else if values_eq(groups.last().0, key) && find_group(groups.drop_last(), key) < 0 {
        groups.len() - 1
    } else {
        find_group(groups.drop_last(), key)
    }
}

proof fn lemma_find_group(groups: Seq<Group>, key: Seq<Value>)
    ensures
        -1 <= find_group(groups, key) < groups.len(),
        find_group(groups, key) >= 0 ==> values_eq(groups[find_group(groups, key)].0, key),
        find_group(groups, key) >= 0 ==> forall|k: int| 0 <= k < find_group(groups, key) ==> !values_eq(#[trigger] groups[k].0, key),
        find_group(groups, key) < 0 ==> forall|k: int| 0 <= k < groups.len() ==> !values_eq(#[trigger] groups[k].0, key),
    decreases groups.len(),
{
    if groups.len() > 0 {
        lemma_find_group(groups.drop_last(), key);
        assert forall|k: int| 0 <= k < groups.len() - 1 implies #[trigger] groups.drop_last()[k] == groups[k] by {}
        let f = find_group(groups, key);
        if f >= 0 {
            assert forall|k: int| 0 <= k < f implies !values_eq(#[trigger] groups[k].0, key) by {
                assert(groups.drop_last()[k] == groups[k]);
            }
        } else {
            assert forall|k: int| 0 <= k < groups.len() implies !values_eq(#[trigger] groups[k].0, key) by {
                if k < groups.len() - 1 {
                    assert(groups.drop_last()[k] == groups[k]);
                }
            }
        }
    }
}

/// The rows grouped by their key, groups in order of their first row and
/// rows in order within a group.
pub open spec fn group_rows(rows: Seq<Seq<Value>>, key_columns: Seq<int>) -> Seq<Group>
    decreases rows.len(),
{
    if rows.len() == 0 {
        Seq::empty()
    } else {
        let groups = group_rows(rows.drop_last(), key_columns);
        let key = pick(rows.last(), key_columns);
        let k = find_group(groups, key);
        if k < 0 {
            groups.push((key, seq![rows.last()]))
        } else {
            groups.update(k, (groups[k].0, groups[k].1.push(rows.last())))
        }
    }
}

/// The groups, and one empty group when nothing is grouped and there are
/// no rows (`COUNT(*)` of an empty table is one row).
pub open spec fn groups_spec(rows: Seq<Seq<Value>>, key_columns: Seq<int>) -> Seq<Group> {
    let groups = group_rows(rows, key_columns);
    if key_columns.len() == 0 && groups.len() == 0 {
        seq![(Seq::empty(), Seq::empty())]
    } else {
        groups
    }
}

// ---------------------------------------------------------------------------
// Aggregate functions
// ---------------------------------------------------------------------------
/// An aggregate result: `None` where an integer sum overflows.
pub type Computed = Option<Result<Value, ExecError>>;

/// The non-NULL values of column `i`, in row order.
pub open spec fn non_null_spec(i: int, rows: Seq<Seq<Value>>) -> Seq<Value>
    decreases rows.len(),
{
    if rows.len() == 0 {
        Seq::empty()
    } else if rows.last()[i] is Null {
        non_null_spec(i, rows.drop_last())
    } else {
        non_null_spec(i, rows.drop_last()).push(rows.last()[i])
    }
}

pub open spec fn all_int(values: Seq<Value>) -> bool {
    forall|k: int| 0 <= k < values.len() ==> #[trigger] values[k] is Int
}

pub open spec fn all_numeric(values: Seq<Value>) -> bool {
    forall|k: int| 0 <= k < values.len() ==> (#[trigger] values[k] is Int || values[k] is Float)
}

/// The sum of integer values, adding left to right; `None` where a partial
/// sum leaves `i64`.
pub open spec fn int_sum(values: Seq<Value>) -> Option<int>
    decreases values.len(),
{
    if values.len() == 0 {
        Some(0)
    } else {
        match int_sum(values.drop_last()) {
            None => None,
            Some(s) => {
                let t = s + values.last()->Int_0;
                if i64::MIN <= t <= i64::MAX {
                    Some(t)
                } else {
                    None
                }
            },
        }
    }
}

/// `SUM` of non-NULL values: an integer sum when all are integers; a
/// floating-point sum otherwise, which this library does not compute; a
/// type error when some value is not a number.
pub open spec fn sum_spec(values: Seq<Value>) -> Computed {
    if all_int(values) {
        match int_sum(values) {
            Some(s) => Some(Ok(Value::Int(s as i64))),
            None => None,
        }
    } else if all_numeric(values) {
        Some(Err(ExecError::FloatArithmetic))
    } else {
        Some(Err(ExecError::TypeMismatch))
    }
}

/// Whether `v` beats `best` for `MIN` (or `MAX` when `want_max`); only
/// integers, floats and strings compare, each with its own type.
pub open spec fn better_spec(v: Value, best: Value, want_max: bool) -> Result<bool, ExecError> {
    match (v, best) {
        (Value::Int(a), Value::Int(b)) => Ok(if want_max {
            a > b
        } else {
            a < b
        }),
        (Value::Float(a), Value::Float(b)) => Ok(if want_max {
            float_lt(b, a)
        } else {
            float_lt(a, b)
        }),
        (Value::String(a), Value::String(b)) => Ok(if want_max {
            seq_lt(b@, a@)
        } else {
            seq_lt(a@, b@)
        }),
        _ => Err(ExecError::TypeMismatch),
    }
}

/// The first value that no later value beats, scanning left to right.
pub open spec fn extremum_spec(values: Seq<Value>, want_max: bool) -> Result<Value, ExecError>
    recommends
        values.len() > 0,
    decreases values.len(),
{
    if values.len() <= 1 {
        Ok(values[0])
    } else {
        match extremum_spec(values.drop_last(), want_max) {
            Err(e) => Err(e),
            Ok(best) => match better_spec(values.last(), best, want_max) {
                Err(e) => Err(e),
                Ok(true) => Ok(values.last()),
                Ok(false) => Ok(best),
            },
        }
    }
}

pub open spec fn count_non_null(i: int, rows: Seq<Seq<Value>>) -> int {
    non_null_spec(i, rows).len() as int
}

/// One aggregate over the rows of a group. `COUNT` counts rows (or the
/// non-NULL values of its column); the others read the non-NULL values of
/// their column and are NULL when there are none. `AVG` divides a
/// floating-point sum, which this library does not compute.
pub open spec fn compute_spec(func: AggFunc, column: Option<int>, rows: Seq<Seq<Value>>) -> Computed {
    match func {
        AggFunc::Count => match column {
            None => Some(Ok(Value::Int(rows.len() as i64))),
            Some(i) => Some(Ok(Value::Int(count_non_null(i, rows) as i64))),
        },
        _ => {
            let i = column->Some_0;
            let values = non_null_spec(i, rows);
            if values.len() == 0 {
                Some(Ok(Value::Null))
            } else {
                match func {
                    AggFunc::Sum => sum_spec(values),
                    AggFunc::Avg => match sum_spec(values) {
                        Some(Ok(_)) => Some(Err(ExecError::FloatArithmetic)),
                        other => other,
                    },
                    AggFunc::Min => Some(extremum_spec(values, false)),
                    _ => Some(extremum_spec(values, true)),
                }
            }
        },
    }
}

// ---------------------------------------------------------------------------
// The aggregate operator
// ---------------------------------------------------------------------------
/// The input column each aggregate reads, or the first that is missing.
pub open spec fn agg_columns_spec(columns: Seq<Seq<char>>, aggs: Seq<AggregateExpr>) -> Result<Seq<Option<int>>, ExecError>
    decreases aggs.len(),
{
    if aggs.len() == 0 {
        Ok(Seq::empty())
    } else {
        match agg_columns_spec(columns, aggs.drop_last()) {
            Err(e) => Err(e),
            Ok(ix) => match aggs.last().column {
                None => Ok(ix.push(None)),
                Some(c) => {
                    let i = column_index(columns, c@);
                    if i < 0 {
                        Err(ExecError::ColumnNotFound(c))
                    } else {
                        Ok(ix.push(Some(i)))
                    }
                },
            },
        }
    }
}

/// The aggregates of one group, in order, or the first error.
pub open spec fn group_values(aggs: Seq<AggregateExpr>, columns: Seq<Option<int>>, rows: Seq<Seq<Value>>) -> Option<
    Result<Seq<Value>, ExecError>,
>
    decreases aggs.len(),
{
    if aggs.len() == 0 {
        Some(Ok(Seq::empty()))
    } else {
        match group_values(aggs.drop_last(), columns, rows) {
            Some(Ok(vs)) => match compute_spec(aggs.last().func, columns[aggs.len() - 1], rows) {
                Some(Ok(v)) => Some(Ok(vs.push(v))),
                Some(Err(e)) => Some(Err(e)),
                None => None,
            },
            other => other,
        }
    }
}

/// One output row per group: its key, then its aggregates.
pub open spec fn output_rows(groups: Seq<Group>, aggs: Seq<AggregateExpr>, columns: Seq<Option<int>>) -> Option<
    Result<Seq<Seq<Value>>, ExecError>,
>
    decreases groups.len(),
{
    if groups.len() == 0 {
        Some(Ok(Seq::empty()))
    } else {
        match output_rows(groups.drop_last(), aggs, columns) {
            Some(Ok(out)) => match group_values(aggs, columns, groups.last().1) {
                Some(Ok(vs)) => Some(Ok(out.push(groups.last().0 + vs))),
                Some(Err(e)) => Some(Err(e)),
                None => None,
            },
            other => other,
        }
    }
}

pub open spec fn aliases_view(aggs: Seq<AggregateExpr>) -> Seq<Seq<char>> {
    aggs.map_values(|a: AggregateExpr| a.alias@)
}

/// `GROUP BY` and aggregates: the grouping columns must exist (checked
/// first), then the aggregates' columns; the output has the grouping
/// columns then one column per aggregate, named by its alias. `None` where
/// an integer sum overflows.
pub open spec fn aggregate_spec(input: RowSetView, group_by: Seq<String>, aggs: Seq<AggregateExpr>) -> Option<
    Result<RowSetView, ExecError>,
> {
    match resolve_columns(input.columns, group_by) {
        Err(e) => Some(Err(e)),
        Ok(gix) => match agg_columns_spec(input.columns, aggs) {
            Err(e) => Some(Err(e)),
            Ok(aix) => match output_rows(groups_spec(input.rows, gix), aggs, aix) {
                Some(Ok(rows)) => Some(Ok(RowSetView { columns: strings_view(group_by) + aliases_view(aggs), rows })),
                Some(Err(e)) => Some(Err(e)),
                None => None,
            },
        },
    }
}

/// Only `COUNT` may go without a column.
pub open spec fn aggregates_have_columns(aggs: Seq<AggregateExpr>) -> bool {
    forall|k: int| 0 <= k < aggs.len() ==> (#[trigger] aggs[k]).func != AggFunc::Count ==> aggs[k].column is Some
}

// ---------------------------------------------------------------------------
// Executable aggregate functions
// ---------------------------------------------------------------------------
/// Every row has a value at position `i`.
pub open spec fn has_column(rows: Seq<Seq<Value>>, i: int) -> bool {
    forall|k: int| 0 <= k < rows.len() ==> 0 <= i < (#[trigger] rows[k]).len()
}

/// The non-NULL values of column `i`, in row order.
pub fn non_null_values(col_index: usize, rows: &[Row]) -> (values: Vec<Value>)
    requires
        has_column(rows_view(rows@), col_index as int),
    ensures
        values@ == non_null_spec(col_index as int, rows_view(rows@)),
{
    let ghost rv = rows_view(rows@);
    let mut values: Vec<Value> = Vec::new();
    let mut j: usize = 0;
    assert(rv.take(0) =~= Seq::<Seq<Value>>::empty());
    while j < rows.len()
        invariant
            j <= rows@.len(),
            rv == rows_view(rows@),
            has_column(rv, col_index as int),
            values@ == non_null_spec(col_index as int, rv.take(j as int)),
        decreases rows.len() - j,
    {
        proof {
            assert(rv.take(j + 1).drop_last() =~= rv.take(j as int));
            assert(rv.take(j + 1).last() == rv[j as int]);
            assert(rv[j as int] == rows@[j as int]@);
            assert(0 <= col_index < rv[j as int].len());
        }
        let v = &rows[j].values()[col_index];
        if !v.is_null() {
            values.push(v.copy());
        }
        j = j + 1;
    }
    assert(rv.take(rows.len() as int) =~= rv);
    values
}

proof fn lemma_int_sum_prefix(values: Seq<Value>, k: int)
    requires
        0 <= k <= values.len(),
        int_sum(values) is Some,
    ensures
        int_sum(values.take(k)) is Some,
    decreases values.len() - k,
{
    if k < values.len() {
        lemma_int_sum_prefix(values, k + 1);
        assert(values.take(k + 1).drop_last() =~= values.take(k));
    } else {
        assert(values.take(k) =~= values);
    }
}

/// `SUM` of non-NULL values.
pub fn sum_values(values: &[Value]) -> (r: Result<Value, ExecError>)
    requires
        sum_spec(values@) is Some,
    ensures
        Some(r) == sum_spec(values@),
{
    let mut is_int = true;
    let mut k: usize = 0;
    while k < values.len()
        invariant
            k <= values@.len(),
            is_int == forall|j: int| 0 <= j < k ==> #[trigger] values@[j] is Int,
        decreases values.len() - k,
    {
        if !matches!(values[k], Value::Int(_)) {
            is_int = false;
        }
        k = k + 1;
    }
    if is_int {
        let mut total: i64 = 0;
        let mut k: usize = 0;
        assert(values@.take(0) =~= Seq::<Value>::empty());
        while k < values.len()
            invariant
                k <= values@.len(),
                all_int(values@),
                int_sum(values@) is Some,
                int_sum(values@.take(k as int)) == Some(total as int),
            decreases values.len() - k,
        {
            proof {
                lemma_int_sum_prefix(values@, k + 1);
                assert(values@.take(k + 1).drop_last() =~= values@.take(k as int));
                assert(values@.take(k + 1).last() == values@[k as int]);
                assert(values@[k as int] is Int);
            }
            match &values[k] {
                Value::Int(n) => {
                    total = total + *n;
                },
                _ => {},
            }
            k = k + 1;
        }
        assert(values@.take(values.len() as int) =~= values@);
        return Ok(Value::Int(total));
    }
    let mut k: usize = 0;
    while k < values.len()
        invariant
            k <= values@.len(),
            !all_int(values@),
            forall|j: int| 0 <= j < k ==> (#[trigger] values@[j] is Int || values@[j] is Float),
        decreases values.len() - k,
    {
        if !matches!(values[k], Value::Int(_) | Value::Float(_)) {
            return Err(ExecError::TypeMismatch);
        }
        k = k + 1;
    }
    Err(ExecError::FloatArithmetic)
}

fn better(v: &Value, best: &Value, want_max: bool) -> (r: Result<bool, ExecError>)
    ensures
        r == better_spec(*v, *best, want_max),
{
    match (v, best) {
        (Value::Int(a), Value::Int(b)) => Ok(if want_max {
            *a > *b
        } else {
            *a < *b
        }),
        (Value::Float(a), Value::Float(b)) => Ok(if want_max {
            float_less(*b, *a)
        } else {
            float_less(*a, *b)
        }),
        (Value::String(a), Value::String(b)) => Ok(if want_max {
            str_lt(b, a)
        } else {
            str_lt(a, b)
        }),
        _ => Err(ExecError::TypeMismatch),
    }
}

proof fn lemma_extremum_error_persists(values: Seq<Value>, want_max: bool, k: int)
    requires
        1 <= k <= values.len(),
        extremum_spec(values.take(k), want_max) is Err,
    ensures
        extremum_spec(values, want_max) == extremum_spec(values.take(k), want_max),
    decreases values.len() - k,
{
    if k < values.len() {
        assert(values.take(k + 1).drop_last() =~= values.take(k));
        lemma_extremum_error_persists(values, want_max, k + 1);
    } else {
        assert(values.take(k) =~= values);
    }
}

/// `MIN` (or `MAX`) of non-NULL values.
pub fn extremum(values: &[Value], want_max: bool) -> (r: Result<Value, ExecError>)
    requires
        values@.len() > 0,
    ensures
        r == extremum_spec(values@, want_max),
{
    let mut best = values[0].copy();
    let mut k: usize = 1;
    assert(values@.take(1) =~= seq![values@[0]]);
    while k < values.len()
        invariant
            1 <= k <= values@.len(),
            extremum_spec(values@.take(k as int), want_max) == Ok::<Value, ExecError>(best),
        decreases values.len() - k,
    {
        proof {
            assert(values@.take(k + 1).drop_last() =~= values@.take(k as int));
            assert(values@.take(k + 1).last() == values@[k as int]);
        }
        match better(&values[k], &best, want_max) {
            Ok(true) => {
                best = values[k].copy();
            },
            Ok(false) => {},
            Err(e) => {
                proof {
                    lemma_extremum_error_persists(values@, want_max, k + 1);
                }
                return Err(e);
            },
        }
        k = k + 1;
    }
    assert(values@.take(values.len() as int) =~= values@);
    Ok(best)
}

pub open spec fn option_index(i: Option<usize>) -> Option<int> {
    match i {
        Some(n) => Some(n as int),
        None => None,
    }
}

/// One aggregate over the rows of a group.
pub fn compute_aggregate(agg: &AggregateExpr, col_index: Option<usize>, rows: &[Row]) -> (r: Result<Value, ExecError>)
    requires
        agg.func != AggFunc::Count ==> col_index is Some,
        col_index is Some ==> has_column(rows_view(rows@), col_index->Some_0 as int),
        compute_spec(agg.func, option_index(col_index), rows_view(rows@)) is Some,
    ensures
        Some(r) == compute_spec(agg.func, option_index(col_index), rows_view(rows@)),
{
    match agg.func {
        AggFunc::Count => match col_index {
            None => Ok(Value::Int(rows.len() as i64)),
            Some(i) => {
                let values = non_null_values(i, rows);
                Ok(Value::Int(values.len() as i64))
            },
        },
        AggFunc::Sum => {
            let values = non_null_values(col_index.unwrap(), rows);
            if values.len() == 0 {
                return Ok(Value::Null);
            }
            sum_values(values.as_slice())
        },
        AggFunc::Avg => {
            let values = non_null_values(col_index.unwrap(), rows);
            if values.len() == 0 {
                return Ok(Value::Null);
            }
            match sum_values(values.as_slice()) {
                Ok(_) => Err(ExecError::FloatArithmetic),
                Err(e) => Err(e),
            }
        },
        AggFunc::Min => {
            let values = non_null_values(col_index.unwrap(), rows);
            if values.len() == 0 {
                return Ok(Value::Null);
            }
            extremum(values.as_slice(), false)
        },
        AggFunc::Max => {
            let values = non_null_values(col_index.unwrap(), rows);
            if values.len() == 0 {
                return Ok(Value::Null);
            }
            extremum(values.as_slice(), true)
        },
    }
}

// ---------------------------------------------------------------------------
// The executable aggregate operator
// ---------------------------------------------------------------------------
proof fn lemma_agg_columns_error_persists(columns: Seq<Seq<char>>, aggs: Seq<AggregateExpr>, k: int)
    requires
        0 <= k <= aggs.len(),
        agg_columns_spec(columns, aggs.take(k)) is Err,
    ensures
        agg_columns_spec(columns, aggs) == agg_columns_spec(columns, aggs.take(k)),
    decreases aggs.len() - k,
{
    if k < aggs.len() {
        assert(aggs.take(k + 1).drop_last() =~= aggs.take(k));
        lemma_agg_columns_error_persists(columns, aggs, k + 1);
    } else {
        assert(aggs.take(k) =~= aggs);
    }
}

pub proof fn lemma_agg_columns_bounds(columns: Seq<Seq<char>>, aggs: Seq<AggregateExpr>)
    ensures
        agg_columns_spec(columns, aggs) is Ok ==> {
            let ix = agg_columns_spec(columns, aggs)->Ok_0;
            &&& ix.len() == aggs.len()
            &&& forall|k: int| 0 <= k < ix.len() ==> (#[trigger] ix[k] is Some <==> aggs[k].column is Some)
            &&& forall|k: int| 0 <= k < ix.len() && ix[k] is Some ==> 0 <= #[trigger] ix[k]->Some_0 < columns.len()
        },
    decreases aggs.len(),
{
    if aggs.len() > 0 {
        lemma_agg_columns_bounds(columns, aggs.drop_last());
        if let Some(c) = aggs.last().column {
            lemma_column_index(columns, c@);
        }
        if agg_columns_spec(columns, aggs) is Ok {
            let ix = agg_columns_spec(columns, aggs)->Ok_0;
            assert forall|k: int| 0 <= k < ix.len() - 1 implies #[trigger] aggs.drop_last()[k] == aggs[k] by {}
        }
    }
}

fn agg_columns(columns: &[String], aggs: &[AggregateExpr]) -> (r: Result<Vec<Option<usize>>, ExecError>)
    ensures
        match (r, agg_columns_spec(strings_view(columns@), aggs@)) {
            (Ok(v), Ok(ix)) => v@.len() == ix.len() && forall|k: int| 0 <= k < ix.len() ==> option_index(#[trigger] v@[k]) == ix[k],
            (Err(e), Err(f)) => e == f,
            _ => false,
        },
{
    let ghost cv = strings_view(columns@);
    let mut v: Vec<Option<usize>> = Vec::new();
    let mut i: usize = 0;
    let ghost mut ix: Seq<Option<int>> = Seq::empty();
    assert(aggs@.take(0) =~= Seq::<AggregateExpr>::empty());
    while i < aggs.len()
        invariant
            i <= aggs@.len(),
            cv == strings_view(columns@),
            agg_columns_spec(cv, aggs@.take(i as int)) == Ok::<Seq<Option<int>>, ExecError>(ix),
            v@.len() == i,
            ix.len() == i,
            forall|k: int| 0 <= k < i ==> option_index(#[trigger] v@[k]) == ix[k],
        decreases aggs.len() - i,
    {
        proof {
            assert(aggs@.take(i + 1).drop_last() =~= aggs@.take(i as int));
            assert(aggs@.take(i + 1).last() == aggs@[i as int]);
        }
        match &aggs[i].column {
            None => {
                v.push(None);
                proof {
                    ix = ix.push(None);
                }
            },
            Some(c) => match find_column(columns, c) {
                Some(index) => {
                    v.push(Some(index));
                    proof {
                        ix = ix.push(Some(index as int));
                    }
                },
                None => {
                    proof {
                        lemma_agg_columns_error_persists(cv, aggs@, i + 1);
                    }
                    return Err(ExecError::ColumnNotFound(c.clone()));
                },
            },
        }
        i = i + 1;
    }
    assert(aggs@.take(aggs.len() as int) =~= aggs@);
    Ok(v)
}

/// The groups kept as keys and member rows side by side.
pub open spec fn groups_view(keys: Seq<Vec<Value>>, members: Seq<Vec<Row>>) -> Seq<Group> {
    Seq::new(keys.len(), |k: int| (keys[k]@, rows_view(members[k]@)))
}

pub open spec fn rows_have_width(rows: Seq<Seq<Value>>, w: int) -> bool {
    forall|k: int| 0 <= k < rows.len() ==> (#[trigger] rows[k]).len() == w
}

proof fn lemma_group_rows_width(rows: Seq<Seq<Value>>, key_columns: Seq<int>, w: int)
    requires
        rows_have_width(rows, w),
    ensures
        forall|g: int| 0 <= g < group_rows(rows, key_columns).len() ==> rows_have_width(
            #[trigger] group_rows(rows, key_columns)[g].1,
            w,
        ),
    decreases rows.len(),
{
    if rows.len() > 0 {
        assert(rows_have_width(rows.drop_last(), w)) by {
            assert forall|k: int| 0 <= k < rows.drop_last().len() implies (#[trigger] rows.drop_last()[k]).len() == w by {
                assert(rows.drop_last()[k] == rows[k]);
            }
        }
        lemma_group_rows_width(rows.drop_last(), key_columns, w);
        assert(rows.last() == rows[rows.len() - 1]);
        let gs = group_rows(rows.drop_last(), key_columns);
        let key = pick(rows.last(), key_columns);
        let f = find_group(gs, key);
        lemma_find_group(gs, key);
        let out = group_rows(rows, key_columns);
        assert forall|g: int| 0 <= g < out.len() implies rows_have_width(#[trigger] out[g].1, w) by {
            if f < 0 {
                if g < gs.len() {
                    assert(out[g] == gs[g]);
                } else {
                    assert(out[g].1 == seq![rows.last()]);
                }
            } else if g == f {
                assert(out[g].1 == gs[g].1.push(rows.last()));
                assert(rows_have_width(gs[g].1, w));
                assert forall|k: int| 0 <= k < out[g].1.len() implies (#[trigger] out[g].1[k]).len() == w by {
                    if k < gs[g].1.len() {
                        assert(out[g].1[k] == gs[g].1[k]);
                    }
                }
            } else {
                assert(out[g] == gs[g]);
            }
        }
    }
}

fn group(rows: &[Row], key_columns: &Vec<usize>, width: usize) -> (r: (Vec<Vec<Value>>, Vec<Vec<Row>>))
    requires
        rows_have_width(rows_view(rows@), width as int),
        forall|k: int| 0 <= k < key_columns@.len() ==> #[trigger] key_columns@[k] < width,
    ensures
        r.0@.len() == r.1@.len(),
        groups_view(r.0@, r.1@) == group_rows(
            rows_view(rows@),
            key_columns@.map_values(|i: usize| i as int),
        ),
{
    let ghost rv = rows_view(rows@);
    let ghost gix = key_columns@.map_values(|i: usize| i as int);
    let mut keys: Vec<Vec<Value>> = Vec::new();
    let mut members: Vec<Vec<Row>> = Vec::new();
    let mut j: usize = 0;
    assert(rv.take(0) =~= Seq::<Seq<Value>>::empty());
    assert(groups_view(keys@, members@) =~= Seq::<Group>::empty());
    while j < rows.len()
        invariant
            j <= rows@.len(),
            rv == rows_view(rows@),
            gix == key_columns@.map_values(|i: usize| i as int),
            rows_have_width(rv, width as int),
            forall|k: int| 0 <= k < key_columns@.len() ==> #[trigger] key_columns@[k] < width,
            keys@.len() == members@.len(),
            groups_view(keys@, members@) == group_rows(rv.take(j as int), gix),
        decreases rows.len() - j,
    {
        let ghost gs = groups_view(keys@, members@);
        proof {
            assert(rv.take(j + 1).drop_last() =~= rv.take(j as int));
            assert(rv.take(j + 1).last() == rv[j as int]);
            assert(rv[j as int] == rows@[j as int]@);
            assert(rv[j as int].len() == width);
        }
        let key = pick_values(&rows[j], key_columns);
        assert(key@ =~= pick(rv[j as int], gix));
        let mut k: usize = 0;
        while k < keys.len() && !values_equal(keys[k].as_slice(), key.as_slice())
            invariant
                k <= keys@.len(),
                gs == groups_view(keys@, members@),
                forall|t: int| 0 <= t < k ==> !values_eq(#[trigger] gs[t].0, key@),
            decreases keys.len() - k,
        {
            k = k + 1;
        }
        proof {
            lemma_find_group(gs, key@);
        }
        let row = rows[j].copy();
        let ghost row_view = row@;
        if k == keys.len() {
            assert(find_group(gs, key@) < 0);
            let ghost kv = key@;
            keys.push(key);
            let mut m: Vec<Row> = Vec::new();
            m.push(row);
            members.push(m);
            assert(rows_view(m@) =~= seq![row_view]);
            assert(groups_view(keys@, members@) =~= gs.push((kv, seq![row_view])));
        } else {
            proof {
                assert(gs[k as int].0 == keys@[k as int]@);
                assert(values_eq(gs[k as int].0, key@));
                let f = find_group(gs, key@);
                if f < 0 {
                    assert(!values_eq(gs[k as int].0, key@));
                } else if f < k {
                    assert(!values_eq(gs[f].0, key@));
                } else if f > k {
                    assert(!values_eq(gs[k as int].0, key@));
                }
            }
            assert(find_group(gs, key@) == k);
            let mut m = members.remove(k);
            let ghost old_members = rows_view(m@);
            m.push(row);
            assert(rows_view(m@) =~= old_members.push(row_view));
            members.insert(k, m);
            assert(groups_view(keys@, members@) =~= gs.update(k as int, (gs[k as int].0, gs[k as int].1.push(row_view))));
        }
        j = j + 1;
    }
    assert(rv.take(rows.len() as int) =~= rv);
    (keys, members)
}

proof fn lemma_group_values_prefix(aggs: Seq<AggregateExpr>, columns: Seq<Option<int>>, rows: Seq<Seq<Value>>, k: int)
    requires
        0 <= k <= aggs.len(),
        !(group_values(aggs.take(k), columns, rows) matches Some(Ok(_))),
    ensures
        group_values(aggs, columns, rows) == group_values(aggs.take(k), columns, rows),
    decreases aggs.len() - k,
{
    if k < aggs.len() {
        assert(aggs.take(k + 1).drop_last() =~= aggs.take(k));
        lemma_group_values_prefix(aggs, columns, rows, k + 1);
    } else {
        assert(aggs.take(k) =~= aggs);
    }
}

proof fn lemma_output_rows_prefix(groups: Seq<Group>, aggs: Seq<AggregateExpr>, columns: Seq<Option<int>>, k: int)
    requires
        0 <= k <= groups.len(),
        !(output_rows(groups.take(k), aggs, columns) matches Some(Ok(_))),
    ensures
        output_rows(groups, aggs, columns) == output_rows(groups.take(k), aggs, columns),
    decreases groups.len() - k,
{
    if k < groups.len() {
        assert(groups.take(k + 1).drop_last() =~= groups.take(k));
        lemma_output_rows_prefix(groups, aggs, columns, k + 1);
    } else {
        assert(groups.take(k) =~= groups);
    }
}

/// The output row of one group: its key, then its aggregates.
fn group_output(key: &Vec<Value>, members: &Vec<Row>, aggs: &[AggregateExpr], columns: &Vec<Option<usize>>) -> (r: Result<
    Row,
    ExecError,
>)
    requires
        columns@.len() == aggs@.len(),
        aggregates_have_columns(aggs@),
        forall|k: int| 0 <= k < columns@.len() ==> (#[trigger] columns@[k] is Some <==> aggs@[k].column is Some),
        forall|k: int| 0 <= k < columns@.len() && columns@[k] is Some ==> has_column(rows_view(members@), (#[trigger] columns@[k])->Some_0 as int),
        group_values(aggs@, columns@.map_values(|i: Option<usize>| option_index(i)), rows_view(members@)) is Some,
    ensures
        match (r, group_values(aggs@, columns@.map_values(|i: Option<usize>| option_index(i)), rows_view(members@))) {
            (Ok(row), Some(Ok(vs))) => row@ == key@ + vs,
            (Err(e), Some(Err(f))) => e == f,
            _ => false,
        },
{
    let ghost cols = columns@.map_values(|i: Option<usize>| option_index(i));
    let ghost mv = rows_view(members@);
    let mut values = crate::eval::copy_values(key.as_slice());
    let mut t: usize = 0;
    assert(aggs@.take(0) =~= Seq::<AggregateExpr>::empty());
    assert(values@ =~= key@ + Seq::<Value>::empty());
    while t < aggs.len()
        invariant
            t <= aggs@.len(),
            columns@.len() == aggs@.len(),
            cols == columns@.map_values(|i: Option<usize>| option_index(i)),
            mv == rows_view(members@),
            aggregates_have_columns(aggs@),
            forall|k: int| 0 <= k < columns@.len() ==> (#[trigger] columns@[k] is Some <==> aggs@[k].column is Some),
            forall|k: int| 0 <= k < columns@.len() && columns@[k] is Some ==> has_column(mv, (#[trigger] columns@[k])->Some_0 as int),
            group_values(aggs@, cols, mv) is Some,
            group_values(aggs@.take(t as int), cols, mv) matches Some(Ok(vs)) && values@ == key@ + vs,
        decreases aggs.len() - t,
    {
        let ghost vs = group_values(aggs@.take(t as int), cols, mv)->Some_0->Ok_0;
        proof {
            assert(aggs@.take(t + 1).drop_last() =~= aggs@.take(t as int));
            assert(aggs@.take(t + 1).last() == aggs@[t as int]);
            assert(cols[t as int] == option_index(columns@[t as int]));
            if compute_spec(aggs@[t as int].func, cols[t as int], mv) is None {
                lemma_group_values_prefix(aggs@, cols, mv, t + 1);
            }
            assert(aggs@[t as int].func != AggFunc::Count ==> aggs@[t as int].column is Some);
        }
        let v = match compute_aggregate(&aggs[t], columns[t], members.as_slice()) {
            Ok(v) => v,
            Err(e) => {
                proof {
                    lemma_group_values_prefix(aggs@, cols, mv, t + 1);
                }
                return Err(e);
            },
        };
        values.push(v);
        assert(values@ =~= key@ + vs.push(v));
        t = t + 1;
    }
    assert(aggs@.take(aggs.len() as int) =~= aggs@);
    Ok(Row::new(values))
}

/// Groups the rows by the grouping columns and computes the aggregates of
/// each group.
pub fn aggregate(input: &RowSet, group_by: &[String], aggregates: &[AggregateExpr]) -> (r: Result<RowSet, ExecError>)
    requires
        well_formed(input@),
        aggregates_have_columns(aggregates@),
        aggregate_spec(input@, group_by@, aggregates@) is Some,
    ensures
        match (r, aggregate_spec(input@, group_by@, aggregates@)) {
            (Ok(s), Some(Ok(v))) => s@ == v,
            (Err(e), Some(Err(f))) => e == f,
            _ => false,
        },
{
    let columns = input.columns();
    let width = columns.len();
    let group_indices = resolve(columns, group_by)?;
    let ghost gix = resolve_columns(input@.columns, group_by@)->Ok_0;
    proof {
        lemma_resolve_bounds(input@.columns, group_by@);
        assert(group_indices@.map_values(|i: usize| i as int) =~= gix);
    }
    assert forall|k: int| 0 <= k < group_indices@.len() implies #[trigger] group_indices@[k] < width by {
        assert(group_indices@[k] == gix[k]);
    }
    let agg_indices = agg_columns(columns, aggregates)?;
    let ghost aix = agg_columns_spec(input@.columns, aggregates@)->Ok_0;
    proof {
        lemma_agg_columns_bounds(input@.columns, aggregates@);
        assert(agg_indices@.map_values(|i: Option<usize>| option_index(i)) =~= aix);
    }
    let rows = input.rows();
    proof {
        assert forall|k: int| 0 <= k < rows_view(rows@).len() implies (#[trigger] rows_view(rows@)[k]).len() == width by {
            assert(input@.rows[k].len() == input@.columns.len());
        }
    }
    let (mut keys, mut members) = group(rows, &group_indices, width);
    if group_by.len() == 0 && keys.len() == 0 {
        let empty_key: Vec<Value> = Vec::new();
        let empty_members: Vec<Row> = Vec::new();
        assert(empty_key@ =~= Seq::<Value>::empty());
        assert(rows_view(empty_members@) =~= Seq::<Seq<Value>>::empty());
        keys.push(empty_key);
        members.push(empty_members);
        assert(groups_view(keys@, members@)[0] == (Seq::<Value>::empty(), Seq::<Seq<Value>>::empty()));
        assert(groups_view(keys@, members@) =~= seq![(Seq::<Value>::empty(), Seq::<Seq<Value>>::empty())]);
    }
    let ghost groups = groups_view(keys@, members@);
    assert(groups == groups_spec(input@.rows, gix));
    proof {
        lemma_group_rows_width(input@.rows, gix, width as int);
    }
    let mut names = copy_names(group_by);
    let mut t: usize = 0;
    while t < aggregates.len()
        invariant
            t <= aggregates@.len(),
            strings_view(names@) == strings_view(group_by@) + aliases_view(aggregates@.take(t as int)),
        decreases aggregates.len() - t,
    {
        let ghost before = strings_view(names@);
        names.push(aggregates[t].alias.clone());
        assert(strings_view(names@) =~= before.push(aggregates@[t as int].alias@));
        assert(aliases_view(aggregates@.take(t + 1)) =~= aliases_view(aggregates@.take(t as int)).push(aggregates@[t as int].alias@));
        assert(strings_view(names@) =~= strings_view(group_by@) + aliases_view(aggregates@.take(t + 1)));
        t = t + 1;
    }
    assert(aggregates@.take(aggregates.len() as int) =~= aggregates@);
    let mut out: Vec<Row> = Vec::new();
    let mut g: usize = 0;
    assert(groups.take(0) =~= Seq::<Group>::empty());
    assert(rows_view(out@) =~= Seq::<Seq<Value>>::empty());
    while g < keys.len()
        invariant
            g <= keys@.len(),
            keys@.len() == members@.len(),
            groups == groups_view(keys@, members@),
            groups == groups_spec(input@.rows, gix),
            resolve_columns(input@.columns, group_by@) == Ok::<Seq<int>, ExecError>(gix),
            agg_columns_spec(input@.columns, aggregates@) == Ok::<Seq<Option<int>>, ExecError>(aix),
            aix == agg_indices@.map_values(|i: Option<usize>| option_index(i)),
            agg_indices@.len() == aggregates@.len(),
            aggregates_have_columns(aggregates@),
            forall|k: int| 0 <= k < agg_indices@.len() ==> (#[trigger] agg_indices@[k] is Some <==> aggregates@[k].column is Some),
            forall|k: int| 0 <= k < aix.len() && aix[k] is Some ==> 0 <= #[trigger] aix[k]->Some_0 < width,
            forall|k: int| 0 <= k < groups.len() ==> rows_have_width(#[trigger] groups[k].1, width as int),
            output_rows(groups, aggregates@, aix) is Some,
            output_rows(groups.take(g as int), aggregates@, aix) == Some(Ok::<Seq<Seq<Value>>, ExecError>(rows_view(out@))),
        decreases keys.len() - g,
    {
        proof {
            assert(groups.take(g + 1).drop_last() =~= groups.take(g as int));
            assert(groups.take(g + 1).last() == groups[g as int]);
            assert(groups[g as int] == (keys@[g as int]@, rows_view(members@[g as int]@)));
            if group_values(aggregates@, aix, groups[g as int].1) is None {
                lemma_output_rows_prefix(groups, aggregates@, aix, g + 1);
            }
            assert forall|k: int| 0 <= k < agg_indices@.len() && agg_indices@[k] is Some implies has_column(
                rows_view(members@[g as int]@),
                (#[trigger] agg_indices@[k])->Some_0 as int,
            ) by {
                assert(aix[k] == option_index(agg_indices@[k]));
                assert(rows_have_width(groups[g as int].1, width as int));
            }
        }
        let row = match group_output(&keys[g], &members[g], aggregates, &agg_indices) {
            Ok(row) => row,
            Err(e) => {
                assert(group_values(aggregates@, aix, groups[g as int].1) == Some(Err::<Seq<Value>, ExecError>(e)));
                assert(output_rows(groups.take(g + 1), aggregates@, aix) == Some(Err::<Seq<Seq<Value>>, ExecError>(e)));
                proof {
                    lemma_output_rows_prefix(groups, aggregates@, aix, g + 1);
                }
                return Err(e);
            },
        };
        let ghost before = rows_view(out@);
        let ghost rvw = row@;
        out.push(row);
        assert(rows_view(out@) =~= before.push(rvw));
        g = g + 1;
    }
    assert(groups.take(keys.len() as int) =~= groups);
    Ok(RowSet::new(names, out))
}

// ---------------------------------------------------------------------------
// Laws
// ---------------------------------------------------------------------------
/// Counting the rows of an empty input without grouping gives one row
/// holding zero.
pub proof fn law_count_of_nothing_is_zero(columns: Seq<Seq<char>>, count: AggregateExpr)
    requires
        count.func == AggFunc::Count,
        count.column is None,
    ensures
        aggregate_spec(RowSetView { columns, rows: Seq::empty() }, Seq::empty(), seq![count]) == Some(
            Ok::<RowSetView, ExecError>(
                RowSetView { columns: seq![count.alias@], rows: seq![seq![Value::Int(0)]] },
            ),
        ),
{
    let aggs = seq![count];
    assert(aggs.drop_last() =~= Seq::<AggregateExpr>::empty());
    assert(agg_columns_spec(columns, aggs.drop_last()) == Ok::<Seq<Option<int>>, ExecError>(Seq::empty()));
    assert(seq![None::<int>] =~= Seq::<Option<int>>::empty().push(None));
    assert(agg_columns_spec(columns, aggs) == Ok::<Seq<Option<int>>, ExecError>(seq![None]));
    assert(Seq::<Seq<Value>>::empty().len() == 0);
    let groups = groups_spec(Seq::empty(), Seq::empty());
    assert(groups == seq![(Seq::<Value>::empty(), Seq::<Seq<Value>>::empty())]);
    assert(group_values(aggs.drop_last(), seq![None], Seq::<Seq<Value>>::empty()) == Some(
        Ok::<Seq<Value>, ExecError>(Seq::empty()),
    ));
    assert(compute_spec(AggFunc::Count, None, Seq::<Seq<Value>>::empty()) == Some(Ok::<Value, ExecError>(Value::Int(0))));
    assert(seq![Value::Int(0)] =~= Seq::<Value>::empty().push(Value::Int(0)));
    assert(group_values(aggs, seq![None], Seq::<Seq<Value>>::empty()) == Some(
        Ok::<Seq<Value>, ExecError>(seq![Value::Int(0)]),
    ));
    assert(groups.drop_last() =~= Seq::<Group>::empty());
    assert(Seq::<Value>::empty() + seq![Value::Int(0)] =~= seq![Value::Int(0)]);
    assert(output_rows(groups.drop_last(), aggs, seq![None]) == Some(Ok::<Seq<Seq<Value>>, ExecError>(Seq::empty())));
    assert(groups.last() == (Seq::<Value>::empty(), Seq::<Seq<Value>>::empty()));
    assert(seq![seq![Value::Int(0)]] =~= Seq::<Seq<Value>>::empty().push(Seq::<Value>::empty() + seq![Value::Int(0)]));
    assert(output_rows(groups, aggs, seq![None]) == Some(Ok::<Seq<Seq<Value>>, ExecError>(seq![seq![Value::Int(0)]])));
    assert(strings_view(Seq::<String>::empty()) + aliases_view(aggs) =~= seq![count.alias@]);
}


/// `MIN` and `MAX` over integers: the result is one of the values, and no
/// value is below it (`MIN`) or above it (`MAX`).
pub proof fn law_extremum_of_integers(values: Seq<Value>, want_max: bool)
    requires
        values.len() > 0,
        forall|k: int| 0 <= k < values.len() ==> #[trigger] values[k] is Int,
    ensures
        extremum_spec(values, want_max) matches Ok(Value::Int(m)) && values.contains(Value::Int(m)) && forall|k: int|
            0 <= k < values.len() ==> (if want_max {
                #[trigger] values[k]->Int_0 <= m
            } else {
                m <= values[k]->Int_0
            }),
    decreases values.len(),
{
    if values.len() > 1 {
        let init = values.drop_last();
        assert forall|k: int| 0 <= k < init.len() implies #[trigger] init[k] is Int by {
            assert(init[k] == values[k]);
        }
        law_extremum_of_integers(init, want_max);
        let last = values[values.len() - 1];
        assert(last is Int);
        let best = extremum_spec(init, want_max)->Ok_0;
        let j = choose|j: int| 0 <= j < init.len() && init[j] == best;
        assert(values[j] == best);
        assert forall|k: int| 0 <= k < values.len() implies (if want_max {
            #[trigger] values[k]->Int_0 <= extremum_spec(values, want_max)->Ok_0->Int_0
        } else {
            extremum_spec(values, want_max)->Ok_0->Int_0 <= values[k]->Int_0
        }) by {
            if k < init.len() {
                assert(values[k] == init[k]);
            }
        }
        assert(values[values.len() - 1] == last);
    } else {
        assert(values[0] is Int);
    }
}

/// `MIN` and `MAX` over strings: the result is one of the values, and no
/// value comes before it lexicographically (`MIN`) or after it (`MAX`).
pub proof fn law_extremum_of_strings(values: Seq<Value>, want_max: bool)
    requires
        values.len() > 0,
        forall|k: int| 0 <= k < values.len() ==> #[trigger] values[k] is String,
    ensures
        extremum_spec(values, want_max) matches Ok(Value::String(m)) && values.contains(Value::String(m)) && forall|k: int|
            0 <= k < values.len() ==> (if want_max {
                !seq_lt(m@, (#[trigger] values[k])->String_0@)
            } else {
                !seq_lt(values[k]->String_0@, m@)
            }),
    decreases values.len(),
{
    if values.len() > 1 {
        let init = values.drop_last();
        assert forall|k: int| 0 <= k < init.len() implies #[trigger] init[k] is String by {
            assert(init[k] == values[k]);
        }
        law_extremum_of_strings(init, want_max);
        let last = values[values.len() - 1];
        assert(last is String);
        let best = extremum_spec(init, want_max)->Ok_0;
        let j = choose|j: int| 0 <= j < init.len() && init[j] == best;
        assert(values[j] == best);
        let b = best->String_0@;
        let l = last->String_0@;
        lemma_seq_lt_irreflexive(b);
        lemma_seq_lt_irreflexive(l);
        lemma_seq_lt_total(b, l);
        if seq_lt(b, l) && seq_lt(l, b) {
            lemma_seq_lt_transitive(b, l, b);
        }
        assert forall|k: int| 0 <= k < values.len() implies (if want_max {
            !seq_lt(extremum_spec(values, want_max)->Ok_0->String_0@, (#[trigger] values[k])->String_0@)
        } else {
            !seq_lt(values[k]->String_0@, extremum_spec(values, want_max)->Ok_0->String_0@)
        }) by {
            if k < init.len() {
                assert(values[k] == init[k]);
                let v = values[k]->String_0@;
                if seq_lt(v, l) && seq_lt(l, b) {
                    lemma_seq_lt_transitive(v, l, b);
                }
                if seq_lt(l, v) && seq_lt(b, l) {
                    lemma_seq_lt_transitive(b, l, v);
                }
                if want_max && seq_lt(l, v) && seq_lt(v, b) {
                    lemma_seq_lt_transitive(l, v, b);
                }
                if !want_max && seq_lt(b, v) && seq_lt(v, l) {
                    lemma_seq_lt_transitive(b, v, l);
                }
            }
        }
        assert(values[values.len() - 1] == last);
    } else {
        assert(values[0] is String);
        lemma_seq_lt_irreflexive(values[0]->String_0@);
    }
}

/// The non-NULL values of column `i` are the column's values that are not
/// NULL.
proof fn lemma_non_null_members(i: int, rows: Seq<Seq<Value>>)
    ensures
        forall|k: int|
            0 <= k < non_null_spec(i, rows).len() ==> exists|r: int|
                0 <= r < rows.len() && #[trigger] non_null_spec(i, rows)[k] == rows[r][i] && !(rows[r][i] is Null),
        forall|r: int| 0 <= r < rows.len() && !(rows[r][i] is Null) ==> non_null_spec(i, rows).contains(#[trigger] rows[r][i]),
    decreases rows.len(),
{
    if rows.len() > 0 {
        let init = rows.drop_last();
        lemma_non_null_members(i, init);
        let nn = non_null_spec(i, rows);
        let ni = non_null_spec(i, init);
        assert forall|k: int| 0 <= k < nn.len() implies exists|r: int|
            0 <= r < rows.len() && #[trigger] nn[k] == rows[r][i] && !(rows[r][i] is Null) by {
            if k < ni.len() {
                assert(nn[k] == ni[k]);
                let r = choose|r: int| 0 <= r < init.len() && ni[k] == init[r][i] && !(init[r][i] is Null);
                assert(rows[r] == init[r]);
            } else {
                assert(nn[k] == rows[rows.len() - 1][i]);
            }
        }
        assert forall|r: int| 0 <= r < rows.len() && !(rows[r][i] is Null) implies nn.contains(#[trigger] rows[r][i]) by {
            if r < init.len() {
                assert(rows[r] == init[r]);
                assert(ni.contains(init[r][i]));
                let k = choose|k: int| 0 <= k < ni.len() && ni[k] == init[r][i];
                assert(nn[k] == ni[k]);
            } else {
                assert(nn[nn.len() - 1] == rows[r][i]);
            }
        }
    }
}

/// `MIN` (and `MAX`) of an integer column: over rows whose values in the
/// column are integers or NULL, with at least one integer, the result is one
/// of the column's integers, and none of them is below it (above it).
pub proof fn law_min_max_of_integer_column(func: AggFunc, i: int, rows: Seq<Seq<Value>>)
    requires
        func == AggFunc::Min || func == AggFunc::Max,
        forall|r: int| 0 <= r < rows.len() ==> (#[trigger] rows[r][i] is Int || rows[r][i] is Null),
        exists|r: int| 0 <= r < rows.len() && #[trigger] rows[r][i] is Int,
    ensures
        compute_spec(func, Some(i), rows) matches Some(Ok(Value::Int(m))) && (exists|r: int|
            0 <= r < rows.len() && #[trigger] rows[r][i] == Value::Int(m)) && forall|r: int|
            0 <= r < rows.len() && #[trigger] rows[r][i] is Int ==> (if func == AggFunc::Min {
                m <= rows[r][i]->Int_0
            } else {
                rows[r][i]->Int_0 <= m
            }),
{
    lemma_non_null_members(i, rows);
    let nn = non_null_spec(i, rows);
    let r0 = choose|r: int| 0 <= r < rows.len() && #[trigger] rows[r][i] is Int;
    assert(nn.contains(rows[r0][i]));
    assert forall|k: int| 0 <= k < nn.len() implies #[trigger] nn[k] is Int by {
        let r = choose|r: int| 0 <= r < rows.len() && nn[k] == rows[r][i] && !(rows[r][i] is Null);
    }
    law_extremum_of_integers(nn, func == AggFunc::Max);
    let m = extremum_spec(nn, func == AggFunc::Max)->Ok_0;
    let k = choose|k: int| 0 <= k < nn.len() && nn[k] == m;
    let r = choose|r: int| 0 <= r < rows.len() && nn[k] == rows[r][i] && !(rows[r][i] is Null);
    assert(rows[r][i] == m);
    assert forall|r: int| 0 <= r < rows.len() && #[trigger] rows[r][i] is Int implies (if func == AggFunc::Min {
        m->Int_0 <= rows[r][i]->Int_0
    } else {
        rows[r][i]->Int_0 <= m->Int_0
    }) by {
        assert(nn.contains(rows[r][i]));
        let k = choose|k: int| 0 <= k < nn.len() && nn[k] == rows[r][i];
    }
}

/// Whether a row holds a value (not NULL) in column `i`.
pub open spec fn holds_value(i: int) -> spec_fn(Seq<Value>) -> bool {
    |r: Seq<Value>| !(r[i] is Null)
}

/// The values of column `i` in the rows that hold one, in row order.
pub open spec fn column_values(rows: Seq<Seq<Value>>, i: int) -> Seq<Value> {
    rows.filter(holds_value(i)).map_values(|r: Seq<Value>| r[i])
}

/// The mathematical sum of integer values.
pub open spec fn int_total(values: Seq<Value>) -> int {
    values.fold_left(0int, |acc: int, v: Value| acc + v->Int_0)
}

proof fn lemma_non_null_is_column_values(i: int, rows: Seq<Seq<Value>>)
    ensures
        non_null_spec(i, rows) == column_values(rows, i),
    decreases rows.len(),
{
    reveal(Seq::filter);
    if rows.len() > 0 {
        lemma_non_null_is_column_values(i, rows.drop_last());
        let kept = rows.drop_last().filter(holds_value(i));
        if !(rows.last()[i] is Null) {
            assert(rows.filter(holds_value(i)) == kept.push(rows.last()));
            assert(column_values(rows, i) =~= column_values(rows.drop_last(), i).push(rows.last()[i]));
        } else {
            assert(rows.filter(holds_value(i)) == kept);
        }
    } else {
        assert(column_values(rows, i) =~= Seq::<Value>::empty());
    }
}

proof fn lemma_int_sum_is_total(values: Seq<Value>)
    requires
        all_int(values),
        forall|k: int| 0 <= k <= values.len() ==> i64::MIN <= #[trigger] int_total(values.take(k)) <= i64::MAX,
    ensures
        int_sum(values) == Some(int_total(values)),
    decreases values.len(),
{
    if values.len() > 0 {
        let d = values.drop_last();
        assert forall|k: int| 0 <= k <= d.len() implies i64::MIN <= #[trigger] int_total(d.take(k)) <= i64::MAX by {
            assert(d.take(k) =~= values.take(k));
        }
        assert(all_int(d)) by {
            assert forall|k: int| 0 <= k < d.len() implies #[trigger] d[k] is Int by {
                assert(d[k] == values[k]);
            }
        }
        lemma_int_sum_is_total(d);
        assert(values.take(values.len() as int) =~= values);
        assert(values.last() is Int);
    } else {
        assert(values.take(0) =~= values);
    }
}

/// `COUNT(*)` counts the rows of a group, and `COUNT(column)` the rows that
/// hold a value (not NULL) in the column.
pub proof fn law_count_counts_rows(i: int, rows: Seq<Seq<Value>>)
    ensures
        compute_spec(AggFunc::Count, None, rows) == Some(Ok::<Value, ExecError>(Value::Int(rows.len() as i64))),
        compute_spec(AggFunc::Count, Some(i), rows) == Some(
            Ok::<Value, ExecError>(Value::Int(rows.filter(holds_value(i)).len() as i64)),
        ),
{
    lemma_non_null_is_column_values(i, rows);
}

/// `SUM` of an integer column is the sum of its values, NULLs left out, when
/// no running sum leaves `i64`; it is NULL when the column holds no value.
pub proof fn law_sum_adds_column(i: int, rows: Seq<Seq<Value>>)
    requires
        all_int(column_values(rows, i)),
        forall|k: int|
            0 <= k <= column_values(rows, i).len() ==> i64::MIN <= #[trigger] int_total(column_values(rows, i).take(k))
                <= i64::MAX,
    ensures
        column_values(rows, i).len() == 0 ==> compute_spec(AggFunc::Sum, Some(i), rows) == Some(
            Ok::<Value, ExecError>(Value::Null),
        ),
        column_values(rows, i).len() > 0 ==> compute_spec(AggFunc::Sum, Some(i), rows) == Some(
            Ok::<Value, ExecError>(Value::Int(int_total(column_values(rows, i)) as i64)),
        ),
{
    lemma_non_null_is_column_values(i, rows);
    lemma_int_sum_is_total(column_values(rows, i));
}

/// How grouping compares values: integers, booleans and NULLs by equality,
/// strings by their characters, and values of different types never match.
pub proof fn law_grouping_equality(a: Value, b: Value)
    ensures
        a is Int && b is Int ==> value_eq(a, b) == (a->Int_0 == b->Int_0),
        a is Bool && b is Bool ==> value_eq(a, b) == (a->Bool_0 == b->Bool_0),
        a is String && b is String ==> value_eq(a, b) == (a->String_0@ == b->String_0@),
        a is Null && b is Null ==> value_eq(a, b),
        a is Null != b is Null ==> !value_eq(a, b),
        (a is Int || a is Bool || a is String) && (b is Int || b is Bool || b is String) && !(a is Int && b is Int) && !(
        a is Bool && b is Bool) && !(a is String && b is String) ==> !value_eq(a, b),
{
}

/// Whether the groups partition what they hold by key: each group is
/// named by the key of its first row, every later row of the group has a
/// key equal to it, and no two groups have equal keys.
pub open spec fn groups_by_key(groups: Seq<Group>, key_columns: Seq<int>) -> bool {
    &&& forall|g: int|
        0 <= g < groups.len() ==> (#[trigger] groups[g]).1.len() > 0 && groups[g].0 == pick(groups[g].1[0], key_columns)
    &&& forall|g: int, m: int|
        0 <= g < groups.len() && 0 < m < groups[g].1.len() ==> values_eq(
            groups[g].0,
            pick(#[trigger] groups[g].1[m], key_columns),
        )
    &&& forall|g: int, h: int| 0 <= g < h < groups.len() ==> !values_eq(#[trigger] groups[g].0, #[trigger] groups[h].0)
}

/// Whether some group holds the row.
pub open spec fn in_some_group(groups: Seq<Group>, row: Seq<Value>) -> bool {
    exists|g: int| 0 <= g < groups.len() && (#[trigger] groups[g]).1.contains(row)
}

/// `GROUP BY` puts each row into the group of its key: every row lands in a
/// group, each group is named by the key of its first row, every later row
/// of a group has a key equal to the group's, and no two groups have equal
/// keys.
pub proof fn law_group_by_partitions_rows(rows: Seq<Seq<Value>>, key_columns: Seq<int>)
    ensures
        groups_by_key(group_rows(rows, key_columns), key_columns),
        forall|r: int| 0 <= r < rows.len() ==> in_some_group(group_rows(rows, key_columns), #[trigger] rows[r]),
    decreases rows.len(),
{
    if rows.len() > 0 {
        let init = rows.drop_last();
        law_group_by_partitions_rows(init, key_columns);
        let groups = group_rows(init, key_columns);
        let x = rows.last();
        let key = pick(x, key_columns);
        let k = find_group(groups, key);
        lemma_find_group(groups, key);
        let out = group_rows(rows, key_columns);
        if k < 0 {
            assert(out == groups.push((key, seq![x])));
            assert(out[groups.len() as int].1[0] == x);
            assert forall|r: int| 0 <= r < rows.len() implies in_some_group(out, #[trigger] rows[r]) by {
                if r < init.len() {
                    assert(rows[r] == init[r]);
                    assert(in_some_group(groups, init[r]));
                    let g = choose|g: int| 0 <= g < groups.len() && (#[trigger] groups[g]).1.contains(init[r]);
                    assert(out[g] == groups[g]);
                } else {
                    assert(out[groups.len() as int].1[0] == rows[r]);
                }
            }
        } else {
            assert(out == groups.update(k, (groups[k].0, groups[k].1.push(x))));
            assert forall|g: int|
                0 <= g < out.len() implies (#[trigger] out[g]).1.len() > 0 && out[g].0 == pick(out[g].1[0], key_columns) by {
                if g == k {
                    assert(out[g].1[0] == groups[g].1[0]);
                }
            }
            assert forall|g: int, m: int|
                0 <= g < out.len() && 0 < m < out[g].1.len() implies values_eq(
                out[g].0,
                pick(#[trigger] out[g].1[m], key_columns),
            ) by {
                if g == k && m < groups[g].1.len() {
                    assert(out[g].1[m] == groups[g].1[m]);
                }
            }
            assert forall|r: int| 0 <= r < rows.len() implies in_some_group(out, #[trigger] rows[r]) by {
                if r < init.len() {
                    assert(rows[r] == init[r]);
                    assert(in_some_group(groups, init[r]));
                    let g = choose|g: int| 0 <= g < groups.len() && (#[trigger] groups[g]).1.contains(init[r]);
                    let m = choose|m: int| 0 <= m < groups[g].1.len() && groups[g].1[m] == init[r];
                    assert(out[g].1[m] == init[r]);
                } else {
                    assert(out[k].1[groups[k].1.len() as int] == rows[r]);
                }
            }
        }
    }
}

} // verus!
