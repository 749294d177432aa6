//! `ORDER BY`: a stable sort of rows by sort keys, with NULLs last in
//! either direction.
use crate::eval::{ExecError, Row, Value};
use crate::float::{float_less, float_lt, law_float_order};
use crate::ir::{strings_view, SortDirection};
use crate::key::{lemma_seq_lt_irreflexive, lemma_seq_lt_total, lemma_seq_lt_transitive, seq_lt, str_lt};
use crate::row_set::{copy_names, resolve_columns, rows_view, well_formed, RowSet, RowSetView};
use crate::eval::{column_index, find_column};
use vstd::prelude::*;

verus! {

/// The outcome of comparing two values.
#[derive(Debug, Clone, Copy, PartialEq)]
pub enum Order {
    Less,
    Equal,
    Greater,
}

pub open spec fn reversed(o: Order) -> Order {
    match o {
        Order::Less => Order::Greater,
        Order::Equal => Order::Equal,
        Order::Greater => Order::Less,
    }
}

/// Two non-NULL values of one type compare by their order (a float NaN is
/// equal to everything); values of different types compare equal.
pub open spec fn compare_non_null_spec(a: Value, b: Value) -> Order {
    match (a, b) {
        (Value::Int(x), Value::Int(y)) => if x < y {
            Order::Less
        } else if x > y {
            Order::Greater
        } else {
            Order::Equal
        },
        (Value::Float(x), Value::Float(y)) => if float_lt(x, y) {
            Order::Less
        } else if float_lt(y, x) {
            Order::Greater
        } else {
            Order::Equal
        },
        (Value::String(x), Value::String(y)) => if seq_lt(x@, y@) {
            Order::Less
        } else if seq_lt(y@, x@) {
            Order::Greater
        } else {
            Order::Equal
        },
        (Value::Bool(x), Value::Bool(y)) => if !x && y {
            Order::Less
        } else if x && !y {
            Order::Greater
        } else {
            Order::Equal
        },
        _ => Order::Equal,
    }
}

/// NULL sorts after every other value whatever the direction; other values
/// compare by `compare_non_null_spec`, reversed for a descending key.
pub open spec fn compare_with_direction_spec(a: Value, b: Value, dir: SortDirection) -> Order {
    if a is Null && b is Null {
        Order::Equal
    } else if a is Null {
        Order::Greater
    } else if b is Null {
        Order::Less
    } else if dir == SortDirection::Desc {
        reversed(compare_non_null_spec(a, b))
    } else {
        compare_non_null_spec(a, b)
    }
}

/// Rows compare by the first sort key on which they differ.
pub open spec fn compare_rows_spec(a: Seq<Value>, b: Seq<Value>, keys: Seq<(int, SortDirection)>) -> Order
    decreases keys.len(),
{
    if keys.len() == 0 {
        Order::Equal
    } else {
        let o = compare_with_direction_spec(a[keys[0].0], b[keys[0].0], keys[0].1);
        if o != Order::Equal {
            o
        } else {
            compare_rows_spec(a, b, keys.drop_first())
        }
    }
}

/// Where a stable sort puts `x` among rows already sorted: before the first
/// row that `x` sorts strictly before, after all the others.
pub open spec fn insert_position(sorted: Seq<Seq<Value>>, x: Seq<Value>, keys: Seq<(int, SortDirection)>) -> int
    decreases sorted.len(),
{
    if sorted.len() == 0 {
        0
    } else if compare_rows_spec(x, sorted[0], keys) == Order::Less {
        0
    } else {
        1 + insert_position(sorted.drop_first(), x, keys)
    }
}

/// The rows sorted by the keys, rows that compare equal keeping their order.
pub open spec fn stable_sort_spec(rows: Seq<Seq<Value>>, keys: Seq<(int, SortDirection)>) -> Seq<Seq<Value>>
    decreases rows.len(),
{
    if rows.len() == 0 {
        Seq::empty()
    } else {
        let s = stable_sort_spec(rows.drop_last(), keys);
        s.insert(insert_position(s, rows.last(), keys), rows.last())
    }
}

/// `ORDER BY`: every key must name a column; the rows are then sorted
/// stably by the keys.
pub open spec fn sort_spec(input: RowSetView, order_by: Seq<(String, SortDirection)>) -> Result<RowSetView, ExecError> {
    match resolve_columns(input.columns, order_by.map_values(|o: (String, SortDirection)| o.0)) {
        Err(e) => Err(e),
        Ok(ix) => Ok(
            RowSetView {
                columns: input.columns,
                rows: stable_sort_spec(
                    input.rows,
                    Seq::new(order_by.len(), |k: int| (ix[k], order_by[k].1)),
                ),
            },
        ),
    }
}

fn compare_non_null(a: &Value, b: &Value) -> (o: Order)
    ensures
        o == compare_non_null_spec(*a, *b),
{
    match (a, b) {
        (Value::Int(x), Value::Int(y)) => if *x < *y {
            Order::Less
        } else if *x > *y {
            Order::Greater
        } else {
            Order::Equal
        },
        (Value::Float(x), Value::Float(y)) => if float_less(*x, *y) {
            Order::Less
        } else if float_less(*y, *x) {
            Order::Greater
        } else {
            Order::Equal
        },
        (Value::String(x), Value::String(y)) => if str_lt(x, y) {
            Order::Less
        } else if str_lt(y, x) {
            Order::Greater
        } else {
            Order::Equal
        },
        (Value::Bool(x), Value::Bool(y)) => if !*x && *y {
            Order::Less
        } else if *x && !*y {
            Order::Greater
        } else {
            Order::Equal
        },
        _ => Order::Equal,
    }
}

pub fn compare_with_direction(a: &Value, b: &Value, dir: SortDirection) -> (o: Order)
    ensures
        o == compare_with_direction_spec(*a, *b, dir),
{
    if a.is_null() && b.is_null() {
        Order::Equal
    } else if a.is_null() {
        Order::Greater
    } else if b.is_null() {
        Order::Less
    } else {
        let o = compare_non_null(a, b);
        if matches!(dir, SortDirection::Desc) {
            match o {
                Order::Less => Order::Greater,
                Order::Equal => Order::Equal,
                Order::Greater => Order::Less,
            }
        } else {
            o
        }
    }
}

pub open spec fn keys_view(keys: Seq<(usize, SortDirection)>) -> Seq<(int, SortDirection)> {
    keys.map_values(|k: (usize, SortDirection)| (k.0 as int, k.1))
}

fn compare_rows(a: &Row, b: &Row, keys: &[(usize, SortDirection)]) -> (o: Order)
    requires
        forall|k: int| 0 <= k < keys@.len() ==> (#[trigger] keys@[k]).0 < a@.len() && keys@[k].0 < b@.len(),
    ensures
        o == compare_rows_spec(a@, b@, keys_view(keys@)),
{
    let mut k: usize = 0;
    assert(keys_view(keys@).skip(0) =~= keys_view(keys@));
    while k < keys.len()
        invariant
            k <= keys@.len(),
            forall|j: int| 0 <= j < keys@.len() ==> (#[trigger] keys@[j]).0 < a@.len() && keys@[j].0 < b@.len(),
            compare_rows_spec(a@, b@, keys_view(keys@)) == compare_rows_spec(a@, b@, keys_view(keys@).skip(k as int)),
        decreases keys.len() - k,
    {
        let (index, dir) = keys[k];
        let o = compare_with_direction(&a.values()[index], &b.values()[index], dir);
        proof {
            let rest = keys_view(keys@).skip(k as int);
            assert(keys_view(keys@)[k as int] == (index as int, dir));
            assert(rest[0] == (index as int, dir));
            assert(rest.drop_first() =~= keys_view(keys@).skip(k + 1));
            assert(compare_rows_spec(a@, b@, rest) == (if o != Order::Equal {
                o
            } else {
                compare_rows_spec(a@, b@, rest.drop_first())
            }));
        }
        if !matches!(o, Order::Equal) {
            return o;
        }
        k = k + 1;
    }
    assert(keys_view(keys@).skip(k as int) =~= Seq::<(int, SortDirection)>::empty());
    Order::Equal
}

/// Sorts the rows by the given keys. The sort is stable and NULLs come last
/// in either direction.
pub fn sort(input: &RowSet, order_by: &[(String, SortDirection)]) -> (r: Result<RowSet, ExecError>)
    requires
        well_formed(input@),
    ensures
        match (r, sort_spec(input@, order_by@)) {
            (Ok(s), Ok(v)) => s@ == v,
            (Err(e), Err(f)) => e == f,
            _ => false,
        },
{
    let ghost names = order_by@.map_values(|o: (String, SortDirection)| o.0);
    let columns = input.columns();
    let mut keys: Vec<(usize, SortDirection)> = Vec::new();
    let mut i: usize = 0;
    let ghost mut ix: Seq<int> = Seq::empty();
    assert(names.take(0) =~= Seq::<String>::empty());
    while i < order_by.len()
        invariant
            i <= order_by@.len(),
            names == order_by@.map_values(|o: (String, SortDirection)| o.0),
            strings_view(columns@) == input@.columns,
            resolve_columns(input@.columns, names.take(i as int)) == Ok::<Seq<int>, ExecError>(ix),
            keys@.len() == i,
            ix.len() == i,
            forall|k: int| 0 <= k < i ==> (#[trigger] keys@[k]).0 == ix[k] && keys@[k].1 == order_by@[k].1,
            forall|k: int| 0 <= k < i ==> 0 <= #[trigger] ix[k] < input@.columns.len(),
        decreases order_by.len() - i,
    {
        proof {
            assert(names.take(i + 1).drop_last() =~= names.take(i as int));
            assert(names.take(i + 1).last() == order_by@[i as int].0);
            crate::eval::lemma_column_index(input@.columns, order_by@[i as int].0@);
        }
        match find_column(columns, &order_by[i].0) {
            Some(index) => {
                keys.push((index, order_by[i].1));
                proof {
                    ix = ix.push(index as int);
                }
            },
            None => {
                proof {
                    crate::row_set::lemma_resolve_error_persists(input@.columns, names, i + 1);
                }
                return Err(ExecError::ColumnNotFound(order_by[i].0.clone()));
            },
        }
        i = i + 1;
    }
    assert(names.take(order_by.len() as int) =~= names);
    let ghost kv = Seq::new(order_by@.len(), |k: int| (ix[k], order_by@[k].1));
    assert(keys_view(keys@) =~= kv);
    let rows = input.rows();
    let mut sorted: Vec<Row> = Vec::new();
    let mut j: usize = 0;
    assert(input@.rows.take(0) =~= Seq::<Seq<Value>>::empty());
    assert(rows_view(sorted@) =~= Seq::<Seq<Value>>::empty());
    while j < rows.len()
        invariant
            j <= rows@.len(),
            rows_view(rows@) == input@.rows,
            well_formed(input@),
            keys_view(keys@) == kv,
            forall|k: int| 0 <= k < keys@.len() ==> (#[trigger] keys@[k]).0 < input@.columns.len(),
            rows_view(sorted@) == stable_sort_spec(input@.rows.take(j as int), kv),
            forall|k: int| 0 <= k < sorted@.len() ==> (#[trigger] sorted@[k])@.len() == input@.columns.len(),
        decreases rows.len() - j,
    {
        let row = rows[j].copy();
        assert(input@.rows[j as int] == rows@[j as int]@);
        let ghost s = rows_view(sorted@);
        let mut pos: usize = 0;
        assert(s.skip(0) =~= s);
        while pos < sorted.len() && !matches!(compare_rows(&row, &sorted[pos], keys.as_slice()), Order::Less)
            invariant
                pos <= sorted@.len(),
                s == rows_view(sorted@),
                row@ == input@.rows[j as int],
                well_formed(input@),
                j < input@.rows.len(),
                keys_view(keys@) == kv,
                forall|k: int| 0 <= k < keys@.len() ==> (#[trigger] keys@[k]).0 < input@.columns.len(),
                forall|k: int| 0 <= k < sorted@.len() ==> (#[trigger] sorted@[k])@.len() == input@.columns.len(),
                insert_position(s, row@, kv) == pos + insert_position(s.skip(pos as int), row@, kv),
            decreases sorted@.len() - pos,
        {
            proof {
                assert(s.skip(pos as int)[0] == s[pos as int]);
                assert(s[pos as int] == sorted@[pos as int]@);
                assert(s.skip(pos as int).drop_first() =~= s.skip(pos + 1));
                assert(input@.rows[j as int].len() == input@.columns.len());
            }
            pos = pos + 1;
        }
        proof {
            if pos < sorted@.len() {
                assert(s.skip(pos as int)[0] == s[pos as int]);
                assert(s[pos as int] == sorted@[pos as int]@);
                assert(input@.rows[j as int].len() == input@.columns.len());
                assert(insert_position(s.skip(pos as int), row@, kv) == 0);
            } else {
                assert(s.skip(pos as int) =~= Seq::<Seq<Value>>::empty());
            }
            assert(insert_position(s, row@, kv) == pos);
            assert(input@.rows.take(j + 1).drop_last() =~= input@.rows.take(j as int));
            assert(input@.rows.take(j + 1).last() == input@.rows[j as int]);
        }
        let ghost row_view = row@;
        sorted.insert(pos, row);
        assert(rows_view(sorted@) =~= s.insert(pos as int, row_view));
        proof {
            assert(input@.rows[j as int].len() == input@.columns.len());
            assert forall|k: int| 0 <= k < sorted@.len() implies (#[trigger] sorted@[k])@.len() == input@.columns.len() by {
                assert(rows_view(sorted@)[k] == sorted@[k]@);
            }
        }
        j = j + 1;
    }
    assert(input@.rows.take(rows.len() as int) =~= input@.rows);
    Ok(RowSet::new(copy_names(columns), sorted))
}

// ---------------------------------------------------------------------------
// Laws
// ---------------------------------------------------------------------------
/// NULL sorts after every other value, in either direction.
pub proof fn law_nulls_sort_last(v: Value, dir: SortDirection)
    requires
        !(v is Null),
    ensures
        compare_with_direction_spec(Value::Null, v, dir) == Order::Greater,
        compare_with_direction_spec(v, Value::Null, dir) == Order::Less,
{
}

proof fn lemma_insert_position_bounds(sorted: Seq<Seq<Value>>, x: Seq<Value>, keys: Seq<(int, SortDirection)>)
    ensures
        0 <= insert_position(sorted, x, keys) <= sorted.len(),
    decreases sorted.len(),
{
    if sorted.len() > 0 {
        lemma_insert_position_bounds(sorted.drop_first(), x, keys);
    }
}

/// Sorting keeps every row, as many times as it occurs, and adds none.
pub proof fn law_sort_is_permutation(rows: Seq<Seq<Value>>, keys: Seq<(int, SortDirection)>)
    ensures
        stable_sort_spec(rows, keys).to_multiset() == rows.to_multiset(),
    decreases rows.len(),
{
    broadcast use vstd::seq_lib::to_multiset_insert, vstd::seq_lib::to_multiset_build;

    if rows.len() == 0 {
        assert(stable_sort_spec(rows, keys) =~= rows);
    } else {
        let init = rows.drop_last();
        law_sort_is_permutation(init, keys);
        let s = stable_sort_spec(init, keys);
        lemma_insert_position_bounds(s, rows.last(), keys);
        assert(rows =~= init.push(rows.last()));
    }
}


/// Whether value `x` sorts strictly before `y` under a key in direction
/// `dir`. NULL comes after every other value in either direction. Other
/// values compare within their type, ascending for `ASC` and descending for
/// `DESC`: integers by size, strings lexicographically, floats by IEEE order,
/// `false` before `true`; values of different types are not ordered.
pub open spec fn sorts_before(x: Value, y: Value, dir: SortDirection) -> bool {
    if x is Null {
        false
    } else if y is Null {
        true
    } else {
        let p = if dir == SortDirection::Desc { y } else { x };
        let q = if dir == SortDirection::Desc { x } else { y };
        match (p, q) {
            (Value::Int(a), Value::Int(b)) => a < b,
            (Value::String(a), Value::String(b)) => seq_lt(a@, b@),
            (Value::Float(a), Value::Float(b)) => float_lt(a, b),
            (Value::Bool(a), Value::Bool(b)) => !a && b,
            _ => false,
        }
    }
}

proof fn lemma_less_is_sorts_before(x: Value, y: Value, dir: SortDirection)
    ensures
        (compare_with_direction_spec(x, y, dir) == Order::Less) == sorts_before(x, y, dir),
{
    match (x, y) {
        (Value::String(a), Value::String(b)) => {
            lemma_seq_lt_irreflexive(a@);
            if seq_lt(a@, b@) && seq_lt(b@, a@) {
                lemma_seq_lt_transitive(a@, b@, a@);
            }
        },
        (Value::Float(a), Value::Float(b)) => {
            law_float_order(a, b, a);
        },
        _ => {},
    }
}

proof fn lemma_sorts_before_order(x: Value, y: Value, z: Value, dir: SortDirection)
    ensures
        !(sorts_before(x, y, dir) && sorts_before(y, x, dir)),
        sorts_before(x, y, dir) && sorts_before(y, z, dir) ==> sorts_before(x, z, dir),
{
    match (x, y, z) {
        (Value::String(a), Value::String(b), Value::String(c)) => {
            lemma_seq_lt_irreflexive(a@);
            if seq_lt(a@, b@) && seq_lt(b@, a@) {
                lemma_seq_lt_transitive(a@, b@, a@);
            }
            if seq_lt(a@, b@) && seq_lt(b@, c@) {
                lemma_seq_lt_transitive(a@, b@, c@);
            }
            if seq_lt(c@, b@) && seq_lt(b@, a@) {
                lemma_seq_lt_transitive(c@, b@, a@);
            }
        },
        (Value::String(a), Value::String(b), _) => {
            lemma_seq_lt_irreflexive(a@);
            if seq_lt(a@, b@) && seq_lt(b@, a@) {
                lemma_seq_lt_transitive(a@, b@, a@);
            }
        },
        (Value::Float(a), Value::Float(b), Value::Float(c)) => {
            law_float_order(a, b, c);
            law_float_order(c, b, a);
            law_float_order(a, b, a);
        },
        (Value::Float(a), Value::Float(b), _) => {
            law_float_order(a, b, a);
        },
        _ => {},
    }
}

/// With a single key, rows compare by their values in its column.
proof fn lemma_one_key(a: Seq<Value>, b: Seq<Value>, c: int, dir: SortDirection)
    ensures
        compare_rows_spec(a, b, seq![(c, dir)]) == compare_with_direction_spec(a[c], b[c], dir),
{
    let keys = seq![(c, dir)];
    assert(keys.drop_first() =~= Seq::<(int, SortDirection)>::empty());
    assert(keys[0] == (c, dir));
    assert(compare_rows_spec(a, b, keys.drop_first()) == Order::Equal);
}

proof fn lemma_insert_position_facts(sorted: Seq<Seq<Value>>, x: Seq<Value>, keys: Seq<(int, SortDirection)>)
    ensures
        forall|k: int|
            0 <= k < insert_position(sorted, x, keys) ==> compare_rows_spec(x, #[trigger] sorted[k], keys) != Order::Less,
        insert_position(sorted, x, keys) < sorted.len() ==> compare_rows_spec(
            x,
            sorted[insert_position(sorted, x, keys)],
            keys,
        ) == Order::Less,
    decreases sorted.len(),
{
    if sorted.len() > 0 && compare_rows_spec(x, sorted[0], keys) != Order::Less {
        let rest = sorted.drop_first();
        lemma_insert_position_facts(rest, x, keys);
        lemma_insert_position_bounds(rest, x, keys);
        assert forall|k: int| 0 <= k < insert_position(sorted, x, keys) implies compare_rows_spec(x, #[trigger] sorted[k], keys)
            != Order::Less by {
            if k > 0 {
                assert(sorted[k] == rest[k - 1]);
            }
        }
        if insert_position(sorted, x, keys) < sorted.len() {
            assert(sorted[insert_position(sorted, x, keys)] == rest[insert_position(rest, x, keys)]);
        }
    }
}

/// Whether no row of `rows` sorts strictly before an earlier one on
/// column `c` in direction `dir`.
pub open spec fn ordered_on(rows: Seq<Seq<Value>>, c: int, dir: SortDirection) -> bool {
    forall|i: int, j: int| 0 <= i < j < rows.len() ==> !sorts_before(#[trigger] rows[j][c], #[trigger] rows[i][c], dir)
}

/// Sorting by one key orders the rows: in the result, no row sorts strictly
/// before an earlier one on the key's column (NULLs last; ascending or
/// descending within each type, as `sorts_before` says).
pub proof fn law_sort_orders_rows(rows: Seq<Seq<Value>>, c: int, dir: SortDirection)
    ensures
        ordered_on(stable_sort_spec(rows, seq![(c, dir)]), c, dir),
    decreases rows.len(),
{
    let keys = seq![(c, dir)];
    if rows.len() > 0 {
        let init = rows.drop_last();
        law_sort_orders_rows(init, c, dir);
        let s = stable_sort_spec(init, keys);
        let x = rows.last();
        let p = insert_position(s, x, keys);
        lemma_insert_position_bounds(s, x, keys);
        lemma_insert_position_facts(s, x, keys);
        let r = s.insert(p, x);
        assert(stable_sort_spec(rows, keys) == r);
        assert forall|i: int, j: int| 0 <= i < j < r.len() implies !sorts_before(#[trigger] r[j][c], #[trigger] r[i][c], dir) by {
            if j < p {
                assert(r[i] == s[i] && r[j] == s[j]);
            } else if j == p {
                assert(r[i] == s[i] && r[j] == x);
                lemma_one_key(x, s[i], c, dir);
                lemma_less_is_sorts_before(x[c], s[i][c], dir);
            } else if i < p {
                assert(r[i] == s[i] && r[j] == s[j - 1]);
            } else if i == p {
                assert(r[i] == x && r[j] == s[j - 1]);
                lemma_one_key(x, s[p], c, dir);
                lemma_less_is_sorts_before(x[c], s[p][c], dir);
                lemma_sorts_before_order(s[j - 1][c], x[c], s[p][c], dir);
                if j - 1 > p {
                    assert(!sorts_before(s[j - 1][c], s[p][c], dir));
                }
            } else {
                assert(r[i] == s[i - 1] && r[j] == s[j - 1]);
            }
        }
    }
}

/// `ORDER BY` one column: the result is ordered on that column.
pub proof fn law_order_by_orders_rows(input: RowSetView, name: String, dir: SortDirection)
    ensures
        sort_spec(input, seq![(name, dir)]) matches Ok(out) ==> ordered_on(
            out.rows,
            column_index(input.columns, name@),
            dir,
        ),
{
    let order_by = seq![(name, dir)];
    let names = order_by.map_values(|o: (String, SortDirection)| o.0);
    assert(names.drop_last() =~= Seq::<String>::empty());
    assert(names.last() == name);
    assert(resolve_columns(input.columns, names.drop_last()) == Ok::<Seq<int>, ExecError>(Seq::empty()));
    if let Ok(ix) = resolve_columns(input.columns, names) {
        assert(ix =~= seq![column_index(input.columns, name@)]);
        let keys = Seq::new(order_by.len(), |k: int| (ix[k], order_by[k].1));
        assert(keys =~= seq![(column_index(input.columns, name@), dir)]);
        law_sort_orders_rows(input.rows, column_index(input.columns, name@), dir);
    }
}

/// Whether two values of one sort-key column are ordered against each other:
/// one of them is NULL, or both are integers, both strings or both booleans.
pub open spec fn comparable(v: Value, w: Value) -> bool {
    ||| v is Null
    ||| w is Null
    ||| v is Int && w is Int
    ||| v is String && w is String
    ||| v is Bool && w is Bool
}

/// Whether row `a` sorts strictly before row `b` under the sort keys: on the
/// first key column where one value sorts before the other, `a`'s does.
pub open spec fn rows_sort_before(a: Seq<Value>, b: Seq<Value>, keys: Seq<(int, SortDirection)>) -> bool
    decreases keys.len(),
{
    if keys.len() == 0 {
        false
    } else if sorts_before(a[keys[0].0], b[keys[0].0], keys[0].1) {
        true
    } else if sorts_before(b[keys[0].0], a[keys[0].0], keys[0].1) {
        false
    } else {
        rows_sort_before(a, b, keys.drop_first())
    }
}

/// Whether no row of `rows` sorts strictly before an earlier one under the
/// sort keys.
pub open spec fn ordered_by(rows: Seq<Seq<Value>>, keys: Seq<(int, SortDirection)>) -> bool {
    forall|i: int, j: int| 0 <= i < j < rows.len() ==> !rows_sort_before(#[trigger] rows[j], #[trigger] rows[i], keys)
}

/// Whether two rows hold comparable values in every key column.
pub open spec fn rows_comparable(a: Seq<Value>, b: Seq<Value>, keys: Seq<(int, SortDirection)>) -> bool {
    forall|k: int| 0 <= k < keys.len() ==> comparable(a[#[trigger] keys[k].0], b[keys[k].0])
}

/// Whether every two rows hold comparable values in every key column.
pub open spec fn keys_comparable(rows: Seq<Seq<Value>>, keys: Seq<(int, SortDirection)>) -> bool {
    forall|i: int, j: int| 0 <= i < rows.len() && 0 <= j < rows.len() ==> rows_comparable(#[trigger] rows[i], #[trigger] rows[j], keys)
}

proof fn lemma_compare_flip(x: Value, y: Value, dir: SortDirection)
    requires
        comparable(x, y),
    ensures
        compare_with_direction_spec(y, x, dir) == reversed(compare_with_direction_spec(x, y, dir)),
{
    if let (Value::String(a), Value::String(b)) = (x, y) {
        lemma_seq_lt_irreflexive(a@);
        if seq_lt(a@, b@) && seq_lt(b@, a@) {
            lemma_seq_lt_transitive(a@, b@, a@);
        }
    }
}

/// Two comparable values of which neither sorts before the other stand for
/// each other against any third value.
proof fn lemma_tied_values(x: Value, y: Value, z: Value, dir: SortDirection)
    requires
        comparable(x, y),
        !sorts_before(x, y, dir),
        !sorts_before(y, x, dir),
    ensures
        sorts_before(x, z, dir) == sorts_before(y, z, dir),
        sorts_before(z, x, dir) == sorts_before(z, y, dir),
{
    if let (Value::String(a), Value::String(b)) = (x, y) {
        lemma_seq_lt_total(a@, b@);
    }
}

proof fn lemma_rows_comparable_rest(a: Seq<Value>, b: Seq<Value>, keys: Seq<(int, SortDirection)>)
    requires
        keys.len() > 0,
        rows_comparable(a, b, keys),
    ensures
        rows_comparable(a, b, keys.drop_first()),
        comparable(a[keys[0].0], b[keys[0].0]),
{
    assert forall|k: int| 0 <= k < keys.drop_first().len() implies comparable(
        a[#[trigger] keys.drop_first()[k].0],
        b[keys.drop_first()[k].0],
    ) by {
        assert(keys.drop_first()[k] == keys[k + 1]);
    }
}

proof fn lemma_less_is_rows_sort_before(a: Seq<Value>, b: Seq<Value>, keys: Seq<(int, SortDirection)>)
    requires
        rows_comparable(a, b, keys),
    ensures
        (compare_rows_spec(a, b, keys) == Order::Less) == rows_sort_before(a, b, keys),
    decreases keys.len(),
{
    if keys.len() > 0 {
        let (c, d) = keys[0];
        lemma_rows_comparable_rest(a, b, keys);
        lemma_less_is_sorts_before(a[c], b[c], d);
        lemma_less_is_sorts_before(b[c], a[c], d);
        lemma_compare_flip(a[c], b[c], d);
        lemma_less_is_rows_sort_before(a, b, keys.drop_first());
    }
}

proof fn lemma_rows_sort_before_order(a: Seq<Value>, b: Seq<Value>, c: Seq<Value>, keys: Seq<(int, SortDirection)>)
    requires
        rows_comparable(a, b, keys),
        rows_comparable(b, c, keys),
        rows_comparable(a, c, keys),
    ensures
        !(rows_sort_before(a, b, keys) && rows_sort_before(b, a, keys)),
        rows_sort_before(a, b, keys) && rows_sort_before(b, c, keys) ==> rows_sort_before(a, c, keys),
    decreases keys.len(),
{
    if keys.len() > 0 {
        let (k, d) = keys[0];
        lemma_rows_comparable_rest(a, b, keys);
        lemma_rows_comparable_rest(b, c, keys);
        lemma_rows_comparable_rest(a, c, keys);
        lemma_rows_sort_before_order(a, b, c, keys.drop_first());
        lemma_sorts_before_order(a[k], b[k], c[k], d);
        lemma_sorts_before_order(b[k], a[k], c[k], d);
        if !sorts_before(a[k], b[k], d) && !sorts_before(b[k], a[k], d) {
            lemma_tied_values(a[k], b[k], c[k], d);
        }
        if !sorts_before(b[k], c[k], d) && !sorts_before(c[k], b[k], d) {
            lemma_tied_values(b[k], c[k], a[k], d);
        }
    }
}

proof fn lemma_sorted_rows_are_input_rows(rows: Seq<Seq<Value>>, keys: Seq<(int, SortDirection)>)
    ensures
        stable_sort_spec(rows, keys).len() == rows.len(),
        forall|a: int|
            0 <= a < rows.len() ==> exists|r: int| 0 <= r < rows.len() && #[trigger] stable_sort_spec(rows, keys)[a] == rows[r],
    decreases rows.len(),
{
    if rows.len() > 0 {
        let init = rows.drop_last();
        lemma_sorted_rows_are_input_rows(init, keys);
        let s = stable_sort_spec(init, keys);
        let p = insert_position(s, rows.last(), keys);
        lemma_insert_position_bounds(s, rows.last(), keys);
        let t = s.insert(p, rows.last());
        assert forall|a: int| 0 <= a < rows.len() implies exists|r: int| 0 <= r < rows.len() && #[trigger] t[a] == rows[r] by {
            if a < p {
                let r = choose|r: int| 0 <= r < init.len() && s[a] == init[r];
                assert(t[a] == rows[r]);
            } else if a == p {
                assert(t[a] == rows[rows.len() - 1]);
            } else {
                let r = choose|r: int| 0 <= r < init.len() && s[a - 1] == init[r];
                assert(t[a] == rows[r]);
            }
        }
    }
}

/// Sorting orders the rows by all their keys: in the result, no row sorts
/// strictly before an earlier one, comparing rows on the first key column
/// where they differ (NULLs last; ascending or descending as each key says).
/// Each key column must hold values that compare with each other: integers,
/// strings or booleans, with NULLs.
pub proof fn law_sort_orders_by_keys(rows: Seq<Seq<Value>>, keys: Seq<(int, SortDirection)>)
    requires
        keys_comparable(rows, keys),
    ensures
        ordered_by(stable_sort_spec(rows, keys), keys),
    decreases rows.len(),
{
    if rows.len() > 0 {
        let init = rows.drop_last();
        assert(keys_comparable(init, keys)) by {
            assert forall|i: int, j: int| 0 <= i < init.len() && 0 <= j < init.len() implies rows_comparable(
                #[trigger] init[i],
                #[trigger] init[j],
                keys,
            ) by {
                assert(init[i] == rows[i] && init[j] == rows[j]);
            }
        }
        law_sort_orders_by_keys(init, keys);
        lemma_sorted_rows_are_input_rows(init, keys);
        let s = stable_sort_spec(init, keys);
        let x = rows.last();
        let p = insert_position(s, x, keys);
        lemma_insert_position_bounds(s, x, keys);
        lemma_insert_position_facts(s, x, keys);
        let r = s.insert(p, x);
        assert(stable_sort_spec(rows, keys) == r);
        assert forall|a: int, b: int| 0 <= a < r.len() && 0 <= b < r.len() implies rows_comparable(
            #[trigger] r[a],
            #[trigger] r[b],
            keys,
        ) by {
            let ra = if a < p {
                choose|q: int| 0 <= q < init.len() && s[a] == init[q]
            } else if a == p {
                rows.len() - 1
            } else {
                choose|q: int| 0 <= q < init.len() && s[a - 1] == init[q]
            };
            let rb = if b < p {
                choose|q: int| 0 <= q < init.len() && s[b] == init[q]
            } else if b == p {
                rows.len() - 1
            } else {
                choose|q: int| 0 <= q < init.len() && s[b - 1] == init[q]
            };
            assert(r[a] == rows[ra]);
            assert(r[b] == rows[rb]);
        }
        assert forall|i: int, j: int| 0 <= i < j < r.len() implies !rows_sort_before(#[trigger] r[j], #[trigger] r[i], keys) by {
            if j < p {
                assert(r[i] == s[i] && r[j] == s[j]);
            } else if j == p {
                assert(r[i] == s[i] && r[j] == x);
                lemma_less_is_rows_sort_before(x, s[i], keys);
            } else if i < p {
                assert(r[i] == s[i] && r[j] == s[j - 1]);
            } else if i == p {
                assert(r[i] == x && r[j] == s[j - 1] && r[p + 1] == s[p]);
                lemma_less_is_rows_sort_before(x, s[p], keys);
                lemma_rows_sort_before_order(s[j - 1], x, s[p], keys);
                lemma_rows_sort_before_order(x, s[p], x, keys);
                if j - 1 > p {
                    assert(r[j] == s[j - 1]);
                    assert(!rows_sort_before(s[j - 1], s[p], keys));
                }
            } else {
                assert(r[i] == s[i - 1] && r[j] == s[j - 1]);
            }
        }
    }
}

/// The sort keys of an `ORDER BY`: each named column's position with its
/// direction.
pub open spec fn order_keys(columns: Seq<Seq<char>>, order_by: Seq<(String, SortDirection)>) -> Seq<(int, SortDirection)> {
    Seq::new(order_by.len(), |k: int| (column_index(columns, order_by[k].0@), order_by[k].1))
}

proof fn lemma_resolved_positions(columns: Seq<Seq<char>>, names: Seq<String>)
    ensures
        resolve_columns(columns, names) is Ok ==> {
            let ix = resolve_columns(columns, names)->Ok_0;
            &&& ix.len() == names.len()
            &&& forall|k: int| 0 <= k < ix.len() ==> #[trigger] ix[k] == column_index(columns, names[k]@)
        },
    decreases names.len(),
{
    if names.len() > 0 {
        lemma_resolved_positions(columns, names.drop_last());
        if resolve_columns(columns, names) is Ok {
            let ix = resolve_columns(columns, names)->Ok_0;
            let prev = resolve_columns(columns, names.drop_last())->Ok_0;
            assert forall|k: int| 0 <= k < ix.len() implies #[trigger] ix[k] == column_index(columns, names[k]@) by {
                if k < prev.len() {
                    assert(ix[k] == prev[k]);
                    assert(names.drop_last()[k] == names[k]);
                }
            }
        }
    }
}

/// `ORDER BY` orders the result by its columns: no row of the result sorts
/// strictly before an earlier one, comparing on the first listed column
/// where two rows differ, where the ordered columns hold integers, strings
/// or booleans, with NULLs.
pub proof fn law_order_by_orders_by_keys(input: RowSetView, order_by: Seq<(String, SortDirection)>)
    requires
        keys_comparable(input.rows, order_keys(input.columns, order_by)),
    ensures
        sort_spec(input, order_by) matches Ok(out) ==> ordered_by(out.rows, order_keys(input.columns, order_by)),
{
    let names = order_by.map_values(|o: (String, SortDirection)| o.0);
    lemma_resolved_positions(input.columns, names);
    if let Ok(ix) = resolve_columns(input.columns, names) {
        let keys = Seq::new(order_by.len(), |k: int| (ix[k], order_by[k].1));
        assert(keys =~= order_keys(input.columns, order_by)) by {
            assert forall|k: int| 0 <= k < order_by.len() implies #[trigger] keys[k] == order_keys(input.columns, order_by)[k] by {
                assert(names[k] == order_by[k].0);
            }
        }
        law_sort_orders_by_keys(input.rows, keys);
    }
}

} // verus!
