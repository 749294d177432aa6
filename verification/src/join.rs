//! Joins: every left row paired with the right rows its condition accepts,
//! with NULL padding for the unmatched rows of an outer join.
use crate::eval::{eval_expr, eval_spec, ExecError, Row, Value};
use crate::ir::{strings_view, Expr, JoinKind};
use crate::row_set::{rows_view, well_formed, RowSet, RowSetView};
use vstd::prelude::*;

verus! {

/// The column names qualified by a table name, as in `users.id`.
pub open spec fn qualified(prefix: Seq<char>, columns: Seq<Seq<char>>) -> Seq<Seq<char>> {
    columns.map_values(|c: Seq<char>| prefix + seq!['.'] + c)
}

/// `n` NULL values.
pub open spec fn nulls(n: nat) -> Seq<Value> {
    Seq::new(n, |i: int| Value::Null)
}

/// Whether the join condition accepts a combined row: only a `true` value
/// does.
pub open spec fn accepts(on: Expr, columns: Seq<Seq<char>>, row: Seq<Value>) -> Result<bool, ExecError> {
    match eval_spec(on, columns, row) {
        Some(Ok(v)) => Ok(v == Value::Bool(true)),
        Some(Err(e)) => Err(e),
        None => Ok(false),
    }
}

/// The combined rows of one left row with the right rows the condition
/// accepts, in right order, or the first error.
pub open spec fn matched_rows(on: Expr, columns: Seq<Seq<char>>, left: Seq<Value>, rights: Seq<Seq<Value>>) -> Result<
    Seq<Seq<Value>>,
    ExecError,
>
    decreases rights.len(),
{
    if rights.len() == 0 {
        Ok(Seq::empty())
    } else {
        match matched_rows(on, columns, left, rights.drop_last()) {
            Err(e) => Err(e),
            Ok(ms) => match accepts(on, columns, left + rights.last()) {
                Err(e) => Err(e),
                Ok(true) => Ok(ms.push(left + rights.last())),
                Ok(false) => Ok(ms),
            },
        }
    }
}

/// For each left row in order: its matched rows, then, when it has none and
/// `pad_left` holds, the left row padded with `right_width` NULLs.
pub open spec fn left_pass(
    on: Expr,
    columns: Seq<Seq<char>>,
    lefts: Seq<Seq<Value>>,
    rights: Seq<Seq<Value>>,
    pad_left: bool,
    right_width: nat,
) -> Result<Seq<Seq<Value>>, ExecError>
    decreases lefts.len(),
{
    if lefts.len() == 0 {
        Ok(Seq::empty())
    } else {
        match left_pass(on, columns, lefts.drop_last(), rights, pad_left, right_width) {
            Err(e) => Err(e),
            Ok(out) => match matched_rows(on, columns, lefts.last(), rights) {
                Err(e) => Err(e),
                Ok(ms) => Ok(
                    if ms.len() == 0 && pad_left {
                        out + ms + seq![lefts.last() + nulls(right_width)]
                    } else {
                        out + ms
                    },
                ),
            },
        }
    }
}

/// Whether some left row is accepted together with the right row `r`.
pub open spec fn right_matched(on: Expr, columns: Seq<Seq<char>>, lefts: Seq<Seq<Value>>, r: Seq<Value>) -> bool {
    exists|i: int| 0 <= i < lefts.len() && #[trigger] accepts(on, columns, lefts[i] + r) == Ok::<bool, ExecError>(true)
}

/// The right rows no left row matched, in order, padded on the left with
/// `left_width` NULLs.
pub open spec fn right_pass(
    on: Expr,
    columns: Seq<Seq<char>>,
    lefts: Seq<Seq<Value>>,
    rights: Seq<Seq<Value>>,
    left_width: nat,
) -> Seq<Seq<Value>>
    decreases rights.len(),
{
    if rights.len() == 0 {
        Seq::empty()
    } else {
        let rest = right_pass(on, columns, lefts, rights.drop_last(), left_width);
        if right_matched(on, columns, lefts, rights.last()) {
            rest
        } else {
            rest.push(nulls(left_width) + rights.last())
        }
    }
}

pub open spec fn join_columns(left: RowSetView, right: RowSetView, left_table: Seq<char>, right_table: Seq<char>) -> Seq<
    Seq<char>,
> {
    qualified(left_table, left.columns) + qualified(right_table, right.columns)
}

/// A join: the columns of both sides qualified by their table names; the
/// left pass (left rows padded for `LEFT` and `FULL` joins), then for
/// `RIGHT` and `FULL` joins the unmatched right rows padded on the left.
pub open spec fn join_spec(
    left: RowSetView,
    right: RowSetView,
    left_table: Seq<char>,
    right_table: Seq<char>,
    on: Expr,
    kind: JoinKind,
) -> Result<RowSetView, ExecError> {
    let columns = join_columns(left, right, left_table, right_table);
    let pad_left = kind == JoinKind::Left || kind == JoinKind::FullOuter;
    let pad_right = kind == JoinKind::Right || kind == JoinKind::FullOuter;
    match left_pass(on, columns, left.rows, right.rows, pad_left, right.columns.len()) {
        Err(e) => Err(e),
        Ok(out) => Ok(
            RowSetView {
                columns,
                rows: if pad_right {
                    out + right_pass(on, columns, left.rows, right.rows, left.columns.len())
                } else {
                    out
                },
            },
        ),
    }
}

/// The join condition can be evaluated on every pair of rows.
pub open spec fn join_evaluable(
    left: RowSetView,
    right: RowSetView,
    left_table: Seq<char>,
    right_table: Seq<char>,
    on: Expr,
) -> bool {
    forall|i: int, j: int|
        0 <= i < left.rows.len() && 0 <= j < right.rows.len() ==> #[trigger] eval_spec(
            on,
            join_columns(left, right, left_table, right_table),
            left.rows[i] + right.rows[j],
        ) is Some
}

proof fn lemma_matched_error_persists(on: Expr, columns: Seq<Seq<char>>, left: Seq<Value>, rights: Seq<Seq<Value>>, k: int)
    requires
        0 <= k <= rights.len(),
        matched_rows(on, columns, left, rights.take(k)) is Err,
    ensures
        matched_rows(on, columns, left, rights) == matched_rows(on, columns, left, rights.take(k)),
    decreases rights.len() - k,
{
    if k < rights.len() {
        assert(rights.take(k + 1).drop_last() =~= rights.take(k));
        lemma_matched_error_persists(on, columns, left, rights, k + 1);
    } else {
        assert(rights.take(k) =~= rights);
    }
}

proof fn lemma_left_pass_error_persists(
    on: Expr,
    columns: Seq<Seq<char>>,
    lefts: Seq<Seq<Value>>,
    rights: Seq<Seq<Value>>,
    pad_left: bool,
    right_width: nat,
    k: int,
)
    requires
        0 <= k <= lefts.len(),
        left_pass(on, columns, lefts.take(k), rights, pad_left, right_width) is Err,
    ensures
        left_pass(on, columns, lefts, rights, pad_left, right_width) == left_pass(
            on,
            columns,
            lefts.take(k),
            rights,
            pad_left,
            right_width,
        ),
    decreases lefts.len() - k,
{
    if k < lefts.len() {
        assert(lefts.take(k + 1).drop_last() =~= lefts.take(k));
        lemma_left_pass_error_persists(on, columns, lefts, rights, pad_left, right_width, k + 1);
    } else {
        assert(lefts.take(k) =~= lefts);
    }
}

/// `prefix.name`.
pub fn qualify(prefix: &str, name: &String) -> (q: String)
    ensures
        q@ == prefix@ + seq!['.'] + name@,
{
    let mut q = prefix.to_string();
    q.append(".");
    proof {
        reveal_strlit(".");
    }
    q.append(name.as_str());
    q
}

pub fn qualify_all(prefix: &str, columns: &[String], out: &mut Vec<String>)
    ensures
        strings_view(final(out)@) == strings_view(old(out)@) + qualified(prefix@, strings_view(columns@)),
{
    let ghost start = strings_view(out@);
    let mut i: usize = 0;
    while i < columns.len()
        invariant
            i <= columns@.len(),
            strings_view(out@) == start + qualified(prefix@, strings_view(columns@.take(i as int))),
        decreases columns.len() - i,
    {
        let q = qualify(prefix, &columns[i]);
        let ghost before = strings_view(out@);
        out.push(q);
        assert(strings_view(out@) =~= before.push(q@));
        assert(strings_view(columns@.take(i + 1)) =~= strings_view(columns@.take(i as int)).push(columns@[i as int]@));
        assert(qualified(prefix@, strings_view(columns@.take(i + 1))) =~= qualified(
            prefix@,
            strings_view(columns@.take(i as int)),
        ).push(prefix@ + seq!['.'] + columns@[i as int]@));
        assert(strings_view(out@) =~= start + qualified(prefix@, strings_view(columns@.take(i + 1))));
        i = i + 1;
    }
    assert(columns@.take(columns.len() as int) =~= columns@);
}

/// The values of `a` followed by those of `b`.
pub fn concat_rows(a: &[Value], b: &[Value]) -> (r: Row)
    ensures
        r@ == a@ + b@,
{
    let mut values = crate::eval::copy_values(a);
    let mut i: usize = 0;
    while i < b.len()
        invariant
            i <= b@.len(),
            values@ == a@ + b@.take(i as int),
        decreases b.len() - i,
    {
        values.push(b[i].copy());
        assert(values@ =~= a@ + b@.take(i + 1));
        i = i + 1;
    }
    assert(b@.take(b.len() as int) =~= b@);
    Row::new(values)
}

/// `n` NULL values.
pub fn null_values(n: usize) -> (v: Vec<Value>)
    ensures
        v@ == nulls(n as nat),
{
    let mut v: Vec<Value> = Vec::new();
    let mut i: usize = 0;
    while i < n
        invariant
            i <= n,
            v@ == nulls(i as nat),
        decreases n - i,
    {
        v.push(Value::Null);
        assert(v@ =~= nulls((i + 1) as nat));
        i = i + 1;
    }
    v
}

/// Joins two row sets by evaluating the condition on every pair of rows.
pub fn nestedloopjoin(
    left: &RowSet,
    right: &RowSet,
    left_table: &str,
    right_table: &str,
    on: &Expr,
    kind: JoinKind,
) -> (r: Result<RowSet, ExecError>)
    requires
        join_evaluable(left@, right@, left_table@, right_table@, *on),
    ensures
        match (r, join_spec(left@, right@, left_table@, right_table@, *on, kind)) {
            (Ok(s), Ok(v)) => s@ == v,
            (Err(e), Err(f)) => e == f,
            _ => false,
        },
{
    let mut columns: Vec<String> = Vec::new();
    qualify_all(left_table, left.columns(), &mut columns);
    qualify_all(right_table, right.columns(), &mut columns);
    let ghost cols = join_columns(left@, right@, left_table@, right_table@);
    assert(strings_view(columns@) =~= cols);
    let pad_left = matches!(kind, JoinKind::Left | JoinKind::FullOuter);
    let pad_right = matches!(kind, JoinKind::Right | JoinKind::FullOuter);
    let lrows = left.rows();
    let rrows = right.rows();
    let ghost lefts = left@.rows;
    let ghost rights = right@.rows;
    let right_width = right.columns().len();
    let left_width = left.columns().len();
    let mut matched_right: Vec<bool> = Vec::new();
    let mut j: usize = 0;
    while j < rrows.len()
        invariant
            j <= rrows@.len(),
            matched_right@.len() == j,
            forall|k: int| 0 <= k < j ==> !(#[trigger] matched_right@[k]),
        decreases rrows.len() - j,
    {
        matched_right.push(false);
        j = j + 1;
    }
    let mut out: Vec<Row> = Vec::new();
    let mut i: usize = 0;
    assert(lefts.take(0) =~= Seq::<Seq<Value>>::empty());
    assert(rows_view(out@) =~= Seq::<Seq<Value>>::empty());
    while i < lrows.len()
        invariant
            i <= lrows@.len(),
            rows_view(lrows@) == lefts,
            rows_view(rrows@) == rights,
            lefts == left@.rows,
            rights == right@.rows,
            strings_view(columns@) == cols,
            cols == join_columns(left@, right@, left_table@, right_table@),
            right_width == right@.columns.len(),
            pad_left == (kind == JoinKind::Left || kind == JoinKind::FullOuter),
            join_evaluable(left@, right@, left_table@, right_table@, *on),
            matched_right@.len() == rights.len(),
            forall|k: int|
                0 <= k < rights.len() ==> (#[trigger] matched_right@[k] <==> right_matched(
                    *on,
                    cols,
                    lefts.take(i as int),
                    rights[k],
                )),
            left_pass(*on, cols, lefts.take(i as int), rights, pad_left, right_width as nat) == Ok::<
                Seq<Seq<Value>>,
                ExecError,
            >(rows_view(out@)),
        decreases lrows.len() - i,
    {
        let ghost l = lefts[i as int];
        assert(l == lrows@[i as int]@);
        let ghost base = rows_view(out@);
        let ghost matched_before = matched_right@;
        let mut matched_any = false;
        let mut j: usize = 0;
        assert(rights.take(0) =~= Seq::<Seq<Value>>::empty());
        while j < rrows.len()
            invariant
                i < lrows@.len(),
                j <= rrows@.len(),
                l == lefts[i as int],
                l == lrows@[i as int]@,
                rows_view(lrows@) == lefts,
                rows_view(rrows@) == rights,
                lefts == left@.rows,
                rights == right@.rows,
                strings_view(columns@) == cols,
                cols == join_columns(left@, right@, left_table@, right_table@),
                join_evaluable(left@, right@, left_table@, right_table@, *on),
                right_width == right@.columns.len(),
                pad_left == (kind == JoinKind::Left || kind == JoinKind::FullOuter),
                left_pass(*on, cols, lefts.take(i as int), rights, pad_left, right_width as nat) == Ok::<
                    Seq<Seq<Value>>,
                    ExecError,
                >(base),
                matched_right@.len() == rights.len(),
                matched_before.len() == rights.len(),
                forall|k: int| 0 <= k < j ==> (#[trigger] matched_right@[k] <==> (matched_before[k] || accepts(*on, cols, l + rights[k]) == Ok::<bool, ExecError>(true))),
                forall|k: int| j <= k < rights.len() ==> #[trigger] matched_right@[k] == matched_before[k],
                matched_rows(*on, cols, l, rights.take(j as int)) is Ok,
                rows_view(out@) == base + matched_rows(*on, cols, l, rights.take(j as int))->Ok_0,
                matched_any == (matched_rows(*on, cols, l, rights.take(j as int))->Ok_0.len() > 0),
            decreases rrows.len() - j,
        {
            proof {
                assert(rights.take(j + 1).drop_last() =~= rights.take(j as int));
                assert(rights.take(j + 1).last() == rights[j as int]);
                assert(rights[j as int] == rrows@[j as int]@);
                assert(eval_spec(*on, cols, lefts[i as int] + rights[j as int]) is Some);
            }
            let combined = concat_rows(lrows[i].values(), rrows[j].values());
            assert(combined@ == l + rights[j as int]);
            let ghost ms = matched_rows(*on, cols, l, rights.take(j as int))->Ok_0;
            let value = match eval_expr(on, columns.as_slice(), &combined) {
                Ok(v) => v,
                Err(e) => {
                    proof {
                        lemma_matched_error_persists(*on, cols, l, rights, j + 1);
                        assert(lefts.take(i + 1).drop_last() =~= lefts.take(i as int));
                        assert(lefts.take(i + 1).last() == l);
                        lemma_left_pass_error_persists(*on, cols, lefts, rights, pad_left, right_width as nat, i + 1);
                    }
                    return Err(e);
                },
            };
            if matches!(value, Value::Bool(true)) {
                assert(accepts(*on, cols, l + rights[j as int]) == Ok::<bool, ExecError>(true));
                assert(matched_rows(*on, cols, l, rights.take(j + 1)) == Ok::<Seq<Seq<Value>>, ExecError>(
                    ms.push(l + rights[j as int]),
                ));
                let ghost cv = combined@;
                let ghost before_out = rows_view(out@);
                out.push(combined);
                matched_any = true;
                matched_right.set(j, true);
                assert(rows_view(out@) =~= before_out.push(cv));
                assert(rows_view(out@) =~= base + matched_rows(*on, cols, l, rights.take(j + 1))->Ok_0);
            } else {
                assert(accepts(*on, cols, l + rights[j as int]) == Ok::<bool, ExecError>(false));
                assert(matched_rows(*on, cols, l, rights.take(j + 1)) == Ok::<Seq<Seq<Value>>, ExecError>(ms));
            }
            j = j + 1;
        }
        assert(rights.take(rights.len() as int) =~= rights);
        proof {
            assert(lefts.take(i + 1).drop_last() =~= lefts.take(i as int));
            assert(lefts.take(i + 1).last() == l);
        }
        if !matched_any && pad_left {
            let mut padded = crate::eval::copy_values(lrows[i].values());
            let mut extra = null_values(right_width);
            padded.append(&mut extra);
            let ghost pv = padded@;
            assert(pv == l + nulls(right_width as nat));
            let ghost before_out = rows_view(out@);
            out.push(Row::new(padded));
            assert(rows_view(out@) =~= before_out.push(pv));
            assert(rows_view(out@) =~= base + matched_rows(*on, cols, l, rights)->Ok_0 + seq![l + nulls(right_width as nat)]);
        }
        proof {
            assert forall|k: int| 0 <= k < rights.len() implies (#[trigger] matched_right@[k] <==> right_matched(
                *on,
                cols,
                lefts.take(i + 1),
                rights[k],
            )) by {
                let t = lefts.take(i + 1);
                if matched_right@[k] {
                    if matched_before[k] {
                        let w = choose|w: int| 0 <= w < i && #[trigger] accepts(*on, cols, lefts.take(i as int)[w] + rights[k]) == Ok::<bool, ExecError>(true);
                        assert(t[w] == lefts.take(i as int)[w]);
                    } else {
                        assert(t[i as int] == l);
                    }
                }
                if right_matched(*on, cols, t, rights[k]) {
                    let w = choose|w: int| 0 <= w < t.len() && #[trigger] accepts(*on, cols, t[w] + rights[k]) == Ok::<bool, ExecError>(true);
                    if w < i {
                        assert(lefts.take(i as int)[w] == t[w]);
                    }
                }
            }
        }
        i = i + 1;
    }
    assert(lefts.take(lrows.len() as int) =~= lefts);
    if pad_right {
        let ghost before = rows_view(out@);
        let mut j: usize = 0;
        assert(rights.take(0) =~= Seq::<Seq<Value>>::empty());
        while j < rrows.len()
            invariant
                j <= rrows@.len(),
                rows_view(rrows@) == rights,
                rows_view(lrows@) == lefts,
                matched_right@.len() == rights.len(),
                left_width == left@.columns.len(),
                forall|k: int| 0 <= k < rights.len() ==> (#[trigger] matched_right@[k] <==> right_matched(*on, cols, lefts, rights[k])),
                rows_view(out@) == before + right_pass(*on, cols, lefts, rights.take(j as int), left_width as nat),
            decreases rrows.len() - j,
        {
            proof {
                assert(rights.take(j + 1).drop_last() =~= rights.take(j as int));
                assert(rights.take(j + 1).last() == rights[j as int]);
                assert(rights[j as int] == rrows@[j as int]@);
            }
            let ghost rest = right_pass(*on, cols, lefts, rights.take(j as int), left_width as nat);
            if !matched_right[j] {
                let mut padded = null_values(left_width);
                let mut tail = crate::eval::copy_values(rrows[j].values());
                padded.append(&mut tail);
                let ghost pv = padded@;
                assert(pv == nulls(left_width as nat) + rights[j as int]);
                let ghost before_out = rows_view(out@);
                out.push(Row::new(padded));
                assert(rows_view(out@) =~= before_out.push(pv));
                assert(right_pass(*on, cols, lefts, rights.take(j + 1), left_width as nat) == rest.push(pv));
                assert(rows_view(out@) =~= before + right_pass(*on, cols, lefts, rights.take(j + 1), left_width as nat));
            } else {
                assert(right_pass(*on, cols, lefts, rights.take(j + 1), left_width as nat) == rest);
            }
            j = j + 1;
        }
        assert(rights.take(rights.len() as int) =~= rights);
    }
    Ok(RowSet::new(columns, out))
}

/// Whether the condition evaluates to `true` on the left row `l` joined with
/// a right row.
pub open spec fn true_with(on: Expr, columns: Seq<Seq<char>>, l: Seq<Value>) -> spec_fn(Seq<Value>) -> bool {
    |r: Seq<Value>| eval_spec(on, columns, l + r) == Some(Ok::<Value, ExecError>(Value::Bool(true)))
}

/// The left row `l` joined with each right row the condition holds for, in
/// right order.
pub open spec fn pairs_of(on: Expr, columns: Seq<Seq<char>>, l: Seq<Value>, rights: Seq<Seq<Value>>) -> Seq<Seq<Value>> {
    rights.filter(true_with(on, columns, l)).map_values(|r: Seq<Value>| l + r)
}

/// What a left row contributes: its pairs, or, where it has none and the
/// join pads left rows, the row padded with `width` NULLs.
pub open spec fn contribution(
    on: Expr,
    columns: Seq<Seq<char>>,
    l: Seq<Value>,
    rights: Seq<Seq<Value>>,
    pad: bool,
    width: nat,
) -> Seq<Seq<Value>> {
    if pad && pairs_of(on, columns, l, rights).len() == 0 {
        seq![l + nulls(width)]
    } else {
        pairs_of(on, columns, l, rights)
    }
}

/// Whether the condition holds for no left row joined with a right row.
pub open spec fn unmatched_by(on: Expr, columns: Seq<Seq<char>>, lefts: Seq<Seq<Value>>) -> spec_fn(Seq<Value>) -> bool {
    |r: Seq<Value>| !exists|i: int| 0 <= i < lefts.len() && #[trigger] true_with(on, columns, lefts[i])(r)
}

proof fn lemma_matched_rows_are_pairs(on: Expr, columns: Seq<Seq<char>>, l: Seq<Value>, rights: Seq<Seq<Value>>)
    ensures
        matched_rows(on, columns, l, rights) is Ok ==> matched_rows(on, columns, l, rights)->Ok_0 == pairs_of(
            on,
            columns,
            l,
            rights,
        ),
    decreases rights.len(),
{
    reveal(Seq::filter);
    if rights.len() > 0 {
        lemma_matched_rows_are_pairs(on, columns, l, rights.drop_last());
        let kept = rights.drop_last().filter(true_with(on, columns, l));
        if true_with(on, columns, l)(rights.last()) {
            assert(rights.filter(true_with(on, columns, l)) == kept.push(rights.last()));
            assert(pairs_of(on, columns, l, rights) =~= pairs_of(on, columns, l, rights.drop_last()).push(l + rights.last()));
        } else {
            assert(rights.filter(true_with(on, columns, l)) == kept);
        }
    } else {
        assert(pairs_of(on, columns, l, rights) =~= Seq::<Seq<Value>>::empty());
    }
}

proof fn lemma_left_pass_contributions(
    on: Expr,
    columns: Seq<Seq<char>>,
    lefts: Seq<Seq<Value>>,
    rights: Seq<Seq<Value>>,
    pad: bool,
    width: nat,
)
    ensures
        left_pass(on, columns, lefts, rights, pad, width) is Ok ==> left_pass(on, columns, lefts, rights, pad, width)->Ok_0
            == lefts.map_values(|l: Seq<Value>| contribution(on, columns, l, rights, pad, width)).flatten(),
    decreases lefts.len(),
{
    broadcast use Seq::lemma_flatten_push;

    let f = |l: Seq<Value>| contribution(on, columns, l, rights, pad, width);
    if lefts.len() > 0 {
        lemma_left_pass_contributions(on, columns, lefts.drop_last(), rights, pad, width);
        lemma_matched_rows_are_pairs(on, columns, lefts.last(), rights);
        assert(lefts.map_values(f) =~= lefts.drop_last().map_values(f).push(f(lefts.last())));
        if left_pass(on, columns, lefts, rights, pad, width) is Ok {
            let ms = matched_rows(on, columns, lefts.last(), rights)->Ok_0;
            assert(left_pass(on, columns, lefts, rights, pad, width)->Ok_0 =~= lefts.drop_last().map_values(f).flatten() + f(lefts.last())) by {
                if ms.len() == 0 && pad {
                    assert(ms =~= Seq::<Seq<Value>>::empty());
                }
            }
        }
    } else {
        assert(lefts.map_values(f) =~= Seq::<Seq<Seq<Value>>>::empty());
    }
}

proof fn lemma_right_pass_unmatched(
    on: Expr,
    columns: Seq<Seq<char>>,
    lefts: Seq<Seq<Value>>,
    rights: Seq<Seq<Value>>,
    width: nat,
)
    ensures
        right_pass(on, columns, lefts, rights, width) == rights.filter(unmatched_by(on, columns, lefts)).map_values(
            |r: Seq<Value>| nulls(width) + r,
        ),
    decreases rights.len(),
{
    reveal(Seq::filter);
    let g = |r: Seq<Value>| nulls(width) + r;
    if rights.len() > 0 {
        lemma_right_pass_unmatched(on, columns, lefts, rights.drop_last(), width);
        let r = rights.last();
        let kept = rights.drop_last().filter(unmatched_by(on, columns, lefts));
        assert(right_matched(on, columns, lefts, r) == !unmatched_by(on, columns, lefts)(r)) by {
            if right_matched(on, columns, lefts, r) {
                let i = choose|i: int| 0 <= i < lefts.len() && #[trigger] accepts(on, columns, lefts[i] + r) == Ok::<bool, ExecError>(true);
                assert(true_with(on, columns, lefts[i])(r));
            }
            if !unmatched_by(on, columns, lefts)(r) {
                let i = choose|i: int| 0 <= i < lefts.len() && #[trigger] true_with(on, columns, lefts[i])(r);
                assert(accepts(on, columns, lefts[i] + r) == Ok::<bool, ExecError>(true));
            }
        }
        if unmatched_by(on, columns, lefts)(r) {
            assert(rights.filter(unmatched_by(on, columns, lefts)) == kept.push(r));
            assert(kept.push(r).map_values(g) =~= kept.map_values(g).push(g(r)));
        } else {
            assert(rights.filter(unmatched_by(on, columns, lefts)) == kept);
        }
    } else {
        assert(rights.filter(unmatched_by(on, columns, lefts)).map_values(g) =~= Seq::<Seq<Value>>::empty());
    }
}

/// What a join returns: for each left row in order, that row joined with
/// every right row the condition is `true` for, in right order (NULL or
/// `false` rejects a pair); a `LEFT` or `FULL` join puts a left row without
/// any such pair padded with NULLs in their place; a `RIGHT` or `FULL` join
/// then adds each right row the condition holds for with no left row,
/// padded on the left with NULLs.
pub proof fn law_join_pairs_accepted_rows(
    left: RowSetView,
    right: RowSetView,
    left_table: Seq<char>,
    right_table: Seq<char>,
    on: Expr,
    kind: JoinKind,
)
    requires
        join_spec(left, right, left_table, right_table, on, kind) is Ok,
    ensures
        ({
            let columns = join_columns(left, right, left_table, right_table);
            let out = join_spec(left, right, left_table, right_table, on, kind)->Ok_0;
            let pad_left = kind == JoinKind::Left || kind == JoinKind::FullOuter;
            let joined = left.rows.map_values(
                |l: Seq<Value>| contribution(on, columns, l, right.rows, pad_left, right.columns.len()),
            ).flatten();
            let unmatched = right.rows.filter(unmatched_by(on, columns, left.rows)).map_values(
                |r: Seq<Value>| nulls(left.columns.len()) + r,
            );
            &&& out.columns == columns
            &&& out.rows == if kind == JoinKind::Right || kind == JoinKind::FullOuter {
                joined + unmatched
            } else {
                joined
            }
        }),
{
    let columns = join_columns(left, right, left_table, right_table);
    let pad_left = kind == JoinKind::Left || kind == JoinKind::FullOuter;
    lemma_left_pass_contributions(on, columns, left.rows, right.rows, pad_left, right.columns.len());
    lemma_right_pass_unmatched(on, columns, left.rows, right.rows, left.columns.len());
}

} // verus!
