//! Choosing index access paths: a filter over a sequential scan becomes an
//! index scan or a range index scan when its predicate compares an indexed
//! column with a literal, and a nested-loop join whose right side is a
//! sequential scan becomes an index nested-loop join when it joins on an
//! indexed column of that table.
use crate::ir::{BinaryOperator, Expr, JoinKind, Literal, PhysicalPlan};
use vstd::prelude::*;

verus! {

/// An index registered in the catalog.
#[derive(Debug)]
pub struct IndexDef {
    pub name: String,
    pub table: String,
    pub column: String,
}

/// The indexes of a database, in the order they were created.
#[derive(Debug)]
pub struct IndexCatalog {
    pub indexes: Vec<IndexDef>,
}

/// The first index of `table` on `column`.
pub open spec fn index_lookup(indexes: Seq<IndexDef>, table: Seq<char>, column: Seq<char>) -> Option<String>
    decreases indexes.len(),
{
    if indexes.len() == 0 {
        None
    } else if indexes[0].table@ == table && indexes[0].column@ == column {
        Some(indexes[0].name)
    } else {
        index_lookup(indexes.drop_first(), table, column)
    }
}

fn string_eq(a: &String, b: &String) -> (eq: bool)
    ensures
        eq == (a@ == b@),
{
    a.eq(b)
}

impl IndexCatalog {
    pub open spec fn defs(&self) -> Seq<IndexDef> {
        self.indexes@
    }

    /// The name of the first index of `table` on `column`, if any.
    pub fn index_for(&self, table: &String, column: &String) -> (name: Option<String>)
        ensures
            name == index_lookup(self.indexes@, table@, column@),
    {
        let mut i: usize = 0;
        assert(self.indexes@.skip(0) =~= self.indexes@);
        while i < self.indexes.len()
            invariant
                i <= self.indexes@.len(),
                index_lookup(self.indexes@, table@, column@) == index_lookup(self.indexes@.skip(i as int), table@, column@),
            decreases self.indexes.len() - i,
        {
            proof {
                assert(self.indexes@.skip(i as int)[0] == self.indexes@[i as int]);
                assert(self.indexes@.skip(i as int).drop_first() =~= self.indexes@.skip(i + 1));
            }
            let def = &self.indexes[i];
            if string_eq(&def.table, table) && string_eq(&def.column, column) {
                return Some(def.name.clone());
            }
            i = i + 1;
        }
        None
    }
}

/// Whether `s` starts with `prefix` followed by a dot.
pub open spec fn has_qualifier(s: Seq<char>, prefix: Seq<char>) -> bool {
    prefix.len() + 1 <= s.len() && s.subrange(0, prefix.len() as int) == prefix && s[prefix.len() as int] == '.'
}

/// Whether `s` starts with `prefix` followed by a dot.
pub fn starts_with_qualifier(s: &String, prefix: &String) -> (r: bool)
    ensures
        r == has_qualifier(s@, prefix@),
{
    let x = s.as_str();
    let p = prefix.as_str();
    let n = x.unicode_len();
    let m = p.unicode_len();
    if m >= n {
        return false;
    }
    let mut i: usize = 0;
    while i < m
        invariant
            i <= m,
            m < n,
            n == s@.len(),
            m == prefix@.len(),
            x@ == s@,
            p@ == prefix@,
            forall|j: int| 0 <= j < i ==> s@[j] == prefix@[j],
        decreases m - i,
    {
        if x.get_char(i) != p.get_char(i) {
            assert(s@.subrange(0, m as int)[i as int] != prefix@[i as int]);
            return false;
        }
        i = i + 1;
    }
    assert(s@.subrange(0, m as int) =~= prefix@);
    x.get_char(m) == '.'
}

/// `qualified` without its leading `expected_qualifier.`, if it has it.
pub fn strip_qualifier(qualified: &String, expected_qualifier: &String) -> (stripped: Option<String>)
    ensures
        match stripped {
            Some(s) => has_qualifier(qualified@, expected_qualifier@) && s@ == qualified@.subrange(
                expected_qualifier@.len() + 1int,
                qualified@.len() as int,
            ),
            None => !has_qualifier(qualified@, expected_qualifier@),
        },
{
    if !starts_with_qualifier(qualified, expected_qualifier) {
        return None;
    }
    let q = qualified.as_str();
    let n = q.unicode_len();
    let start = expected_qualifier.as_str().unicode_len() + 1;
    let rest = q.substring_char(start, n);
    Some(rest.to_string())
}

/// `(column, literal)` when `expr` is `column = literal` or `literal = column`.
pub open spec fn equality_spec(expr: Expr) -> Option<(String, Literal)> {
    match expr {
        Expr::BinaryOp { left, op: BinaryOperator::Eq, right } => match (*left, *right) {
            (Expr::Column(c), Expr::Literal(l)) => Some((c, l)),
            (Expr::Literal(l), Expr::Column(c)) => Some((c, l)),
            _ => None,
        },
        _ => None,
    }
}

/// `(column, bound, inclusive, is_lower_bound)` when `expr` compares a column
/// with a literal by `<`, `<=`, `>` or `>=`, in either operand order: `age >
/// 30` and `30 < age` both give a lower bound.
pub open spec fn comparison_spec(expr: Expr) -> Option<(String, Literal, bool, bool)> {
    match expr {
        Expr::BinaryOp { left, op, right } => match (*left, *right) {
            (Expr::Column(c), Expr::Literal(l)) => match op {
                BinaryOperator::Gt => Some((c, l, false, true)),
                BinaryOperator::GtEq => Some((c, l, true, true)),
                BinaryOperator::Lt => Some((c, l, false, false)),
                BinaryOperator::LtEq => Some((c, l, true, false)),
                _ => None,
            },
            (Expr::Literal(l), Expr::Column(c)) => match op {
                BinaryOperator::Lt => Some((c, l, false, true)),
                BinaryOperator::LtEq => Some((c, l, true, true)),
                BinaryOperator::Gt => Some((c, l, false, false)),
                BinaryOperator::GtEq => Some((c, l, true, false)),
                _ => None,
            },
            _ => None,
        },
        _ => None,
    }
}

pub fn equality_on_literal(expr: &Expr) -> (found: Option<(String, Literal)>)
    ensures
        found == equality_spec(*expr),
{
    match expr {
        Expr::BinaryOp { left, op: BinaryOperator::Eq, right } => match (&**left, &**right) {
            (Expr::Column(col), Expr::Literal(lit)) => Some((col.clone(), lit.copy())),
            (Expr::Literal(lit), Expr::Column(col)) => Some((col.clone(), lit.copy())),
            _ => None,
        },
        _ => None,
    }
}

/// Returns `(column, bound, inclusive, is_lower_bound)`.
pub fn comparison_on_literal(expr: &Expr) -> (found: Option<(String, Literal, bool, bool)>)
    ensures
        found == comparison_spec(*expr),
{
    match expr {
        Expr::BinaryOp { left, op, right } => match (&**left, &**right) {
            (Expr::Column(col), Expr::Literal(lit)) => match op {
                BinaryOperator::Gt => Some((col.clone(), lit.copy(), false, true)),
                BinaryOperator::GtEq => Some((col.clone(), lit.copy(), true, true)),
                BinaryOperator::Lt => Some((col.clone(), lit.copy(), false, false)),
                BinaryOperator::LtEq => Some((col.clone(), lit.copy(), true, false)),
                _ => None,
            },
            (Expr::Literal(lit), Expr::Column(col)) => match op {
                BinaryOperator::Lt => Some((col.clone(), lit.copy(), false, true)),
                BinaryOperator::LtEq => Some((col.clone(), lit.copy(), true, true)),
                BinaryOperator::Gt => Some((col.clone(), lit.copy(), false, false)),
                BinaryOperator::GtEq => Some((col.clone(), lit.copy(), true, false)),
                _ => None,
            },
            _ => None,
        },
        _ => None,
    }
}

/// The index access path for filtering `table` by `predicate`, if one
/// applies:
/// - `col IS NULL` on an indexed column: an index scan for the NULL key;
///   `col IS NOT NULL`: a range scan of every key below NULL (NULL sorts
///   above every other key);
/// - `col = literal` on an indexed column: an index scan for that key;
/// - `col < literal` and the like: a range scan with one bound.
/// A comparison with a NULL literal is never rewritten (it is never true).
pub open spec fn rewrite_spec(table: String, predicate: Expr, indexes: Seq<IndexDef>) -> Option<PhysicalPlan> {
    if predicate is IsNull && *predicate->IsNull_expr matches Expr::Column(_) {
        let column = predicate->IsNull_expr->Column_0;
        match index_lookup(indexes, table@, column@) {
            None => None,
            Some(index_name) => Some(
                if !predicate->IsNull_negated {
                    PhysicalPlan::IndexScan { table, index_name, key: Literal::Null }
                } else {
                    PhysicalPlan::RangeIndexScan {
                        table,
                        index_name,
                        lower: None,
                        upper: Some((Literal::Null, false)),
                    }
                },
            ),
        }
    } else if equality_spec(predicate) is Some {
        let (column, key) = equality_spec(predicate)->0;
        if key is Null {
            None
        } else {
            match index_lookup(indexes, table@, column@) {
                None => None,
                Some(index_name) => Some(PhysicalPlan::IndexScan { table, index_name, key }),
            }
        }
    } else if comparison_spec(predicate) is Some {
        let (column, bound, inclusive, lower_side) = comparison_spec(predicate)->0;
        if bound is Null {
            None
        } else {
            match index_lookup(indexes, table@, column@) {
                None => None,
                Some(index_name) => Some(
                    if lower_side {
                        PhysicalPlan::RangeIndexScan { table, index_name, lower: Some((bound, inclusive)), upper: None }
                    } else {
                        PhysicalPlan::RangeIndexScan { table, index_name, lower: None, upper: Some((bound, inclusive)) }
                    },
                ),
            }
        }
    } else {
        None
    }
}

pub fn try_rewrite(table: &String, predicate: &Expr, catalog: &IndexCatalog) -> (rewrite: Option<PhysicalPlan>)
    ensures
        rewrite == rewrite_spec(*table, *predicate, catalog.indexes@),
{
    if let Expr::IsNull { expr, negated } = predicate {
        if let Expr::Column(column) = &**expr {
            let index_name = catalog.index_for(table, column)?;
            return Some(
                if !*negated {
                    PhysicalPlan::IndexScan { table: table.clone(), index_name, key: Literal::Null }
                } else {
                    PhysicalPlan::RangeIndexScan {
                        table: table.clone(),
                        index_name,
                        lower: None,
                        upper: Some((Literal::Null, false)),
                    }
                },
            );
        }
    }
    if let Some((column, key)) = equality_on_literal(predicate) {
        if matches!(key, Literal::Null) {
            return None;
        }
        let index_name = catalog.index_for(table, &column)?;
        return Some(PhysicalPlan::IndexScan { table: table.clone(), index_name, key });
    }
    if let Some((column, bound, inclusive, lower_side)) = comparison_on_literal(predicate) {
        if matches!(bound, Literal::Null) {
            return None;
        }
        let index_name = catalog.index_for(table, &column)?;
        let (lower, upper) = if lower_side {
            (Some((bound, inclusive)), None)
        } else {
            (None, Some((bound, inclusive)))
        };
        return Some(PhysicalPlan::RangeIndexScan { table: table.clone(), index_name, lower, upper });
    }
    None
}

/// The columns of a join condition `left_col = right_col`, oriented so that
/// the first belongs to the left table (it carries the `left_table.`
/// qualifier) and the second is the right column with the right
/// qualifier stripped. `None` when the condition has another shape or the
/// right column does not carry the right qualifier.
pub open spec fn join_columns_spec(left_table: String, right_qualifier: String, on: Expr) -> Option<(String, Seq<char>)> {
    match on {
        Expr::BinaryOp { left, op: BinaryOperator::Eq, right } => match (*left, *right) {
            (Expr::Column(l), Expr::Column(r)) => if has_qualifier(l@, left_table@) {
                if has_qualifier(r@, right_qualifier@) {
                    Some((l, r@.subrange(right_qualifier@.len() + 1int, r@.len() as int)))
                } else {
                    None
                }
            } else if has_qualifier(r@, left_table@) {
                if has_qualifier(l@, right_qualifier@) {
                    Some((r, l@.subrange(right_qualifier@.len() + 1int, l@.len() as int)))
                } else {
                    None
                }
            } else {
                None
            },
            _ => None,
        },
        _ => None,
    }
}

fn join_columns(left_table: &String, right_qualifier: &String, on: &Expr) -> (cols: Option<(String, String)>)
    ensures
        match cols {
            Some((l, r)) => join_columns_spec(*left_table, *right_qualifier, *on) == Some((l, r@)),
            None => join_columns_spec(*left_table, *right_qualifier, *on) is None,
        },
{
    let (on_left, on_right) = match on {
        Expr::BinaryOp { left, op: BinaryOperator::Eq, right } => (left, right),
        _ => {
            return None;
        },
    };
    match (&**on_left, &**on_right) {
        (Expr::Column(l), Expr::Column(r)) => {
            if starts_with_qualifier(l, left_table) {
                let right_col = strip_qualifier(r, right_qualifier)?;
                Some((l.clone(), right_col))
            } else if starts_with_qualifier(r, left_table) {
                let right_col = strip_qualifier(l, right_qualifier)?;
                Some((r.clone(), right_col))
            } else {
                None
            }
        },
        _ => None,
    }
}

/// The index nested-loop join for a join whose right side scans
/// `right_real`, if its condition is an equality between a left column and
/// an indexed column of the right table.
pub open spec fn index_join_spec(
    left: PhysicalPlan,
    left_table: String,
    right_qualifier: String,
    right_real: String,
    on: Expr,
    kind: JoinKind,
    indexes: Seq<IndexDef>,
) -> Option<PhysicalPlan> {
    match join_columns_spec(left_table, right_qualifier, on) {
        Some((left_col, right_col)) => match index_lookup(indexes, right_real@, right_col) {
            Some(index_name) => Some(
                PhysicalPlan::IndexNestedLoopJoin {
                    left: Box::new(left),
                    left_table,
                    right_table_real: right_real,
                    right_table_qualifier: right_qualifier,
                    right_index_name: index_name,
                    left_join_column: left_col,
                    kind,
                },
            ),
            None => None,
        },
        None => None,
    }
}

/// Tries to turn a join into an index nested-loop join. On success the
/// rewritten plan owns `left`; otherwise `left` is handed back unchanged.
pub fn try_index_join(
    left: PhysicalPlan,
    left_table: &String,
    right_qualifier: &String,
    right_real: &String,
    on: &Expr,
    kind: JoinKind,
    catalog: &IndexCatalog,
) -> (rewrite: Result<PhysicalPlan, PhysicalPlan>)
    ensures
        match rewrite {
            Ok(p) => index_join_spec(left, *left_table, *right_qualifier, *right_real, *on, kind, catalog.indexes@) == Some(p),
            Err(l) => index_join_spec(left, *left_table, *right_qualifier, *right_real, *on, kind, catalog.indexes@) is None
                && l == left,
        },
{
    let (left_col, right_col) = match join_columns(left_table, right_qualifier, on) {
        Some(cols) => cols,
        None => {
            return Err(left);
        },
    };
    let index_name = match catalog.index_for(right_real, &right_col) {
        Some(name) => name,
        None => {
            return Err(left);
        },
    };
    Ok(
        PhysicalPlan::IndexNestedLoopJoin {
            left: Box::new(left),
            left_table: left_table.clone(),
            right_table_real: right_real.clone(),
            right_table_qualifier: right_qualifier.clone(),
            right_index_name: index_name,
            left_join_column: left_col,
            kind,
        },
    )
}

/// A physical plan with index access paths chosen where they apply.
pub open spec fn plan_spec(plan: PhysicalPlan, indexes: Seq<IndexDef>) -> PhysicalPlan
    decreases plan,
{
    match plan {
        PhysicalPlan::Filter { input, predicate } => {
            if *input is SeqScan && rewrite_spec(input->SeqScan_table, predicate, indexes) is Some {
                rewrite_spec(input->SeqScan_table, predicate, indexes)->0
            } else {
                PhysicalPlan::Filter { input: Box::new(plan_spec(*input, indexes)), predicate }
            }
        },
        PhysicalPlan::Project { input, columns } => PhysicalPlan::Project {
            input: Box::new(plan_spec(*input, indexes)),
            columns,
        },
        PhysicalPlan::NestedLoopJoin { left, right, left_table, right_table, on, kind } => {
            let new_left = plan_spec(*left, indexes);
            if *right is SeqScan && index_join_spec(new_left, left_table, right_table, right->SeqScan_table, on, kind, indexes) is Some {
                index_join_spec(new_left, left_table, right_table, right->SeqScan_table, on, kind, indexes)->0
            } else {
                PhysicalPlan::NestedLoopJoin {
                    left: Box::new(new_left),
                    right: Box::new(plan_spec(*right, indexes)),
                    left_table,
                    right_table,
                    on,
                    kind,
                }
            }
        },
        other => other,
    }
}

/// Chooses index access paths for a physical plan, given the catalog's
/// indexes.
pub fn plan_index_scans(plan: PhysicalPlan, catalog: &IndexCatalog) -> (planned: PhysicalPlan)
    ensures
        planned == plan_spec(plan, catalog.indexes@),
    decreases plan,
{
    match plan {
        PhysicalPlan::Filter { input, predicate } => {
            if let PhysicalPlan::SeqScan { table } = &*input {
                if let Some(rewrite) = try_rewrite(table, &predicate, catalog) {
                    return rewrite;
                }
            }
            PhysicalPlan::Filter { input: Box::new(plan_index_scans(*input, catalog)), predicate }
        },
        PhysicalPlan::Project { input, columns } => PhysicalPlan::Project {
            input: Box::new(plan_index_scans(*input, catalog)),
            columns,
        },
        PhysicalPlan::NestedLoopJoin { left, right, left_table, right_table, on, kind } => {
            let left = plan_index_scans(*left, catalog);
            let left = if let PhysicalPlan::SeqScan { table: right_real } = &*right {
                match try_index_join(left, &left_table, &right_table, right_real, &on, kind, catalog) {
                    Ok(rewrite) => {
                        return rewrite;
                    },
                    Err(left) => left,
                }
            } else {
                left
            };
            PhysicalPlan::NestedLoopJoin {
                left: Box::new(left),
                right: Box::new(plan_index_scans(*right, catalog)),
                left_table,
                right_table,
                on,
                kind,
            }
        },
        other => other,
    }
}

/// With no indexes in the catalog, choosing access paths changes nothing.
pub proof fn law_no_indexes_no_rewrite(plan: PhysicalPlan)
    ensures
        plan_spec(plan, Seq::<IndexDef>::empty()) == plan,
    decreases plan,
{
    match plan {
        PhysicalPlan::Filter { input, predicate } => {
            law_no_indexes_no_rewrite(*input);
        },
        PhysicalPlan::Project { input, .. } => {
            law_no_indexes_no_rewrite(*input);
        },
        PhysicalPlan::NestedLoopJoin { left, right, .. } => {
            law_no_indexes_no_rewrite(*left);
            law_no_indexes_no_rewrite(*right);
        },
        _ => {},
    }
}

/// Every rewrite of a filter reads through an index that the catalog holds
/// for the filtered table, and keeps the table.
pub proof fn law_rewrite_uses_catalog_index(table: String, predicate: Expr, indexes: Seq<IndexDef>)
    requires
        rewrite_spec(table, predicate, indexes) is Some,
    ensures
        ({
            let p = rewrite_spec(table, predicate, indexes)->0;
            match p {
                PhysicalPlan::IndexScan { table: t, index_name, .. } => t == table && exists|c: Seq<char>| index_lookup(indexes, table@, c) == Some(index_name),
                PhysicalPlan::RangeIndexScan { table: t, index_name, .. } => t == table && exists|c: Seq<char>| index_lookup(indexes, table@, c) == Some(index_name),
                _ => false,
            }
        }),
{
    if predicate is IsNull && *predicate->IsNull_expr matches Expr::Column(_) {
        let c = predicate->IsNull_expr->Column_0@;
        assert(index_lookup(indexes, table@, c) is Some);
    } else if equality_spec(predicate) is Some {
        let found = equality_spec(predicate)->0;
        let c = found.0@;
        assert(index_lookup(indexes, table@, c) is Some);
    } else {
        let found = comparison_spec(predicate)->0;
        let c = found.0@;
        assert(index_lookup(indexes, table@, c) is Some);
    }
}

/// How a comparison of an indexed column with a non-NULL literal becomes a
/// range scan: `column > k` and `k < column` read the keys above `k`,
/// `column >= k` and `k <= column` those from `k` up, `column < k` and
/// `k > column` those below `k`, and `column <= k` and `k >= column` those up
/// to `k`; each through the first index of the table on that column.
pub proof fn law_comparisons_become_range_scans(table: String, column: String, k: Literal, indexes: Seq<IndexDef>)
    requires
        !(k is Null),
        index_lookup(indexes, table@, column@) is Some,
    ensures
        ({
            let index_name = index_lookup(indexes, table@, column@)->Some_0;
            let col = Box::new(Expr::Column(column));
            let lit = Box::new(Expr::Literal(k));
            let above = |inclusive: bool|
                Some(PhysicalPlan::RangeIndexScan { table, index_name, lower: Some((k, inclusive)), upper: None });
            let below = |inclusive: bool|
                Some(PhysicalPlan::RangeIndexScan { table, index_name, lower: None, upper: Some((k, inclusive)) });
            &&& rewrite_spec(table, Expr::BinaryOp { left: col, op: BinaryOperator::Gt, right: lit }, indexes) == above(false)
            &&& rewrite_spec(table, Expr::BinaryOp { left: col, op: BinaryOperator::GtEq, right: lit }, indexes) == above(true)
            &&& rewrite_spec(table, Expr::BinaryOp { left: col, op: BinaryOperator::Lt, right: lit }, indexes) == below(false)
            &&& rewrite_spec(table, Expr::BinaryOp { left: col, op: BinaryOperator::LtEq, right: lit }, indexes) == below(true)
            &&& rewrite_spec(table, Expr::BinaryOp { left: lit, op: BinaryOperator::Lt, right: col }, indexes) == above(false)
            &&& rewrite_spec(table, Expr::BinaryOp { left: lit, op: BinaryOperator::LtEq, right: col }, indexes) == above(true)
            &&& rewrite_spec(table, Expr::BinaryOp { left: lit, op: BinaryOperator::Gt, right: col }, indexes) == below(false)
            &&& rewrite_spec(table, Expr::BinaryOp { left: lit, op: BinaryOperator::GtEq, right: col }, indexes) == below(true)
        }),
{
}

/// How an equality or a NULL test on an indexed column becomes an index
/// read: `column = k` and `k = column` look `k` up for a non-NULL literal,
/// `column IS NULL` looks NULL up, and `column IS NOT NULL` reads every key
/// below NULL; each through the first index of the table on that column.
pub proof fn law_equalities_become_index_scans(table: String, column: String, k: Literal, indexes: Seq<IndexDef>)
    requires
        !(k is Null),
        index_lookup(indexes, table@, column@) is Some,
    ensures
        ({
            let index_name = index_lookup(indexes, table@, column@)->Some_0;
            let col = Box::new(Expr::Column(column));
            let lit = Box::new(Expr::Literal(k));
            &&& rewrite_spec(table, Expr::BinaryOp { left: col, op: BinaryOperator::Eq, right: lit }, indexes)
                == Some(PhysicalPlan::IndexScan { table, index_name, key: k })
            &&& rewrite_spec(table, Expr::BinaryOp { left: lit, op: BinaryOperator::Eq, right: col }, indexes)
                == Some(PhysicalPlan::IndexScan { table, index_name, key: k })
            &&& rewrite_spec(table, Expr::IsNull { expr: col, negated: false }, indexes)
                == Some(PhysicalPlan::IndexScan { table, index_name, key: Literal::Null })
            &&& rewrite_spec(table, Expr::IsNull { expr: col, negated: true }, indexes) == Some(
                PhysicalPlan::RangeIndexScan { table, index_name, lower: None, upper: Some((Literal::Null, false)) },
            )
        }),
{
}

} // verus!
