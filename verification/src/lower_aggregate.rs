//! Lowering aggregate queries: `GROUP BY`, aggregate functions in the
//! projection, and `HAVING`.
use crate::ir::{
    aggregate_view, aggregates_view, expr_view, literal_view, plan_view, projection_view, strings_view, AggFunc,
    AggregateExpr, AggregateExprView, Expr, ExprView, LogicalPlan, LowerError, PlanView, Projection, ProjectionView,
};
use crate::key::str_eq;
use crate::lower::{collect_all, lemma_collect_error_persists, lemma_collect_step, lemma_collect_whole};
use crate::lower_expr::{
    binary_operator_spec, dotted, error_is, join_dotted, lower_binary_operator, lower_value, message, value_spec,
    views_of,
};
use crate::sql_ast::{
    SqlExpr, SqlExprKind, SqlFunction, SqlFunctionArg, SqlFunctionArgs, SqlGroupBy, SqlSelect, SqlSelectItem,
    SqlSelectItemKind,
};
use vstd::prelude::*;

verus! {

// ---------------------------------------------------------------------------
// Which queries aggregate
// ---------------------------------------------------------------------------
/// A projection item that calls a function, with or without an alias.
pub open spec fn is_function_item(item: SqlSelectItem) -> bool {
    match item.kind {
        SqlSelectItemKind::UnnamedExpr(e) => e.kind is Function,
        SqlSelectItemKind::ExprWithAlias { expr, .. } => expr.kind is Function,
        _ => false,
    }
}

/// A query aggregates when it groups by at least one expression or calls a
/// function in its projection.
pub open spec fn aggregate_query_spec(s: SqlSelect) -> bool {
    (match s.group_by {
        SqlGroupBy::Expressions(exprs) => exprs@.len() > 0,
        SqlGroupBy::All => false,
    }) || exists|i: int| 0 <= i < s.projection@.len() && #[trigger] is_function_item(s.projection@[i])
}

pub fn is_aggregate_query(select: &SqlSelect) -> (b: bool)
    ensures
        b == aggregate_query_spec(*select),
{
    let has_group_by = match &select.group_by {
        SqlGroupBy::Expressions(exprs) => exprs.len() > 0,
        SqlGroupBy::All => false,
    };
    let items = select.projection.as_slice();
    let mut has_function = false;
    let mut i: usize = 0;
    while i < items.len()
        invariant
            i <= items@.len(),
            items@ == select.projection@,
            has_function == exists|j: int| 0 <= j < i && #[trigger] is_function_item(items@[j]),
        decreases items.len() - i,
    {
        let here = match &items[i].kind {
            SqlSelectItemKind::UnnamedExpr(e) => matches!(e.kind, SqlExprKind::Function(_)),
            SqlSelectItemKind::ExprWithAlias { expr, .. } => matches!(expr.kind, SqlExprKind::Function(_)),
            _ => false,
        };
        assert(here == is_function_item(items@[i as int]));
        has_function = has_function || here;
        i = i + 1;
    }
    has_group_by || has_function
}

// ---------------------------------------------------------------------------
// Aggregate functions
// ---------------------------------------------------------------------------
/// What `str::to_uppercase` gives for a text: its Unicode upper case.
pub uninterp spec fn uppercase_of(s: Seq<char>) -> Seq<char>;

/// The ASCII upper case of a character: `a`..`z` become `A`..`Z`, every
/// other character stays.
pub open spec fn ascii_upper_char(c: char) -> char {
    if 'a' <= c && c <= 'z' {
        ((c as u32) - 32) as char
    } else {
        c
    }
}

/// Whether every character of the text is ASCII.
pub open spec fn all_ascii(s: Seq<char>) -> bool {
    forall|i: int| 0 <= i < s.len() ==> (#[trigger] s[i] as u32) < 128
}

/// `str::to_uppercase`: the Unicode upper case of the text, a function of
/// the text alone (named, because Unicode case mapping is not a short
/// rule). Trusted, as std documents it: on ASCII text it is the ASCII upper
/// case, character by character.
#[verifier::external_body]
fn to_uppercase(s: &String) -> (u: String)
    ensures
        u@ == uppercase_of(s@),
        all_ascii(s@) ==> u@ == s@.map_values(|c: char| ascii_upper_char(c)),
{
    s.to_uppercase()
}

/// The aggregate function an upper-case name calls.
pub open spec fn agg_func_of(upper: Seq<char>) -> Option<AggFunc> {
    if upper == "COUNT"@ {
        Some(AggFunc::Count)
    } else if upper == "SUM"@ {
        Some(AggFunc::Sum)
    } else if upper == "AVG"@ {
        Some(AggFunc::Avg)
    } else if upper == "MIN"@ {
        Some(AggFunc::Min)
    } else if upper == "MAX"@ {
        Some(AggFunc::Max)
    } else {
        None
    }
}

/// The column an aggregate reads: none for no arguments or `*`, else a
/// single plain column.
pub open spec fn agg_column_spec(args: SqlFunctionArgs) -> Result<Option<Seq<char>>, Seq<char>> {
    match args {
        SqlFunctionArgs::Absent => Ok(None),
        SqlFunctionArgs::Subquery => Err("subquery aggregate args not supported"@),
        SqlFunctionArgs::List { args, debug } => if args@.len() == 0 {
            Ok(None)
        } else if args@.len() == 1 && args@[0] is Wildcard {
            Ok(None)
        } else if args@.len() == 1 && (args@[0] matches SqlFunctionArg::Expr(e) && e.kind is Identifier) {
            Ok(Some(args@[0]->Expr_0.kind->Identifier_0@))
        } else {
            Err("aggregate function arg: "@ + debug@)
        },
    }
}

/// An aggregate call, given the upper case of its name: the function, its
/// column, and its output name (the alias, or `NAME(column)`, or `NAME(*)`).
/// Only `COUNT` may go without a column.
pub open spec fn aggregate_func_spec(upper: Seq<char>, func: SqlFunction, alias: Option<Seq<char>>) -> Result<
    AggregateExprView,
    Seq<char>,
> {
    match agg_func_of(upper) {
        None => Err("aggregate function: "@ + upper),
        Some(kind) => match agg_column_spec(func.args) {
            Err(m) => Err(m),
            Ok(column) => if column is None && kind != AggFunc::Count {
                Err(upper + "(*) not supported, "@ + upper + " needs a column"@)
            } else {
                Ok(
                    AggregateExprView {
                        func: kind,
                        column,
                        alias: match alias {
                            Some(a) => a,
                            None => match column {
                                Some(c) => upper + "("@ + c + ")"@,
                                None => upper + "(*)"@,
                            },
                        },
                    },
                )
            },
        },
    }
}

pub open spec fn aggregate_result_matches(r: Result<AggregateExpr, LowerError>, s: Result<AggregateExprView, Seq<char>>) -> bool {
    match (r, s) {
        (Ok(a), Ok(v)) => aggregate_view(a) == v,
        (Err(e), Err(m)) => error_is(e, m),
        _ => false,
    }
}

pub open spec fn option_view(s: Option<String>) -> Option<Seq<char>> {
    match s {
        Some(x) => Some(x@),
        None => None,
    }
}

fn text_is(a: &String, b: &str) -> (r: bool)
    ensures
        r == (a@ == b@),
{
    str_eq(a, &b.to_string())
}

fn concat(a: &String, b: &str) -> (c: String)
    ensures
        c@ == a@ + b@,
{
    let mut c = a.clone();
    c.append(b);
    c
}

fn agg_column(args: &SqlFunctionArgs) -> (r: Result<Option<String>, LowerError>)
    ensures
        match (r, agg_column_spec(*args)) {
            (Ok(a), Ok(x)) => option_view(a) == x,
            (Err(e), Err(m)) => error_is(e, m),
            _ => false,
        },
{
    match args {
        SqlFunctionArgs::Absent => Ok(None),
        SqlFunctionArgs::Subquery => Err(LowerError::Unsupported("subquery aggregate args not supported".to_string())),
        SqlFunctionArgs::List { args, debug } => {
            if args.len() == 0 {
                return Ok(None);
            }
            if args.len() == 1 {
                match &args[0] {
                    SqlFunctionArg::Wildcard => {
                        return Ok(None);
                    },
                    SqlFunctionArg::Expr(e) => match &e.kind {
                        SqlExprKind::Identifier(n) => {
                            return Ok(Some(n.clone()));
                        },
                        _ => {},
                    },
                    _ => {},
                }
            }
            Err(LowerError::Unsupported(message("aggregate function arg: ", debug)))
        },
    }
}

/// An aggregate call whose name, in upper case, is `upper`.
pub fn aggregate_from_name(upper: String, func: &SqlFunction, explicit_alias: Option<String>) -> (r: Result<
    AggregateExpr,
    LowerError,
>)
    ensures
        aggregate_result_matches(r, aggregate_func_spec(upper@, *func, option_view(explicit_alias))),
{
    let agg_func = if text_is(&upper, "COUNT") {
        AggFunc::Count
    } else if text_is(&upper, "SUM") {
        AggFunc::Sum
    } else if text_is(&upper, "AVG") {
        AggFunc::Avg
    } else if text_is(&upper, "MIN") {
        AggFunc::Min
    } else if text_is(&upper, "MAX") {
        AggFunc::Max
    } else {
        return Err(LowerError::Unsupported(message("aggregate function: ", &upper)));
    };
    let column = agg_column(&func.args)?;
    if column.is_none() && !matches!(agg_func, AggFunc::Count) {
        let mut m = concat(&upper, "(*) not supported, ");
        m.append(upper.as_str());
        m.append(" needs a column");
        return Err(LowerError::Unsupported(m));
    }
    let alias = match explicit_alias {
        Some(a) => a,
        None => match &column {
            Some(col) => {
                let mut a = concat(&upper, "(");
                a.append(col.as_str());
                a.append(")");
                a
            },
            None => concat(&upper, "(*)"),
        },
    };
    Ok(AggregateExpr { func: agg_func, column, alias })
}

/// An aggregate call: the function its name names (in any case), its
/// column, and its output name.
pub fn lower_aggregate_func(func: &SqlFunction, explicit_alias: Option<String>) -> (r: Result<
    AggregateExpr,
    LowerError,
>)
    ensures
        aggregate_result_matches(
            r,
            aggregate_func_spec(uppercase_of(func.name@), *func, option_view(explicit_alias)),
        ),
{
    let upper = to_uppercase(&func.name);
    aggregate_from_name(upper, func, explicit_alias)
}

// ---------------------------------------------------------------------------
// GROUP BY and the projection of an aggregate query
// ---------------------------------------------------------------------------
pub open spec fn group_item_spec(e: SqlExpr) -> Result<Seq<char>, Seq<char>> {
    match e.kind {
        SqlExprKind::Identifier(n) => Ok(n@),
        _ => Err("GROUP BY expression: "@ + e.debug@),
    }
}

pub open spec fn group_item_fn() -> spec_fn(SqlExpr) -> Result<Seq<char>, Seq<char>> {
    |e: SqlExpr| group_item_spec(e)
}

/// The grouping columns: plain column names only.
pub open spec fn group_by_spec(g: SqlGroupBy) -> Result<Seq<Seq<char>>, Seq<char>> {
    match g {
        SqlGroupBy::All => Err("GROUP BY ALL not supported"@),
        SqlGroupBy::Expressions(exprs) => collect_all(exprs@, group_item_fn()),
    }
}

/// A projection item of an aggregate query: an aggregate call (and its
/// output name) or a plain grouping column.
pub open spec fn agg_item_spec(item: SqlSelectItem) -> Result<(Option<AggregateExprView>, Seq<char>), Seq<char>> {
    let (expr, alias) = match item.kind {
        SqlSelectItemKind::UnnamedExpr(e) => (Some(e), None::<Seq<char>>),
        SqlSelectItemKind::ExprWithAlias { expr, alias } => (Some(expr), Some(alias@)),
        _ => (None, None),
    };
    match expr {
        None => Err("aggregate projection item: "@ + item.debug@),
        Some(e) => match e.kind {
            SqlExprKind::Function(f) => match aggregate_func_spec(uppercase_of(f.name@), f, alias) {
                Err(m) => Err(m),
                Ok(a) => Ok((Some(a), a.alias)),
            },
            SqlExprKind::Identifier(n) => Ok((None, n@)),
            _ => Err("SELECT item in aggregate query: "@ + e.debug@),
        },
    }
}

/// The aggregates the projection calls and the output columns it names, in
/// order, or the first error.
pub open spec fn agg_items_spec(items: Seq<SqlSelectItem>) -> Result<(Seq<AggregateExprView>, Seq<Seq<char>>), Seq<char>>
    decreases items.len(),
{
    if items.len() == 0 {
        Ok((Seq::empty(), Seq::empty()))
    } else {
        match agg_items_spec(items.drop_last()) {
            Err(m) => Err(m),
            Ok((aggs, outputs)) => match agg_item_spec(items.last()) {
                Err(m) => Err(m),
                Ok((Some(a), o)) => Ok((aggs.push(a), outputs.push(o))),
                Ok((None, o)) => Ok((aggs, outputs.push(o))),
            },
        }
    }
}

proof fn lemma_agg_items_error_persists(items: Seq<SqlSelectItem>, k: int)
    requires
        0 <= k <= items.len(),
        agg_items_spec(items.take(k)) is Err,
    ensures
        agg_items_spec(items) == agg_items_spec(items.take(k)),
    decreases items.len() - k,
{
    if k < items.len() {
        assert(items.take(k + 1).drop_last() =~= items.take(k));
        lemma_agg_items_error_persists(items, k + 1);
    } else {
        assert(items.take(k) =~= items);
    }
}

fn lower_group_by(group_by: &SqlGroupBy) -> (r: Result<Vec<String>, LowerError>)
    ensures
        match (r, group_by_spec(*group_by)) {
            (Ok(v), Ok(x)) => strings_view(v@) == x,
            (Err(e), Err(m)) => error_is(e, m),
            _ => false,
        },
{
    let exprs = match group_by {
        SqlGroupBy::All => return Err(LowerError::Unsupported("GROUP BY ALL not supported".to_string())),
        SqlGroupBy::Expressions(exprs) => exprs.as_slice(),
    };
    let ghost f = group_item_fn();
    let mut names: Vec<String> = Vec::new();
    let mut i: usize = 0;
    assert(exprs@.take(0) =~= Seq::<SqlExpr>::empty());
    assert(strings_view(names@) =~= Seq::<Seq<char>>::empty());
    while i < exprs.len()
        invariant
            i <= exprs@.len(),
            f == group_item_fn(),
            match *group_by {
                SqlGroupBy::Expressions(v) => v@ == exprs@,
                _ => false,
            },
            collect_all(exprs@.take(i as int), f) == Ok::<Seq<Seq<char>>, Seq<char>>(strings_view(names@)),
        decreases exprs.len() - i,
    {
        proof {
            lemma_collect_step(exprs@, f, i as int);
        }
        let name = match &exprs[i].kind {
            SqlExprKind::Identifier(n) => n.clone(),
            _ => {
                proof {
                    lemma_collect_error_persists(exprs@, f, i + 1);
                }
                return Err(LowerError::Unsupported(message("GROUP BY expression: ", &exprs[i].debug)));
            },
        };
        let ghost before = names@;
        names.push(name);
        assert(strings_view(names@) =~= strings_view(before).push(name@));
        i = i + 1;
    }
    proof {
        lemma_collect_whole(exprs@, f);
    }
    Ok(names)
}

fn lower_agg_item(item: &SqlSelectItem) -> (r: Result<(Option<AggregateExpr>, String), LowerError>)
    ensures
        match (r, agg_item_spec(*item)) {
            (Ok((a, o)), Ok((x, p))) => o@ == p && match (a, x) {
                (Some(a), Some(x)) => aggregate_view(a) == x,
                (None, None) => true,
                _ => false,
            },
            (Err(e), Err(m)) => error_is(e, m),
            _ => false,
        },
{
    let (expr, explicit_alias) = match &item.kind {
        SqlSelectItemKind::UnnamedExpr(e) => (e, None),
        SqlSelectItemKind::ExprWithAlias { expr, alias } => (expr, Some(alias.clone())),
        _ => return Err(LowerError::Unsupported(message("aggregate projection item: ", &item.debug))),
    };
    match &expr.kind {
        SqlExprKind::Function(f) => {
            let agg = lower_aggregate_func(f, explicit_alias)?;
            let output = agg.alias.clone();
            Ok((Some(agg), output))
        },
        SqlExprKind::Identifier(n) => Ok((None, n.clone())),
        _ => Err(LowerError::Unsupported(message("SELECT item in aggregate query: ", &expr.debug))),
    }
}

// ---------------------------------------------------------------------------
// HAVING
// ---------------------------------------------------------------------------
/// Whether an aggregate with this output name is among `aggs`.
pub open spec fn has_alias(aggs: Seq<AggregateExprView>, alias: Seq<char>) -> bool {
    exists|i: int| 0 <= i < aggs.len() && #[trigger] aggs[i].alias == alias
}

/// The aggregate calls of a `HAVING` predicate that are not yet computed:
/// each call (read left to right) is added to `collected` unless an
/// aggregate with its output name is in `existing` or `collected` already.
pub open spec fn having_aggregates_spec(e: SqlExpr, existing: Seq<AggregateExprView>, collected: Seq<AggregateExprView>) -> Result<
    Seq<AggregateExprView>,
    Seq<char>,
>
    decreases e,
{
    match e.kind {
        SqlExprKind::Function(f) => match aggregate_func_spec(uppercase_of(f.name@), f, None) {
            Err(m) => Err(m),
            Ok(a) => if has_alias(existing + collected, a.alias) {
                Ok(collected)
            } else {
                Ok(collected.push(a))
            },
        },
        SqlExprKind::BinaryOp { left, right, .. } => match having_aggregates_spec(*left, existing, collected) {
            Err(m) => Err(m),
            Ok(c) => having_aggregates_spec(*right, existing, c),
        },
        SqlExprKind::IsNull(inner) => having_aggregates_spec(*inner, existing, collected),
        SqlExprKind::IsNotNull(inner) => having_aggregates_spec(*inner, existing, collected),
        _ => Ok(collected),
    }
}

fn alias_present(aggs: &Vec<AggregateExpr>, alias: &String) -> (found: bool)
    ensures
        found == has_alias(aggregates_view(aggs@), alias@),
{
    let mut i: usize = 0;
    while i < aggs.len()
        invariant
            i <= aggs@.len(),
            forall|j: int| 0 <= j < i ==> #[trigger] aggs@[j].alias@ != alias@,
        decreases aggs.len() - i,
    {
        if str_eq(&aggs[i].alias, alias) {
            assert(aggregates_view(aggs@)[i as int].alias == alias@);
            return true;
        }
        i = i + 1;
    }
    assert forall|j: int| 0 <= j < aggregates_view(aggs@).len() implies #[trigger] aggregates_view(aggs@)[j].alias
        != alias@ by {
        assert(aggregates_view(aggs@)[j] == aggregate_view(aggs@[j]));
    }
    false
}

pub fn collect_having_aggregates(expr: &SqlExpr, existing: &Vec<AggregateExpr>, collected: &mut Vec<AggregateExpr>) -> (r:
    Result<(), LowerError>)
    ensures
        match (r, having_aggregates_spec(*expr, aggregates_view(existing@), aggregates_view(old(collected)@))) {
            (Ok(_), Ok(c)) => aggregates_view(final(collected)@) == c,
            (Err(e), Err(m)) => error_is(e, m),
            _ => false,
        },
    decreases expr,
{
    match &expr.kind {
        SqlExprKind::Function(f) => {
            let agg = lower_aggregate_func(f, None)?;
            let present = alias_present(existing, &agg.alias) || alias_present(collected, &agg.alias);
            proof {
                let ev = aggregates_view(existing@);
                let cv = aggregates_view(collected@);
                if has_alias(ev, agg.alias@) {
                    let i = choose|i: int| 0 <= i < ev.len() && #[trigger] ev[i].alias == agg.alias@;
                    assert((ev + cv)[i] == ev[i]);
                }
                if has_alias(cv, agg.alias@) {
                    let i = choose|i: int| 0 <= i < cv.len() && #[trigger] cv[i].alias == agg.alias@;
                    assert((ev + cv)[ev.len() + i] == cv[i]);
                }
                if has_alias(ev + cv, agg.alias@) {
                    let i = choose|i: int| 0 <= i < (ev + cv).len() && #[trigger] (ev + cv)[i].alias == agg.alias@;
                    if i < ev.len() {
                        assert(ev[i].alias == agg.alias@);
                    } else {
                        assert(cv[i - ev.len()].alias == agg.alias@);
                    }
                }
            }
            if !present {
                let ghost before = collected@;
                collected.push(agg);
                assert(aggregates_view(collected@) =~= aggregates_view(before).push(aggregate_view(agg)));
            }
            Ok(())
        },
        SqlExprKind::BinaryOp { left, right, .. } => {
            collect_having_aggregates(left, existing, collected)?;
            collect_having_aggregates(right, existing, collected)
        },
        SqlExprKind::IsNull(inner) => collect_having_aggregates(inner, existing, collected),
        SqlExprKind::IsNotNull(inner) => collect_having_aggregates(inner, existing, collected),
        _ => Ok(()),
    }
}

/// A `HAVING` predicate reads each aggregate call as the column the
/// aggregate computes (its output name).
pub open spec fn having_spec(e: SqlExpr) -> Result<ExprView, Seq<char>>
    decreases e,
{
    match e.kind {
        SqlExprKind::Function(f) => match aggregate_func_spec(uppercase_of(f.name@), f, None) {
            Err(m) => Err(m),
            Ok(a) => Ok(ExprView::Column(a.alias)),
        },
        SqlExprKind::Identifier(n) => Ok(ExprView::Column(n@)),
        SqlExprKind::CompoundIdentifier(parts) => Ok(ExprView::Column(dotted(views_of(parts@)))),
        SqlExprKind::Value { value, .. } => match value_spec(value) {
            Ok(l) => Ok(ExprView::Literal(l)),
            Err(m) => Err(m),
        },
        SqlExprKind::BinaryOp { left, op, right } => match having_spec(*left) {
            Err(m) => Err(m),
            Ok(l) => match binary_operator_spec(op) {
                Err(m) => Err(m),
                Ok(o) => match having_spec(*right) {
                    Err(m) => Err(m),
                    Ok(r) => Ok(ExprView::BinaryOp(Box::new(l), o, Box::new(r))),
                },
            },
        },
        SqlExprKind::IsNull(inner) => match having_spec(*inner) {
            Err(m) => Err(m),
            Ok(x) => Ok(ExprView::IsNull(Box::new(x), false)),
        },
        SqlExprKind::IsNotNull(inner) => match having_spec(*inner) {
            Err(m) => Err(m),
            Ok(x) => Ok(ExprView::IsNull(Box::new(x), true)),
        },
        _ => Err("HAVING expression: "@ + e.debug@),
    }
}

pub fn lower_having_predicate(expr: &SqlExpr) -> (r: Result<Expr, LowerError>)
    ensures
        match (r, having_spec(*expr)) {
            (Ok(x), Ok(v)) => expr_view(x) == v,
            (Err(e), Err(m)) => error_is(e, m),
            _ => false,
        },
    decreases expr,
{
    match &expr.kind {
        SqlExprKind::Function(f) => {
            let agg = lower_aggregate_func(f, None)?;
            Ok(Expr::Column(agg.alias))
        },
        SqlExprKind::Identifier(n) => Ok(Expr::Column(n.clone())),
        SqlExprKind::CompoundIdentifier(parts) => Ok(Expr::Column(join_dotted(parts))),
        SqlExprKind::Value { value, .. } => match lower_value(value) {
            Ok(l) => Ok(Expr::Literal(l)),
            Err(e) => Err(e),
        },
        SqlExprKind::BinaryOp { left, op, right } => {
            let l = lower_having_predicate(left)?;
            let o = lower_binary_operator(op)?;
            let r = lower_having_predicate(right)?;
            Ok(Expr::BinaryOp { left: Box::new(l), op: o, right: Box::new(r) })
        },
        SqlExprKind::IsNull(inner) => {
            let x = lower_having_predicate(inner)?;
            Ok(Expr::IsNull { expr: Box::new(x), negated: false })
        },
        SqlExprKind::IsNotNull(inner) => {
            let x = lower_having_predicate(inner)?;
            Ok(Expr::IsNull { expr: Box::new(x), negated: true })
        },
        _ => Err(LowerError::Unsupported(message("HAVING expression: ", &expr.debug))),
    }
}

// ---------------------------------------------------------------------------
// The aggregate plan
// ---------------------------------------------------------------------------
/// An aggregate query over `input`: the `Aggregate` node computes the
/// aggregates of the projection and then those that only `HAVING` calls;
/// `HAVING` filters its output; the projection keeps the output columns in
/// the order the query names them. The parts are lowered in that order and
/// the first error is reported.
pub open spec fn aggregate_spec(s: SqlSelect, input: PlanView) -> Result<(PlanView, ProjectionView), Seq<char>> {
    match group_by_spec(s.group_by) {
        Err(m) => Err(m),
        Ok(groups) => match agg_items_spec(s.projection@) {
            Err(m) => Err(m),
            Ok((aggs, outputs)) => match (match s.having {
                None => Ok(Seq::<AggregateExprView>::empty()),
                Some(h) => having_aggregates_spec(h, aggs, Seq::empty()),
            }) {
                Err(m) => Err(m),
                Ok(extra) => {
                    let agg_plan = PlanView::Aggregate(Box::new(input), groups, aggs + extra);
                    match s.having {
                        None => Ok((agg_plan, ProjectionView::Columns(outputs))),
                        Some(h) => match having_spec(h) {
                            Err(m) => Err(m),
                            Ok(p) => Ok((PlanView::Filter(Box::new(agg_plan), p), ProjectionView::Columns(outputs))),
                        },
                    }
                },
            },
        },
    }
}

pub fn lower_aggregate(select: &SqlSelect, input: LogicalPlan) -> (r: Result<(LogicalPlan, Projection), LowerError>)
    ensures
        match (r, aggregate_spec(*select, plan_view(input))) {
            (Ok((p, c)), Ok((v, w))) => plan_view(p) == v && projection_view(c) == w,
            (Err(e), Err(m)) => error_is(e, m),
            _ => false,
        },
{
    let ghost input_view = plan_view(input);
    let group_by = lower_group_by(&select.group_by)?;
    let items = select.projection.as_slice();
    let mut aggregates: Vec<AggregateExpr> = Vec::new();
    let mut output_columns: Vec<String> = Vec::new();
    let mut i: usize = 0;
    assert(items@.take(0) =~= Seq::<SqlSelectItem>::empty());
    assert(aggregates_view(aggregates@) =~= Seq::<AggregateExprView>::empty());
    assert(strings_view(output_columns@) =~= Seq::<Seq<char>>::empty());
    while i < items.len()
        invariant
            i <= items@.len(),
            items@ == select.projection@,
            group_by_spec(select.group_by) == Ok::<Seq<Seq<char>>, Seq<char>>(strings_view(group_by@)),
            agg_items_spec(items@.take(i as int)) == Ok::<(Seq<AggregateExprView>, Seq<Seq<char>>), Seq<char>>(
                (aggregates_view(aggregates@), strings_view(output_columns@)),
            ),
        decreases items.len() - i,
    {
        proof {
            assert(items@.take(i + 1).drop_last() =~= items@.take(i as int));
            assert(items@.take(i + 1).last() == items@[i as int]);
        }
        let (agg, output) = match lower_agg_item(&items[i]) {
            Ok(x) => x,
            Err(e) => {
                proof {
                    lemma_agg_items_error_persists(items@, i + 1);
                }
                return Err(e);
            },
        };
        let ghost before_aggs = aggregates@;
        let ghost before_outputs = output_columns@;
        let ghost output_view = output@;
        output_columns.push(output);
        assert(strings_view(output_columns@) =~= strings_view(before_outputs).push(output_view));
        match agg {
            Some(a) => {
                let ghost av = aggregate_view(a);
                aggregates.push(a);
                assert(aggregates_view(aggregates@) =~= aggregates_view(before_aggs).push(av));
            },
            None => {},
        }
        i = i + 1;
    }
    assert(items@.take(items@.len() as int) =~= items@);
    let mut having_only: Vec<AggregateExpr> = Vec::new();
    assert(aggregates_view(having_only@) =~= Seq::<AggregateExprView>::empty());
    match &select.having {
        Some(h) => collect_having_aggregates(h, &aggregates, &mut having_only)?,
        None => {},
    }
    let ghost aggs_view = aggregates_view(aggregates@);
    let ghost extra_view = aggregates_view(having_only@);
    aggregates.append(&mut having_only);
    assert(aggregates_view(aggregates@) =~= aggs_view + extra_view);
    let aggregate_plan = LogicalPlan::Aggregate { input: Box::new(input), group_by, aggregates };
    let ghost agg_view = plan_view(aggregate_plan);
    assert(agg_view == PlanView::Aggregate(Box::new(input_view), strings_view(group_by@), aggs_view + extra_view));
    let plan = match &select.having {
        Some(h) => {
            let p = lower_having_predicate(h)?;
            let f = LogicalPlan::Filter { input: Box::new(aggregate_plan), predicate: p };
            assert(plan_view(f) == PlanView::Filter(Box::new(agg_view), expr_view(p)));
            f
        },
        None => aggregate_plan,
    };
    Ok((plan, Projection::Columns(output_columns)))
}

} // verus!
