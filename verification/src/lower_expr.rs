//! Lowering SQL expressions, literals and operators to the IR.
use crate::ir::{expr_view, literal_view, BinaryOperator, Expr, ExprView, Literal, LiteralView, LowerError};
use crate::sql_ast::{SqlBinaryOperator, SqlExpr, SqlExprKind, SqlValue};
use vstd::prelude::*;

verus! {

// ---------------------------------------------------------------------------
// Text helpers
// ---------------------------------------------------------------------------
/// `prefix` followed by `detail`.
pub fn message(prefix: &str, detail: &String) -> (m: String)
    ensures
        m@ == prefix@ + detail@,
{
    let mut m = prefix.to_string();
    m.append(detail.as_str());
    m
}

/// The parts joined with dots.
pub open spec fn dotted(parts: Seq<Seq<char>>) -> Seq<char>
    decreases parts.len(),
{
    if parts.len() == 0 {
        Seq::empty()
    } else if parts.len() == 1 {
        parts[0]
    } else {
        dotted(parts.drop_last()) + seq!['.'] + parts.last()
    }
}

pub open spec fn views_of(parts: Seq<String>) -> Seq<Seq<char>> {
    parts.map_values(|s: String| s@)
}

/// The parts of a compound identifier joined with dots, as in `users.id`.
pub fn join_dotted(parts: &Vec<String>) -> (joined: String)
    ensures
        joined@ == dotted(views_of(parts@)),
{
    let mut joined = String::new();
    let mut i: usize = 0;
    while i < parts.len()
        invariant
            i <= parts.len(),
            joined@ == dotted(views_of(parts@.take(i as int))),
        decreases parts.len() - i,
    {
        proof {
            assert(views_of(parts@.take(i + 1)).drop_last() =~= views_of(parts@.take(i as int)));
            assert(views_of(parts@.take(i + 1)).last() == parts@[i as int]@);
        }
        if i > 0 {
            joined.append(".");
            proof {
                reveal_strlit(".");
            }
        }
        joined.append(parts[i].as_str());
        proof {
            if i == 0 {
                assert(views_of(parts@.take(1)) =~= seq![parts@[0]@]);
                assert(joined@ =~= parts@[0]@);
            }
        }
        i = i + 1;
    }
    assert(parts@.take(parts.len() as int) =~= parts@);
    joined
}

// ---------------------------------------------------------------------------
// Numbers
// ---------------------------------------------------------------------------
pub open spec fn is_digit(c: char) -> bool {
    '0' <= c && c <= '9'
}

pub open spec fn digits_value(s: Seq<char>) -> int
    decreases s.len(),
{
    if s.len() == 0 {
        0
    } else {
        10 * digits_value(s.drop_last()) + (s.last() as int - '0' as int)
    }
}

pub open spec fn all_digits(s: Seq<char>) -> bool {
    s.len() > 0 && forall|i: int| 0 <= i < s.len() ==> #[trigger] is_digit(s[i])
}

/// The value of decimal text with an optional leading `+` or `-` sign.
pub open spec fn signed_decimal(s: Seq<char>) -> Option<int> {
    if s.len() > 0 && s[0] == '-' {
        if all_digits(s.drop_first()) {
            Some(-digits_value(s.drop_first()))
        } else {
            None
        }
    } else if s.len() > 0 && s[0] == '+' {
        if all_digits(s.drop_first()) {
            Some(digits_value(s.drop_first()))
        } else {
            None
        }
    } else if all_digits(s) {
        Some(digits_value(s))
    } else {
        None
    }
}

/// What `str::parse::<i64>` gives: the value of the signed decimal text,
/// when it is one and fits.
pub open spec fn parse_i64_spec(s: Seq<char>) -> Option<i64> {
    match signed_decimal(s) {
        Some(v) => if i64::MIN <= v <= i64::MAX {
            Some(v as i64)
        } else {
            None
        },
        None => None,
    }
}

/// What `str::parse::<u64>` gives: the value of decimal text with an
/// optional leading `+`, when it fits.
pub open spec fn parse_u64_spec(s: Seq<char>) -> Option<u64> {
    if s.len() > 0 && s[0] == '-' {
        None
    } else {
        match signed_decimal(s) {
            Some(v) => if 0 <= v <= u64::MAX {
                Some(v as u64)
            } else {
                None
            },
            None => None,
        }
    }
}

proof fn lemma_digits_value_nonneg(s: Seq<char>)
    requires
        forall|i: int| 0 <= i < s.len() ==> #[trigger] is_digit(s[i]),
    ensures
        digits_value(s) >= 0,
    decreases s.len(),
{
    if s.len() > 0 {
        assert forall|i: int| 0 <= i < s.drop_last().len() implies #[trigger] is_digit(s.drop_last()[i]) by {
            assert(s.drop_last()[i] == s[i]);
        }
        assert(is_digit(s[s.len() - 1]));
        lemma_digits_value_nonneg(s.drop_last());
    }
}

/// The value of a prefix of digits is no more than the value of them all.
proof fn lemma_digits_value_grows(s: Seq<char>, k: int)
    requires
        forall|i: int| 0 <= i < s.len() ==> #[trigger] is_digit(s[i]),
        0 <= k <= s.len(),
    ensures
        digits_value(s.take(k)) <= digits_value(s),
    decreases s.len(),
{
    if k < s.len() {
        let init = s.drop_last();
        assert(init.take(k) =~= s.take(k));
        assert forall|i: int| 0 <= i < init.len() implies #[trigger] is_digit(init[i]) by {
            assert(init[i] == s[i]);
        }
        assert(is_digit(s[s.len() - 1]));
        lemma_digits_value_grows(init, k);
        lemma_digits_value_nonneg(init);
    } else {
        assert(s.take(k) =~= s);
    }
}

/// The value of the digits of `text` from `start` on, when they are all
/// digits (at least one) and the value is at most `bound`.
fn decimal_value(text: &str, start: usize, bound: u128) -> (v: Option<u128>)
    requires
        start <= text@.len(),
        bound <= u64::MAX as u128 + 1,
    ensures
        ({
            let d = text@.subrange(start as int, text@.len() as int);
            match v {
                Some(n) => all_digits(d) && n == digits_value(d) && n <= bound,
                None => !all_digits(d) || digits_value(d) > bound,
            }
        }),
{
    let len = text.unicode_len();
    let ghost t = text@;
    if start >= len {
        return None;
    }
    let mut acc: u128 = 0;
    let mut i: usize = start;
    while i < len
        invariant
            len == t.len(),
            t == text@,
            start < len,
            start <= i <= len,
            bound <= u64::MAX as u128 + 1,
            acc <= bound,
            acc == digits_value(t.subrange(start as int, i as int)),
            forall|j: int| start <= j < i ==> #[trigger] is_digit(t[j]),
        decreases len - i,
    {
        let c = text.get_char(i);
        proof {
            assert(t.subrange(start as int, i + 1).drop_last() =~= t.subrange(start as int, i as int));
            assert(t.subrange(start as int, i + 1).last() == c);
        }
        if !('0' <= c && c <= '9') {
            proof {
                let d = t.subrange(start as int, len as int);
                assert(d[i - start] == c);
                assert(!is_digit(d[i - start]));
            }
            return None;
        }
        let digit = (c as u32 - '0' as u32) as u128;
        let next = acc * 10 + digit;
        if next > bound {
            proof {
                let d = t.subrange(start as int, len as int);
                if all_digits(d) {
                    assert(d.take(i + 1 - start) =~= t.subrange(start as int, i + 1));
                    lemma_digits_value_grows(d, i + 1 - start);
                }
            }
            return None;
        }
        acc = next;
        i = i + 1;
    }
    proof {
        let d = t.subrange(start as int, len as int);
        assert forall|j: int| 0 <= j < d.len() implies #[trigger] is_digit(d[j]) by {
            assert(d[j] == t[start + j]);
        }
    }
    Some(acc)
}

/// `str::parse::<i64>`: an optional sign followed by decimal digits, and
/// `None` on anything else or on overflow.
fn parse_i64(text: &str) -> (n: Option<i64>)
    ensures
        n == parse_i64_spec(text@),
{
    let len = text.unicode_len();
    if len == 0 {
        return None;
    }
    let first = text.get_char(0);
    proof {
        assert(text@.drop_first() =~= text@.subrange(1, text@.len() as int));
        assert(text@ =~= text@.subrange(0, text@.len() as int));
    }
    if first == '-' {
        match decimal_value(text, 1, 9223372036854775808) {
            Some(m) => Some((0 - (m as i128)) as i64),
            None => None,
        }
    } else if first == '+' {
        match decimal_value(text, 1, 9223372036854775807) {
            Some(m) => Some(m as i64),
            None => None,
        }
    } else {
        match decimal_value(text, 0, 9223372036854775807) {
            Some(m) => Some(m as i64),
            None => None,
        }
    }
}

/// `str::parse::<u64>`: an optional `+` followed by decimal digits, and
/// `None` on anything else (a `-` among it) or on overflow.
pub(crate) fn parse_u64(text: &str) -> (n: Option<u64>)
    ensures
        n == parse_u64_spec(text@),
{
    let len = text.unicode_len();
    if len == 0 {
        return None;
    }
    let first = text.get_char(0);
    proof {
        assert(text@.drop_first() =~= text@.subrange(1, text@.len() as int));
        assert(text@ =~= text@.subrange(0, text@.len() as int));
    }
    if first == '-' {
        None
    } else if first == '+' {
        match decimal_value(text, 1, 18446744073709551615) {
            Some(m) => Some(m as u64),
            None => None,
        }
    } else {
        match decimal_value(text, 0, 18446744073709551615) {
            Some(m) => Some(m as u64),
            None => None,
        }
    }
}

// ---------------------------------------------------------------------------
// Operators and literals
// ---------------------------------------------------------------------------
pub open spec fn binary_operator_spec(op: SqlBinaryOperator) -> Result<BinaryOperator, Seq<char>> {
    match op {
        SqlBinaryOperator::Eq => Ok(BinaryOperator::Eq),
        SqlBinaryOperator::NotEq => Ok(BinaryOperator::NotEq),
        SqlBinaryOperator::Lt => Ok(BinaryOperator::Lt),
        SqlBinaryOperator::LtEq => Ok(BinaryOperator::LtEq),
        SqlBinaryOperator::Gt => Ok(BinaryOperator::Gt),
        SqlBinaryOperator::GtEq => Ok(BinaryOperator::GtEq),
        SqlBinaryOperator::And => Ok(BinaryOperator::And),
        SqlBinaryOperator::Or => Ok(BinaryOperator::Or),
        SqlBinaryOperator::Plus => Ok(BinaryOperator::Add),
        SqlBinaryOperator::Other { debug } => Err("binary operator: "@ + debug@),
    }
}

pub open spec fn error_is(e: LowerError, m: Seq<char>) -> bool {
    match e {
        LowerError::Unsupported(s) => s@ == m,
    }
}

pub fn lower_binary_operator(op: &SqlBinaryOperator) -> (lowered: Result<BinaryOperator, LowerError>)
    ensures
        match (lowered, binary_operator_spec(*op)) {
            (Ok(a), Ok(b)) => a == b,
            (Err(e), Err(m)) => error_is(e, m),
            _ => false,
        },
{
    match op {
        SqlBinaryOperator::Eq => Ok(BinaryOperator::Eq),
        SqlBinaryOperator::NotEq => Ok(BinaryOperator::NotEq),
        SqlBinaryOperator::Lt => Ok(BinaryOperator::Lt),
        SqlBinaryOperator::LtEq => Ok(BinaryOperator::LtEq),
        SqlBinaryOperator::Gt => Ok(BinaryOperator::Gt),
        SqlBinaryOperator::GtEq => Ok(BinaryOperator::GtEq),
        SqlBinaryOperator::And => Ok(BinaryOperator::And),
        SqlBinaryOperator::Or => Ok(BinaryOperator::Or),
        SqlBinaryOperator::Plus => Ok(BinaryOperator::Add),
        SqlBinaryOperator::Other { debug } => Err(LowerError::Unsupported(message("binary operator: ", debug))),
    }
}

/// A number reads as an integer when its text is one that fits `i64`, and
/// otherwise as a float when its text reads as one.
pub open spec fn value_spec(v: SqlValue) -> Result<LiteralView, Seq<char>> {
    match v {
        SqlValue::Number { text, float_bits } => match parse_i64_spec(text@) {
            Some(n) => Ok(LiteralView::Int(n)),
            None => match float_bits {
                Some(bits) => Ok(LiteralView::Float(bits)),
                None => Err("numeric literal: "@ + text@),
            },
        },
        SqlValue::Boolean(b) => Ok(LiteralView::Bool(b)),
        SqlValue::SingleQuotedString(s) => Ok(LiteralView::Str(s@)),
        SqlValue::Null => Ok(LiteralView::Null),
        SqlValue::Other { debug } => Err("literal: "@ + debug@),
    }
}

pub open spec fn literal_result_matches(r: Result<Literal, LowerError>, s: Result<LiteralView, Seq<char>>) -> bool {
    match (r, s) {
        (Ok(l), Ok(v)) => literal_view(l) == v,
        (Err(e), Err(m)) => error_is(e, m),
        _ => false,
    }
}

pub fn lower_value(value: &SqlValue) -> (lowered: Result<Literal, LowerError>)
    ensures
        literal_result_matches(lowered, value_spec(*value)),
{
    match value {
        SqlValue::Number { text, float_bits } => {
            if let Some(n) = parse_i64(text.as_str()) {
                Ok(Literal::Int(n))
            } else if let Some(bits) = float_bits {
                Ok(Literal::Float(*bits))
            } else {
                Err(LowerError::Unsupported(message("numeric literal: ", text)))
            }
        },
        SqlValue::Boolean(b) => Ok(Literal::Bool(*b)),
        SqlValue::SingleQuotedString(s) => Ok(Literal::String(s.clone())),
        SqlValue::Null => Ok(Literal::Null),
        SqlValue::Other { debug } => Err(LowerError::Unsupported(message("literal: ", debug))),
    }
}

/// A `VALUES` entry must be a literal.
pub open spec fn literal_expr_spec(e: SqlExpr) -> Result<LiteralView, Seq<char>> {
    match e.kind {
        SqlExprKind::Value { value: v, .. } => value_spec(v),
        _ => Err("VALUES entry: "@ + e.debug@),
    }
}

pub fn lower_literal_expr(expr: &SqlExpr) -> (lowered: Result<Literal, LowerError>)
    ensures
        literal_result_matches(lowered, literal_expr_spec(*expr)),
{
    match &expr.kind {
        SqlExprKind::Value { value: v, .. } => lower_value(v),
        _ => Err(LowerError::Unsupported(message("VALUES entry: ", &expr.debug))),
    }
}

// ---------------------------------------------------------------------------
// Expressions
// ---------------------------------------------------------------------------
pub open spec fn false_literal() -> ExprView {
    ExprView::Literal(LiteralView::Bool(false))
}

/// `target = items[0] OR target = items[1] OR ...`, associated to the left.
pub open spec fn in_list_view(target: ExprView, items: Seq<ExprView>) -> ExprView
    decreases items.len(),
{
    if items.len() <= 1 {
        ExprView::BinaryOp(Box::new(target), BinaryOperator::Eq, Box::new(items[0]))
    } else {
        ExprView::BinaryOp(
            Box::new(in_list_view(target, items.drop_last())),
            BinaryOperator::Or,
            Box::new(ExprView::BinaryOp(Box::new(target), BinaryOperator::Eq, Box::new(items.last()))),
        )
    }
}

/// `NOT e` is lowered as `e = false`.
pub open spec fn negation_view(e: ExprView) -> ExprView {
    ExprView::BinaryOp(Box::new(e), BinaryOperator::Eq, Box::new(false_literal()))
}

/// The lowered items of a list, in order, or the first error.
pub open spec fn lower_list_spec(list: Seq<SqlExpr>) -> Result<Seq<ExprView>, Seq<char>>
    decreases list,
{
    if list.len() == 0 {
        Ok(Seq::empty())
    } else {
        match lower_list_spec(list.drop_last()) {
            Err(m) => Err(m),
            Ok(items) => match lower_expr_spec(list.last()) {
                Err(m) => Err(m),
                Ok(x) => Ok(items.push(x)),
            },
        }
    }
}

/// What a SQL expression lowers to, or the message of the first part that
/// cannot be lowered (operands are lowered left to right).
pub open spec fn lower_expr_spec(e: SqlExpr) -> Result<ExprView, Seq<char>>
    decreases e,
{
    match e.kind {
        SqlExprKind::Identifier(name) => Ok(ExprView::Column(name@)),
        SqlExprKind::Value { value: v, .. } => match value_spec(v) {
            Ok(l) => Ok(ExprView::Literal(l)),
            Err(m) => Err(m),
        },
        SqlExprKind::BinaryOp { left, op, right } => match lower_expr_spec(*left) {
            Err(m) => Err(m),
            Ok(l) => match binary_operator_spec(op) {
                Err(m) => Err(m),
                Ok(o) => match lower_expr_spec(*right) {
                    Err(m) => Err(m),
                    Ok(r) => Ok(ExprView::BinaryOp(Box::new(l), o, Box::new(r))),
                },
            },
        },
        SqlExprKind::IsNull(inner) => match lower_expr_spec(*inner) {
            Err(m) => Err(m),
            Ok(x) => Ok(ExprView::IsNull(Box::new(x), false)),
        },
        SqlExprKind::IsNotNull(inner) => match lower_expr_spec(*inner) {
            Err(m) => Err(m),
            Ok(x) => Ok(ExprView::IsNull(Box::new(x), true)),
        },
        SqlExprKind::CompoundIdentifier(parts) => Ok(ExprView::Column(dotted(views_of(parts@)))),
        SqlExprKind::Like { negated, expr, pattern } => match lower_expr_spec(*expr) {
            Err(m) => Err(m),
            Ok(x) => match lower_expr_spec(*pattern) {
                Err(m) => Err(m),
                Ok(p) => Ok(ExprView::Like(Box::new(x), Box::new(p), negated)),
            },
        },
        SqlExprKind::Not(inner) => match lower_expr_spec(*inner) {
            Err(m) => Err(m),
            Ok(x) => Ok(negation_view(x)),
        },
        SqlExprKind::InList { expr, list, negated } => match lower_expr_spec(*expr) {
            Err(m) => Err(m),
            Ok(target) => if list@.len() == 0 {
                Err("IN () with empty list"@)
            } else {
                match lower_list_spec(list@) {
                    Err(m) => Err(m),
                    Ok(items) => {
                        let acc = in_list_view(target, items);
                        Ok(if negated { negation_view(acc) } else { acc })
                    },
                }
            },
        },
        SqlExprKind::Between { expr, negated, low, high } => match lower_expr_spec(*expr) {
            Err(m) => Err(m),
            Ok(target) => match lower_expr_spec(*low) {
                Err(m) => Err(m),
                Ok(lo) => match lower_expr_spec(*high) {
                    Err(m) => Err(m),
                    Ok(hi) => {
                        let range = ExprView::BinaryOp(
                            Box::new(ExprView::BinaryOp(Box::new(target), BinaryOperator::GtEq, Box::new(lo))),
                            BinaryOperator::And,
                            Box::new(ExprView::BinaryOp(Box::new(target), BinaryOperator::LtEq, Box::new(hi))),
                        );
                        Ok(if negated { negation_view(range) } else { range })
                    },
                },
            },
        },
        _ => Err("expression: "@ + e.debug@),
    }
}

pub open spec fn expr_result_matches(r: Result<Expr, LowerError>, s: Result<ExprView, Seq<char>>) -> bool {
    match (r, s) {
        (Ok(x), Ok(v)) => expr_view(x) == v,
        (Err(e), Err(m)) => error_is(e, m),
        _ => false,
    }
}

fn false_expr() -> (e: Expr)
    ensures
        expr_view(e) == false_literal(),
{
    Expr::Literal(Literal::Bool(false))
}

/// Lowers a SQL expression. `NOT e` becomes `e = false`; `e IN (a, b, ...)`
/// becomes `e = a OR e = b OR ...`; `e BETWEEN lo AND hi` becomes
/// `e >= lo AND e <= hi`; the negated forms compare the result with `false`.
pub fn lower_expr(expr: &SqlExpr) -> (lowered: Result<Expr, LowerError>)
    ensures
        expr_result_matches(lowered, lower_expr_spec(*expr)),
    decreases expr,
{
    match &expr.kind {
        SqlExprKind::Identifier(name) => Ok(Expr::Column(name.clone())),
        SqlExprKind::Value { value: v, .. } => match lower_value(v) {
            Ok(l) => Ok(Expr::Literal(l)),
            Err(e) => Err(e),
        },
        SqlExprKind::BinaryOp { left, op, right } => {
            let l = lower_expr(left)?;
            let o = lower_binary_operator(op)?;
            let r = lower_expr(right)?;
            Ok(Expr::BinaryOp { left: Box::new(l), op: o, right: Box::new(r) })
        },
        SqlExprKind::IsNull(inner) => {
            let x = lower_expr(inner)?;
            Ok(Expr::IsNull { expr: Box::new(x), negated: false })
        },
        SqlExprKind::IsNotNull(inner) => {
            let x = lower_expr(inner)?;
            Ok(Expr::IsNull { expr: Box::new(x), negated: true })
        },
        SqlExprKind::CompoundIdentifier(parts) => Ok(Expr::Column(join_dotted(parts))),
        SqlExprKind::Like { negated, expr: inner, pattern } => {
            let x = lower_expr(inner)?;
            let p = lower_expr(pattern)?;
            Ok(Expr::Like { expr: Box::new(x), pattern: Box::new(p), negated: *negated })
        },
        SqlExprKind::Not(inner) => {
            let x = lower_expr(inner)?;
            Ok(Expr::BinaryOp { left: Box::new(x), op: BinaryOperator::Eq, right: Box::new(false_expr()) })
        },
        SqlExprKind::InList { expr: inner, list, negated } => {
            let target = lower_expr(inner)?;
            if list.len() == 0 {
                return Err(LowerError::Unsupported("IN () with empty list".to_string()));
            }
            let ghost lv = list@;
            proof {
                assert(lv.take(1).drop_last() =~= Seq::<SqlExpr>::empty());
                assert(lv.take(1).last() == lv[0]);
                assert(lower_list_spec(Seq::<SqlExpr>::empty()) == Ok::<Seq<ExprView>, Seq<char>>(Seq::empty()));
            }
            let first = match lower_expr(&list[0]) {
                Ok(x) => x,
                Err(e) => {
                    proof {
                        lemma_list_error_persists(lv, 1);
                    }
                    return Err(e);
                },
            };
            let ghost first_view = expr_view(first);
            let mut acc = Expr::BinaryOp { left: Box::new(target.copy()), op: BinaryOperator::Eq, right: Box::new(first) };
            let ghost mut items: Seq<ExprView> = seq![first_view];
            assert(items =~= Seq::<ExprView>::empty().push(first_view));
            let mut i: usize = 1;
            while i < list.len()
                invariant
                    1 <= i <= list@.len(),
                    lv == list@,
                    expr.kind is InList,
                    expr.kind->InList_list == *list,
                    *expr.kind->InList_expr == **inner,
                    expr.kind->InList_negated == *negated,
                    lower_expr_spec(**inner) == Ok::<ExprView, Seq<char>>(expr_view(target)),
                    lower_list_spec(lv.take(i as int)) == Ok::<Seq<ExprView>, Seq<char>>(items),
                    items.len() == i,
                    expr_view(acc) == in_list_view(expr_view(target), items),
                decreases list.len() - i,
            {
                proof {
                    assert(lv.take(i + 1).drop_last() =~= lv.take(i as int));
                    assert(lv.take(i + 1).last() == lv[i as int]);
                }
                let item = match lower_expr(&list[i]) {
                    Ok(x) => x,
                    Err(e) => {
                        proof {
                            lemma_list_error_persists(lv, i as int + 1);
                        }
                        return Err(e);
                    },
                };
                let ghost acc_view = expr_view(acc);
                let ghost item_view = expr_view(item);
                proof {
                    let new_items = items.push(item_view);
                    assert(new_items.drop_last() =~= items);
                    assert(new_items.last() == item_view);
                    items = new_items;
                }
                let eq_item = Expr::BinaryOp { left: Box::new(target.copy()), op: BinaryOperator::Eq, right: Box::new(item) };
                assert(expr_view(eq_item) == ExprView::BinaryOp(Box::new(expr_view(target)), BinaryOperator::Eq, Box::new(item_view)));
                acc = Expr::BinaryOp { left: Box::new(acc), op: BinaryOperator::Or, right: Box::new(eq_item) };
                assert(expr_view(acc) == ExprView::BinaryOp(
                    Box::new(acc_view),
                    BinaryOperator::Or,
                    Box::new(ExprView::BinaryOp(Box::new(expr_view(target)), BinaryOperator::Eq, Box::new(item_view))),
                ));
                i = i + 1;
            }
            assert(lv.take(list.len() as int) =~= lv);
            proof {
                assert(lower_list_spec(lv) == Ok::<Seq<ExprView>, Seq<char>>(items));
                assert(lower_expr_spec(*expr) == Ok::<ExprView, Seq<char>>(
                    if *negated { negation_view(in_list_view(expr_view(target), items)) } else { in_list_view(expr_view(target), items) },
                ));
            }
            if *negated {
                Ok(Expr::BinaryOp { left: Box::new(acc), op: BinaryOperator::Eq, right: Box::new(false_expr()) })
            } else {
                Ok(acc)
            }
        },
        SqlExprKind::Between { expr: inner, negated, low, high } => {
            let target = lower_expr(inner)?;
            let lo = lower_expr(low)?;
            let hi = lower_expr(high)?;
            let ghost (tv, lov, hiv) = (expr_view(target), expr_view(lo), expr_view(hi));
            let lower_bound = Expr::BinaryOp { left: Box::new(target.copy()), op: BinaryOperator::GtEq, right: Box::new(lo) };
            assert(expr_view(lower_bound) == ExprView::BinaryOp(Box::new(tv), BinaryOperator::GtEq, Box::new(lov)));
            let upper_bound = Expr::BinaryOp { left: Box::new(target), op: BinaryOperator::LtEq, right: Box::new(hi) };
            assert(expr_view(upper_bound) == ExprView::BinaryOp(Box::new(tv), BinaryOperator::LtEq, Box::new(hiv)));
            let range = Expr::BinaryOp { left: Box::new(lower_bound), op: BinaryOperator::And, right: Box::new(upper_bound) };
            let ghost rv = ExprView::BinaryOp(
                Box::new(ExprView::BinaryOp(Box::new(tv), BinaryOperator::GtEq, Box::new(lov))),
                BinaryOperator::And,
                Box::new(ExprView::BinaryOp(Box::new(tv), BinaryOperator::LtEq, Box::new(hiv))),
            );
            assert(expr_view(range) == rv);
            assert(lower_expr_spec(*expr) == Ok::<ExprView, Seq<char>>(if *negated { negation_view(rv) } else { rv }));
            if *negated {
                Ok(Expr::BinaryOp { left: Box::new(range), op: BinaryOperator::Eq, right: Box::new(false_expr()) })
            } else {
                Ok(range)
            }
        },
        _ => Err(LowerError::Unsupported(message("expression: ", &expr.debug))),
    }
}

/// Once a prefix of a list fails to lower, every longer prefix fails with
/// the same message.
proof fn lemma_list_error_persists(list: Seq<SqlExpr>, k: int)
    requires
        0 <= k <= list.len(),
        lower_list_spec(list.take(k)) is Err,
    ensures
        lower_list_spec(list) == lower_list_spec(list.take(k)),
    decreases list.len() - k,
{
    if k < list.len() {
        assert(list.take(k + 1).drop_last() =~= list.take(k));
        lemma_list_error_persists(list, k + 1);
    } else {
        assert(list.take(k) =~= list);
    }
}

} // verus!
