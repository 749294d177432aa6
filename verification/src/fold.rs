//! Constant folding: a binary operation on two literals that can be computed
//! ahead of time is replaced by its result. Folding never fails: an
//! operation it cannot compute (mismatched types, an overflowing sum, an
//! operator the types do not accept) is left for execution.
use crate::eval::{binary_value, eval_spec, literal_value, Value, ExecError};
use crate::float::{float_eq, float_equals, float_less, float_lt};
use crate::ir::{BinaryOperator, Expr, Literal, LogicalPlan};
use crate::key::{seq_lt, str_eq, str_lt};
use vstd::prelude::*;

verus! {

/// A rewrite of a logical plan.
pub trait OptimizationPass {
    fn apply(&self, plan: LogicalPlan) -> LogicalPlan;
}

/// The constant-folding pass.
pub struct ConstantFold;

impl OptimizationPass for ConstantFold {
    fn apply(&self, plan: LogicalPlan) -> (folded: LogicalPlan)
        ensures
            folded == fold_plan_spec(plan),
    {
        fold_plan(plan)
    }
}

pub open spec fn fold_int_spec(l: i64, op: BinaryOperator, r: i64) -> Option<Literal> {
    match op {
        BinaryOperator::Eq => Some(Literal::Bool(l == r)),
        BinaryOperator::NotEq => Some(Literal::Bool(l != r)),
        BinaryOperator::Lt => Some(Literal::Bool(l < r)),
        BinaryOperator::LtEq => Some(Literal::Bool(l <= r)),
        BinaryOperator::Gt => Some(Literal::Bool(l > r)),
        BinaryOperator::GtEq => Some(Literal::Bool(l >= r)),
        BinaryOperator::Add => if i64::MIN <= l + r <= i64::MAX {
            Some(Literal::Int((l + r) as i64))
        } else {
            None
        },
        BinaryOperator::And | BinaryOperator::Or => None,
    }
}

pub open spec fn fold_bool_spec(l: bool, op: BinaryOperator, r: bool) -> Option<Literal> {
    match op {
        BinaryOperator::Eq => Some(Literal::Bool(l == r)),
        BinaryOperator::NotEq => Some(Literal::Bool(l != r)),
        BinaryOperator::And => Some(Literal::Bool(l && r)),
        BinaryOperator::Or => Some(Literal::Bool(l || r)),
        _ => None,
    }
}

pub open spec fn fold_string_spec(l: Seq<char>, op: BinaryOperator, r: Seq<char>) -> Option<Literal> {
    match op {
        BinaryOperator::Eq => Some(Literal::Bool(l == r)),
        BinaryOperator::NotEq => Some(Literal::Bool(l != r)),
        BinaryOperator::Lt => Some(Literal::Bool(seq_lt(l, r))),
        BinaryOperator::LtEq => Some(Literal::Bool(seq_lt(l, r) || l == r)),
        BinaryOperator::Gt => Some(Literal::Bool(seq_lt(r, l))),
        BinaryOperator::GtEq => Some(Literal::Bool(seq_lt(r, l) || l == r)),
        _ => None,
    }
}

pub open spec fn fold_float_spec(l: u64, op: BinaryOperator, r: u64) -> Option<Literal> {
    match op {
        BinaryOperator::Eq => Some(Literal::Bool(float_eq(l, r))),
        BinaryOperator::NotEq => Some(Literal::Bool(!float_eq(l, r))),
        BinaryOperator::Lt => Some(Literal::Bool(float_lt(l, r))),
        BinaryOperator::LtEq => Some(Literal::Bool(float_lt(l, r) || float_eq(l, r))),
        BinaryOperator::Gt => Some(Literal::Bool(float_lt(r, l))),
        BinaryOperator::GtEq => Some(Literal::Bool(float_lt(r, l) || float_eq(l, r))),
        _ => None,
    }
}

/// The literal that `left op right` folds to, if both sides are literals of
/// the same type and the operation can be computed.
pub open spec fn fold_binary_spec(left: Expr, op: BinaryOperator, right: Expr) -> Option<Literal> {
    match (left, right) {
        (Expr::Literal(l), Expr::Literal(r)) => match (l, r) {
            (Literal::Int(a), Literal::Int(b)) => fold_int_spec(a, op, b),
            (Literal::Bool(a), Literal::Bool(b)) => fold_bool_spec(a, op, b),
            (Literal::String(a), Literal::String(b)) => fold_string_spec(a@, op, b@),
            (Literal::Float(a), Literal::Float(b)) => fold_float_spec(a, op, b),
            _ => None,
        },
        _ => None,
    }
}

/// An expression with its binary operations folded bottom-up.
pub open spec fn fold_expr_spec(expr: Expr) -> Expr
    decreases expr,
{
    match expr {
        Expr::BinaryOp { left, op, right } => {
            let l = fold_expr_spec(*left);
            let r = fold_expr_spec(*right);
            match fold_binary_spec(l, op, r) {
                Some(lit) => Expr::Literal(lit),
                None => Expr::BinaryOp { left: Box::new(l), op, right: Box::new(r) },
            }
        },
        other => other,
    }
}

/// A plan with the predicate of every filter folded.
pub open spec fn fold_plan_spec(plan: LogicalPlan) -> LogicalPlan
    decreases plan,
{
    match plan {
        LogicalPlan::Filter { input, predicate } => LogicalPlan::Filter {
            input: Box::new(fold_plan_spec(*input)),
            predicate: fold_expr_spec(predicate),
        },
        LogicalPlan::Project { input, columns } => LogicalPlan::Project {
            input: Box::new(fold_plan_spec(*input)),
            columns,
        },
        LogicalPlan::Join { left, right, left_table, right_table, on, kind } => LogicalPlan::Join {
            left: Box::new(fold_plan_spec(*left)),
            right: Box::new(fold_plan_spec(*right)),
            left_table,
            right_table,
            on,
            kind,
        },
        LogicalPlan::Aggregate { input, group_by, aggregates } => LogicalPlan::Aggregate {
            input: Box::new(fold_plan_spec(*input)),
            group_by,
            aggregates,
        },
        LogicalPlan::Sort { input, order_by } => LogicalPlan::Sort { input: Box::new(fold_plan_spec(*input)), order_by },
        LogicalPlan::Limit { input, limit, offset } => LogicalPlan::Limit {
            input: Box::new(fold_plan_spec(*input)),
            limit,
            offset,
        },
        other => other,
    }
}

fn fold_int(l: i64, op: BinaryOperator, r: i64) -> (folded: Option<Literal>)
    ensures
        folded == fold_int_spec(l, op, r),
{
    match op {
        BinaryOperator::Eq => Some(Literal::Bool(l == r)),
        BinaryOperator::NotEq => Some(Literal::Bool(l != r)),
        BinaryOperator::Lt => Some(Literal::Bool(l < r)),
        BinaryOperator::LtEq => Some(Literal::Bool(l <= r)),
        BinaryOperator::Gt => Some(Literal::Bool(l > r)),
        BinaryOperator::GtEq => Some(Literal::Bool(l >= r)),
        BinaryOperator::Add => match l.checked_add(r) {
            Some(sum) => Some(Literal::Int(sum)),
            None => None,
        },
        BinaryOperator::And => None,
        BinaryOperator::Or => None,
    }
}

fn fold_bool(l: bool, op: BinaryOperator, r: bool) -> (folded: Option<Literal>)
    ensures
        folded == fold_bool_spec(l, op, r),
{
    match op {
        BinaryOperator::Eq => Some(Literal::Bool(l == r)),
        BinaryOperator::NotEq => Some(Literal::Bool(l != r)),
        BinaryOperator::Lt => None,
        BinaryOperator::LtEq => None,
        BinaryOperator::Gt => None,
        BinaryOperator::GtEq => None,
        BinaryOperator::And => Some(Literal::Bool(l && r)),
        BinaryOperator::Or => Some(Literal::Bool(l || r)),
        BinaryOperator::Add => None,
    }
}

fn fold_string(l: &String, op: BinaryOperator, r: &String) -> (folded: Option<Literal>)
    ensures
        folded == fold_string_spec(l@, op, r@),
{
    match op {
        BinaryOperator::Eq => Some(Literal::Bool(str_eq(l, r))),
        BinaryOperator::NotEq => Some(Literal::Bool(!str_eq(l, r))),
        BinaryOperator::Lt => Some(Literal::Bool(str_lt(l, r))),
        BinaryOperator::LtEq => Some(Literal::Bool(str_lt(l, r) || str_eq(l, r))),
        BinaryOperator::Gt => Some(Literal::Bool(str_lt(r, l))),
        BinaryOperator::GtEq => Some(Literal::Bool(str_lt(r, l) || str_eq(l, r))),
        BinaryOperator::And => None,
        BinaryOperator::Or => None,
        BinaryOperator::Add => None,
    }
}

fn fold_float(l: u64, op: BinaryOperator, r: u64) -> (folded: Option<Literal>)
    ensures
        folded == fold_float_spec(l, op, r),
{
    match op {
        BinaryOperator::Eq => Some(Literal::Bool(float_equals(l, r))),
        BinaryOperator::NotEq => Some(Literal::Bool(!float_equals(l, r))),
        BinaryOperator::Lt => Some(Literal::Bool(float_less(l, r))),
        BinaryOperator::LtEq => Some(Literal::Bool(float_less(l, r) || float_equals(l, r))),
        BinaryOperator::Gt => Some(Literal::Bool(float_less(r, l))),
        BinaryOperator::GtEq => Some(Literal::Bool(float_less(r, l) || float_equals(l, r))),
        BinaryOperator::And => None,
        BinaryOperator::Or => None,
        BinaryOperator::Add => None,
    }
}

/// `None` means the operation cannot be folded (a type mismatch or an
/// operation the types do not accept), not an error: an optimizer pass
/// never fails.
pub fn fold_binary_op(left: &Expr, op: BinaryOperator, right: &Expr) -> (folded: Option<Literal>)
    ensures
        folded == fold_binary_spec(*left, op, *right),
{
    match (left, right) {
        (Expr::Literal(l), Expr::Literal(r)) => match (l, r) {
            (Literal::Int(a), Literal::Int(b)) => fold_int(*a, op, *b),
            (Literal::Bool(a), Literal::Bool(b)) => fold_bool(*a, op, *b),
            (Literal::String(a), Literal::String(b)) => fold_string(a, op, b),
            (Literal::Float(a), Literal::Float(b)) => fold_float(*a, op, *b),
            _ => None,
        },
        _ => None,
    }
}

pub fn fold_expr(expr: Expr) -> (folded: Expr)
    ensures
        folded == fold_expr_spec(expr),
    decreases expr,
{
    match expr {
        Expr::BinaryOp { left, op, right } => {
            let left = fold_expr(*left);
            let right = fold_expr(*right);
            match fold_binary_op(&left, op, &right) {
                Some(literal) => Expr::Literal(literal),
                None => Expr::BinaryOp { left: Box::new(left), op, right: Box::new(right) },
            }
        },
        other => other,
    }
}

pub fn fold_plan(plan: LogicalPlan) -> (folded: LogicalPlan)
    ensures
        folded == fold_plan_spec(plan),
    decreases plan,
{
    match plan {
        LogicalPlan::Filter { input, predicate } => LogicalPlan::Filter {
            input: Box::new(fold_plan(*input)),
            predicate: fold_expr(predicate),
        },
        LogicalPlan::Project { input, columns } => LogicalPlan::Project {
            input: Box::new(fold_plan(*input)),
            columns,
        },
        LogicalPlan::Join { left, right, left_table, right_table, on, kind } => LogicalPlan::Join {
            left: Box::new(fold_plan(*left)),
            right: Box::new(fold_plan(*right)),
            left_table,
            right_table,
            on,
            kind,
        },
        LogicalPlan::Aggregate { input, group_by, aggregates } => LogicalPlan::Aggregate {
            input: Box::new(fold_plan(*input)),
            group_by,
            aggregates,
        },
        LogicalPlan::Sort { input, order_by } => LogicalPlan::Sort { input: Box::new(fold_plan(*input)), order_by },
        LogicalPlan::Limit { input, limit, offset } => LogicalPlan::Limit {
            input: Box::new(fold_plan(*input)),
            limit,
            offset,
        },
        other => other,
    }
}

proof fn lemma_fold_binary_agrees(left: Expr, op: BinaryOperator, right: Expr, columns: Seq<Seq<char>>, row: Seq<Value>)
    requires
        fold_binary_spec(left, op, right) is Some,
    ensures
        eval_spec(left, columns, row) == Some(Ok::<Value, ExecError>(literal_value(left->Literal_0))),
        eval_spec(right, columns, row) == Some(Ok::<Value, ExecError>(literal_value(right->Literal_0))),
        binary_value(literal_value(left->Literal_0), op, literal_value(right->Literal_0)) == Some(
            Ok::<Value, ExecError>(literal_value(fold_binary_spec(left, op, right)->0)),
        ),
{
}

/// Constant folding never changes what an expression evaluates to, over any
/// row: the same value, the same error, or the same failure.
pub proof fn law_folding_preserves_evaluation(expr: Expr, columns: Seq<Seq<char>>, row: Seq<Value>)
    ensures
        eval_spec(fold_expr_spec(expr), columns, row) == eval_spec(expr, columns, row),
    decreases expr,
{
    match expr {
        Expr::BinaryOp { left, op, right } => {
            law_folding_preserves_evaluation(*left, columns, row);
            law_folding_preserves_evaluation(*right, columns, row);
            let l = fold_expr_spec(*left);
            let r = fold_expr_spec(*right);
            if fold_binary_spec(l, op, r) is Some {
                lemma_fold_binary_agrees(l, op, r, columns, row);
            }
        },
        _ => {},
    }
}


/// The binary operation of two literals.
pub open spec fn literal_op(l: Literal, op: BinaryOperator, r: Literal) -> Expr {
    Expr::BinaryOp { left: Box::new(Expr::Literal(l)), op, right: Box::new(Expr::Literal(r)) }
}

/// Folding computes `AND`, `OR`, `=` and `<>` of two boolean literals, and
/// the comparisons of two integer literals, as their truth values.
pub proof fn law_folding_computes_constants(a: bool, b: bool, x: i64, y: i64)
    ensures
        fold_expr_spec(literal_op(Literal::Bool(a), BinaryOperator::And, Literal::Bool(b))) == Expr::Literal(Literal::Bool(a && b)),
        fold_expr_spec(literal_op(Literal::Bool(a), BinaryOperator::Or, Literal::Bool(b))) == Expr::Literal(Literal::Bool(a || b)),
        fold_expr_spec(literal_op(Literal::Bool(a), BinaryOperator::Eq, Literal::Bool(b))) == Expr::Literal(Literal::Bool(a == b)),
        fold_expr_spec(literal_op(Literal::Bool(a), BinaryOperator::NotEq, Literal::Bool(b))) == Expr::Literal(Literal::Bool(a != b)),
        fold_expr_spec(literal_op(Literal::Int(x), BinaryOperator::Lt, Literal::Int(y))) == Expr::Literal(Literal::Bool(x < y)),
        fold_expr_spec(literal_op(Literal::Int(x), BinaryOperator::LtEq, Literal::Int(y))) == Expr::Literal(Literal::Bool(x <= y)),
        fold_expr_spec(literal_op(Literal::Int(x), BinaryOperator::Gt, Literal::Int(y))) == Expr::Literal(Literal::Bool(x > y)),
        fold_expr_spec(literal_op(Literal::Int(x), BinaryOperator::GtEq, Literal::Int(y))) == Expr::Literal(Literal::Bool(x >= y)),
        fold_expr_spec(literal_op(Literal::Int(x), BinaryOperator::Eq, Literal::Int(y))) == Expr::Literal(Literal::Bool(x == y)),
        i64::MIN <= x + y <= i64::MAX ==> fold_expr_spec(literal_op(Literal::Int(x), BinaryOperator::Add, Literal::Int(y)))
            == Expr::Literal(Literal::Int((x + y) as i64)),
{
    reveal_with_fuel(fold_expr_spec, 2);
}

} // verus!
