//! Values, rows, and the evaluation of expressions over a row, with SQL's
//! three-valued logic for NULL.
use crate::float::{float_eq, float_equals, float_less, float_lt};
use crate::ir::{strings_view, BinaryOperator, Expr, Literal};
use crate::key::{seq_lt, str_eq, str_lt};
use crate::like::{like_match, like_spec};
use vstd::prelude::*;

verus! {

/// A value stored in a row. A floating-point value is carried as the IEEE
/// 754 bit pattern of its `f64`.
#[derive(Debug, PartialEq)]
pub enum Value {
    Int(i64),
    Bool(bool),
    String(String),
    Float(u64),
    Null,
}

impl Value {
    /// A copy of the value.
    pub fn copy(&self) -> (c: Value)
        ensures
            c == *self,
    {
        match self {
            Value::Int(n) => Value::Int(*n),
            Value::Bool(b) => Value::Bool(*b),
            Value::String(s) => Value::String(s.clone()),
            Value::Float(bits) => Value::Float(*bits),
            Value::Null => Value::Null,
        }
    }

    pub fn is_null(&self) -> (r: bool)
        ensures
            r == (*self is Null),
    {
        matches!(self, Value::Null)
    }
}

impl Clone for Value {
    fn clone(&self) -> (c: Self)
        ensures
            c == *self,
    {
        self.copy()
    }
}

/// A copy of a sequence of values.
pub fn copy_values(values: &[Value]) -> (c: Vec<Value>)
    ensures
        c@ == values@,
{
    let mut c: Vec<Value> = Vec::new();
    let mut i: usize = 0;
    while i < values.len()
        invariant
            i <= values.len(),
            c@ == values@.subrange(0, i as int),
        decreases values.len() - i,
    {
        c.push(values[i].copy());
        proof {
            assert(c@ =~= values@.subrange(0, i + 1));
        }
        i = i + 1;
    }
    assert(values@.subrange(0, values.len() as int) =~= values@);
    c
}

/// A row of values, in column order.
#[derive(Debug, PartialEq)]
pub struct Row {
    values: Vec<Value>,
}

impl View for Row {
    type V = Seq<Value>;

    closed spec fn view(&self) -> Seq<Value> {
        self.values@
    }
}

impl Row {
    pub fn new(values: Vec<Value>) -> (row: Row)
        ensures
            row@ == values@,
    {
        Row { values }
    }

    pub fn values(&self) -> (values: &[Value])
        ensures
            values@ == self@,
    {
        self.values.as_slice()
    }

    pub fn copy(&self) -> (c: Row)
        ensures
            c@ == self@,
    {
        Row { values: copy_values(self.values.as_slice()) }
    }
}

impl Clone for Row {
    fn clone(&self) -> (c: Self)
        ensures
            c@ == self@,
    {
        self.copy()
    }
}

/// Why the catalog refused an operation; each payload is the name involved.
#[derive(Debug, PartialEq)]
pub enum StorageError {
    TableNotFound(String),
    TableExists(String),
    IndexNotFound(String),
    IndexExists(String),
    /// An index was asked for on a column its table does not have.
    ColumnNotFound(String),
}

/// Why executing a plan failed.
#[derive(Debug, PartialEq)]
pub enum ExecError {
    /// The catalog refused the operation.
    Storage(StorageError),
    ColumnNotFound(String),
    /// An operator was applied to operands of types it does not accept.
    TypeMismatch,
    MissingColumn(String),
    /// Floating-point arithmetic (as opposed to comparison) is not evaluated
    /// by this library.
    FloatArithmetic,
}

/// The first position of a column named `name`, or `-1`.
pub open spec fn column_index(columns: Seq<Seq<char>>, name: Seq<char>) -> int
    decreases columns.len(),
{
    if columns.len() == 0 {
        -1
    } else if columns[0] == name {
        0
    } else {
        let rest = column_index(columns.drop_first(), name);
        if rest < 0 {
            -1
        } else {
            rest + 1
        }
    }
}

pub proof fn lemma_column_index(columns: Seq<Seq<char>>, name: Seq<char>)
    ensures
        -1 <= column_index(columns, name) < columns.len(),
        column_index(columns, name) >= 0 ==> columns[column_index(columns, name)] == name,
        column_index(columns, name) >= 0 ==> forall|i: int| 0 <= i < column_index(columns, name) ==> #[trigger] columns[i] != name,
        column_index(columns, name) < 0 ==> forall|i: int| 0 <= i < columns.len() ==> #[trigger] columns[i] != name,
    decreases columns.len(),
{
    if columns.len() > 0 && columns[0] != name {
        lemma_column_index(columns.drop_first(), name);
        assert forall|i: int| 0 < i < columns.len() implies columns[i] == columns.drop_first()[i - 1] by {}
    }
}

/// The position of the first column named `name`.
pub fn find_column(columns: &[String], name: &String) -> (index: Option<usize>)
    ensures
        match index {
            Some(i) => i == column_index(strings_view(columns@), name@),
            None => column_index(strings_view(columns@), name@) < 0,
        },
{
    let ghost cv = strings_view(columns@);
    let mut i: usize = 0;
    assert(cv.skip(0) =~= cv);
    while i < columns.len()
        invariant
            i <= columns.len(),
            cv == strings_view(columns@),
            column_index(cv, name@) == (if column_index(cv.skip(i as int), name@) < 0 {
                -1
            } else {
                i + column_index(cv.skip(i as int), name@)
            }),
        decreases columns.len() - i,
    {
        proof {
            assert(cv.skip(i as int)[0] == columns@[i as int]@);
            assert(cv.skip(i as int).drop_first() =~= cv.skip(i + 1));
        }
        if str_eq(&columns[i], name) {
            return Some(i);
        }
        i = i + 1;
    }
    None
}

/// The value a literal denotes.
pub open spec fn literal_value(literal: Literal) -> Value {
    match literal {
        Literal::Int(n) => Value::Int(n),
        Literal::Bool(b) => Value::Bool(b),
        Literal::String(s) => Value::String(s),
        Literal::Float(bits) => Value::Float(bits),
        Literal::Null => Value::Null,
    }
}

pub fn literal_to_value(literal: &Literal) -> (value: Value)
    ensures
        value == literal_value(*literal),
{
    match literal {
        Literal::Int(n) => Value::Int(*n),
        Literal::Bool(b) => Value::Bool(*b),
        Literal::String(s) => Value::String(s.clone()),
        Literal::Float(bits) => Value::Float(*bits),
        Literal::Null => Value::Null,
    }
}

/// An evaluation result: `None` where evaluation would overflow an integer
/// addition.
pub type Evaluated = Option<Result<Value, ExecError>>;

pub open spec fn int_op(l: i64, op: BinaryOperator, r: i64) -> Evaluated {
    match op {
        BinaryOperator::Eq => Some(Ok(Value::Bool(l == r))),
        BinaryOperator::NotEq => Some(Ok(Value::Bool(l != r))),
        BinaryOperator::Lt => Some(Ok(Value::Bool(l < r))),
        BinaryOperator::LtEq => Some(Ok(Value::Bool(l <= r))),
        BinaryOperator::Gt => Some(Ok(Value::Bool(l > r))),
        BinaryOperator::GtEq => Some(Ok(Value::Bool(l >= r))),
        BinaryOperator::Add => if i64::MIN <= l + r <= i64::MAX {
            Some(Ok(Value::Int((l + r) as i64)))
        } else {
            None
        },
        BinaryOperator::And | BinaryOperator::Or => Some(Err(ExecError::TypeMismatch)),
    }
}

pub open spec fn bool_op(l: bool, op: BinaryOperator, r: bool) -> Result<Value, ExecError> {
    match op {
        BinaryOperator::Eq => Ok(Value::Bool(l == r)),
        BinaryOperator::NotEq => Ok(Value::Bool(l != r)),
        BinaryOperator::And => Ok(Value::Bool(l && r)),
        BinaryOperator::Or => Ok(Value::Bool(l || r)),
        _ => Err(ExecError::TypeMismatch),
    }
}

pub open spec fn string_op(l: Seq<char>, op: BinaryOperator, r: Seq<char>) -> Result<Value, ExecError> {
    match op {
        BinaryOperator::Eq => Ok(Value::Bool(l == r)),
        BinaryOperator::NotEq => Ok(Value::Bool(l != r)),
        BinaryOperator::Lt => Ok(Value::Bool(seq_lt(l, r))),
        BinaryOperator::LtEq => Ok(Value::Bool(seq_lt(l, r) || l == r)),
        BinaryOperator::Gt => Ok(Value::Bool(seq_lt(r, l))),
        BinaryOperator::GtEq => Ok(Value::Bool(seq_lt(r, l) || l == r)),
        _ => Err(ExecError::TypeMismatch),
    }
}

pub open spec fn float_op(l: u64, op: BinaryOperator, r: u64) -> Result<Value, ExecError> {
    match op {
        BinaryOperator::Eq => Ok(Value::Bool(float_eq(l, r))),
        BinaryOperator::NotEq => Ok(Value::Bool(!float_eq(l, r))),
        BinaryOperator::Lt => Ok(Value::Bool(float_lt(l, r))),
        BinaryOperator::LtEq => Ok(Value::Bool(float_lt(l, r) || float_eq(l, r))),
        BinaryOperator::Gt => Ok(Value::Bool(float_lt(r, l))),
        BinaryOperator::GtEq => Ok(Value::Bool(float_lt(r, l) || float_eq(l, r))),
        BinaryOperator::Add => Err(ExecError::FloatArithmetic),
        BinaryOperator::And | BinaryOperator::Or => Err(ExecError::TypeMismatch),
    }
}

/// Three-valued logic when an operand is NULL: `false AND x` is false and
/// `true OR x` is true whatever `x` is; everything else is NULL.
pub open spec fn null_op(l: Value, op: BinaryOperator, r: Value) -> Value {
    match op {
        BinaryOperator::And => if l == Value::Bool(false) || r == Value::Bool(false) {
            Value::Bool(false)
        } else {
            Value::Null
        },
        BinaryOperator::Or => if l == Value::Bool(true) || r == Value::Bool(true) {
            Value::Bool(true)
        } else {
            Value::Null
        },
        _ => Value::Null,
    }
}

/// The value of `l op r`.
pub open spec fn binary_value(l: Value, op: BinaryOperator, r: Value) -> Evaluated {
    if l is Null || r is Null {
        Some(Ok(null_op(l, op, r)))
    } else {
        match (l, r) {
            (Value::Int(a), Value::Int(b)) => int_op(a, op, b),
            (Value::Bool(a), Value::Bool(b)) => Some(bool_op(a, op, b)),
            (Value::String(a), Value::String(b)) => Some(string_op(a@, op, b@)),
            (Value::Float(a), Value::Float(b)) => Some(float_op(a, op, b)),
            _ => Some(Err(ExecError::TypeMismatch)),
        }
    }
}

/// The value of `expr` over a row whose columns are named `columns`,
/// evaluating operands left to right and stopping at the first error.
/// `None` where evaluation reads past the end of the row or overflows an
/// integer addition.
pub open spec fn eval_spec(expr: Expr, columns: Seq<Seq<char>>, row: Seq<Value>) -> Evaluated
    decreases expr,
{
    match expr {
        Expr::Column(name) => {
            let i = column_index(columns, name@);
            if i < 0 {
                Some(Err(ExecError::ColumnNotFound(name)))
            } else if i < row.len() {
                Some(Ok(row[i]))
            } else {
                None
            }
        },
        Expr::Literal(l) => Some(Ok(literal_value(l))),
        Expr::BinaryOp { left, op, right } => match eval_spec(*left, columns, row) {
            Some(Ok(lv)) => match eval_spec(*right, columns, row) {
                Some(Ok(rv)) => binary_value(lv, op, rv),
                other => other,
            },
            other => other,
        },
        Expr::IsNull { expr, negated } => match eval_spec(*expr, columns, row) {
            Some(Ok(v)) => Some(Ok(Value::Bool((v is Null) != negated))),
            other => other,
        },
        Expr::Like { expr, pattern, negated } => match eval_spec(*expr, columns, row) {
            Some(Ok(v)) => match eval_spec(*pattern, columns, row) {
                Some(Ok(p)) => if v is Null || p is Null {
                    Some(Ok(Value::Null))
                } else {
                    match (v, p) {
                        (Value::String(s), Value::String(pat)) => Some(Ok(Value::Bool(like_spec(s@, pat@) != negated))),
                        _ => Some(Err(ExecError::TypeMismatch)),
                    }
                },
                other => other,
            },
            other => other,
        },
    }
}

pub fn eval_int(l: i64, op: BinaryOperator, r: i64) -> (result: Result<Value, ExecError>)
    requires
        int_op(l, op, r) is Some,
    ensures
        Some(result) == int_op(l, op, r),
{
    match op {
        BinaryOperator::Eq => Ok(Value::Bool(l == r)),
        BinaryOperator::NotEq => Ok(Value::Bool(l != r)),
        BinaryOperator::Lt => Ok(Value::Bool(l < r)),
        BinaryOperator::LtEq => Ok(Value::Bool(l <= r)),
        BinaryOperator::Gt => Ok(Value::Bool(l > r)),
        BinaryOperator::GtEq => Ok(Value::Bool(l >= r)),
        BinaryOperator::Add => Ok(Value::Int(l + r)),
        BinaryOperator::And | BinaryOperator::Or => Err(ExecError::TypeMismatch),
    }
}

pub fn eval_bool(l: bool, op: BinaryOperator, r: bool) -> (result: Result<Value, ExecError>)
    ensures
        result == bool_op(l, op, r),
{
    match op {
        BinaryOperator::Eq => Ok(Value::Bool(l == r)),
        BinaryOperator::NotEq => Ok(Value::Bool(l != r)),
        BinaryOperator::And => Ok(Value::Bool(l && r)),
        BinaryOperator::Or => Ok(Value::Bool(l || r)),
        BinaryOperator::Lt | BinaryOperator::LtEq | BinaryOperator::Gt | BinaryOperator::GtEq
        | BinaryOperator::Add => Err(ExecError::TypeMismatch),
    }
}

pub fn eval_string(l: &String, op: BinaryOperator, r: &String) -> (result: Result<Value, ExecError>)
    ensures
        result == string_op(l@, op, r@),
{
    match op {
        BinaryOperator::Eq => Ok(Value::Bool(str_eq(l, r))),
        BinaryOperator::NotEq => Ok(Value::Bool(!str_eq(l, r))),
        BinaryOperator::Lt => Ok(Value::Bool(str_lt(l, r))),
        BinaryOperator::LtEq => Ok(Value::Bool(str_lt(l, r) || str_eq(l, r))),
        BinaryOperator::Gt => Ok(Value::Bool(str_lt(r, l))),
        BinaryOperator::GtEq => Ok(Value::Bool(str_lt(r, l) || str_eq(l, r))),
        BinaryOperator::And | BinaryOperator::Or | BinaryOperator::Add => Err(ExecError::TypeMismatch),
    }
}

pub fn eval_float(l: u64, op: BinaryOperator, r: u64) -> (result: Result<Value, ExecError>)
    ensures
        result == float_op(l, op, r),
{
    match op {
        BinaryOperator::Eq => Ok(Value::Bool(float_equals(l, r))),
        BinaryOperator::NotEq => Ok(Value::Bool(!float_equals(l, r))),
        BinaryOperator::Lt => Ok(Value::Bool(float_less(l, r))),
        BinaryOperator::LtEq => Ok(Value::Bool(float_less(l, r) || float_equals(l, r))),
        BinaryOperator::Gt => Ok(Value::Bool(float_less(r, l))),
        BinaryOperator::GtEq => Ok(Value::Bool(float_less(r, l) || float_equals(l, r))),
        BinaryOperator::Add => Err(ExecError::FloatArithmetic),
        BinaryOperator::And | BinaryOperator::Or => Err(ExecError::TypeMismatch),
    }
}

fn eval_binary_op_with_null(left: Value, op: BinaryOperator, right: Value) -> (result: Result<Value, ExecError>)
    ensures
        result == Ok::<Value, ExecError>(null_op(left, op, right)),
{
    match op {
        BinaryOperator::And => match (&left, &right) {
            (Value::Bool(false), _) | (_, Value::Bool(false)) => Ok(Value::Bool(false)),
            _ => Ok(Value::Null),
        },
        BinaryOperator::Or => match (&left, &right) {
            (Value::Bool(true), _) | (_, Value::Bool(true)) => Ok(Value::Bool(true)),
            _ => Ok(Value::Null),
        },
        BinaryOperator::Eq | BinaryOperator::NotEq | BinaryOperator::Lt | BinaryOperator::LtEq
        | BinaryOperator::Gt | BinaryOperator::GtEq | BinaryOperator::Add => Ok(Value::Null),
    }
}

/// The value of `left op right`.
pub fn eval_binary_op(left: Value, op: BinaryOperator, right: Value) -> (result: Result<Value, ExecError>)
    requires
        binary_value(left, op, right) is Some,
    ensures
        Some(result) == binary_value(left, op, right),
{
    if left.is_null() || right.is_null() {
        return eval_binary_op_with_null(left, op, right);
    }
    match (left, right) {
        (Value::Int(l), Value::Int(r)) => eval_int(l, op, r),
        (Value::Bool(l), Value::Bool(r)) => eval_bool(l, op, r),
        (Value::String(l), Value::String(r)) => eval_string(&l, op, &r),
        (Value::Float(l), Value::Float(r)) => eval_float(l, op, r),
        _ => Err(ExecError::TypeMismatch),
    }
}

/// The value of `expr` over `row`, whose columns are named `columns`.
pub fn eval_expr(expr: &Expr, columns: &[String], row: &Row) -> (result: Result<Value, ExecError>)
    requires
        eval_spec(*expr, strings_view(columns@), row@) is Some,
    ensures
        Some(result) == eval_spec(*expr, strings_view(columns@), row@),
    decreases expr,
{
    match expr {
        Expr::Column(name) => {
            proof {
                lemma_column_index(strings_view(columns@), name@);
            }
            match find_column(columns, name) {
                Some(index) => Ok(row.values()[index].copy()),
                None => Err(ExecError::ColumnNotFound(name.clone())),
            }
        },
        Expr::Literal(literal) => Ok(literal_to_value(literal)),
        Expr::BinaryOp { left, op, right } => {
            let l = eval_expr(left, columns, row)?;
            let r = eval_expr(right, columns, row)?;
            eval_binary_op(l, *op, r)
        },
        Expr::IsNull { expr, negated } => {
            let value = eval_expr(expr, columns, row)?;
            let is_null = value.is_null();
            Ok(Value::Bool(is_null != *negated))
        },
        Expr::Like { expr, pattern, negated } => {
            let value = eval_expr(expr, columns, row)?;
            let pattern_value = eval_expr(pattern, columns, row)?;
            match (&value, &pattern_value) {
                (Value::Null, _) | (_, Value::Null) => Ok(Value::Null),
                (Value::String(s), Value::String(p)) => {
                    let matches = like_match(s.as_str(), p.as_str());
                    Ok(Value::Bool(matches != *negated))
                },
                _ => Err(ExecError::TypeMismatch),
            }
        },
    }
}

/// Three-valued logic: a NULL operand of `AND` is absorbed by `false`, a
/// NULL operand of `OR` by `true`, and every comparison or addition with a
/// NULL operand is NULL.
pub proof fn law_null_absorption(v: Value, op: BinaryOperator)
    ensures
        binary_value(Value::Null, BinaryOperator::And, Value::Bool(false)) == Some(Ok::<Value, ExecError>(Value::Bool(false))),
        binary_value(Value::Bool(false), BinaryOperator::And, Value::Null) == Some(Ok::<Value, ExecError>(Value::Bool(false))),
        binary_value(Value::Null, BinaryOperator::Or, Value::Bool(true)) == Some(Ok::<Value, ExecError>(Value::Bool(true))),
        binary_value(Value::Bool(true), BinaryOperator::Or, Value::Null) == Some(Ok::<Value, ExecError>(Value::Bool(true))),
        op != BinaryOperator::And && op != BinaryOperator::Or ==> binary_value(Value::Null, op, v) == Some(
            Ok::<Value, ExecError>(Value::Null),
        ) && binary_value(v, op, Value::Null) == Some(Ok::<Value, ExecError>(Value::Null)),
        binary_value(Value::Null, BinaryOperator::And, Value::Bool(true)) == Some(Ok::<Value, ExecError>(Value::Null)),
        binary_value(Value::Null, BinaryOperator::Or, Value::Bool(false)) == Some(Ok::<Value, ExecError>(Value::Null)),
{
}


/// `AND` and `OR` on two booleans are conjunction and disjunction, and `=`
/// and `<>` on booleans are equality and inequality.
pub proof fn law_boolean_operators(a: bool, b: bool)
    ensures
        binary_value(Value::Bool(a), BinaryOperator::And, Value::Bool(b)) == Some(Ok::<Value, ExecError>(Value::Bool(a && b))),
        binary_value(Value::Bool(a), BinaryOperator::Or, Value::Bool(b)) == Some(Ok::<Value, ExecError>(Value::Bool(a || b))),
        binary_value(Value::Bool(a), BinaryOperator::Eq, Value::Bool(b)) == Some(Ok::<Value, ExecError>(Value::Bool(a == b))),
        binary_value(Value::Bool(a), BinaryOperator::NotEq, Value::Bool(b)) == Some(Ok::<Value, ExecError>(Value::Bool(a != b))),
{
}

/// Comparisons of two integers compare their values, and `+` adds them
/// (no value where the sum leaves `i64`).
pub proof fn law_integer_operators(a: i64, b: i64)
    ensures
        binary_value(Value::Int(a), BinaryOperator::Eq, Value::Int(b)) == Some(Ok::<Value, ExecError>(Value::Bool(a == b))),
        binary_value(Value::Int(a), BinaryOperator::NotEq, Value::Int(b)) == Some(Ok::<Value, ExecError>(Value::Bool(a != b))),
        binary_value(Value::Int(a), BinaryOperator::Lt, Value::Int(b)) == Some(Ok::<Value, ExecError>(Value::Bool(a < b))),
        binary_value(Value::Int(a), BinaryOperator::LtEq, Value::Int(b)) == Some(Ok::<Value, ExecError>(Value::Bool(a <= b))),
        binary_value(Value::Int(a), BinaryOperator::Gt, Value::Int(b)) == Some(Ok::<Value, ExecError>(Value::Bool(a > b))),
        binary_value(Value::Int(a), BinaryOperator::GtEq, Value::Int(b)) == Some(Ok::<Value, ExecError>(Value::Bool(a >= b))),
        i64::MIN <= a + b <= i64::MAX ==> binary_value(Value::Int(a), BinaryOperator::Add, Value::Int(b)) == Some(
            Ok::<Value, ExecError>(Value::Int((a + b) as i64)),
        ),
{
}

/// Comparisons of two strings compare them lexicographically.
pub proof fn law_string_comparisons(a: String, b: String)
    ensures
        binary_value(Value::String(a), BinaryOperator::Eq, Value::String(b)) == Some(Ok::<Value, ExecError>(Value::Bool(a@ == b@))),
        binary_value(Value::String(a), BinaryOperator::NotEq, Value::String(b)) == Some(Ok::<Value, ExecError>(Value::Bool(a@ != b@))),
        binary_value(Value::String(a), BinaryOperator::Lt, Value::String(b)) == Some(Ok::<Value, ExecError>(Value::Bool(seq_lt(a@, b@)))),
        binary_value(Value::String(a), BinaryOperator::LtEq, Value::String(b)) == Some(
            Ok::<Value, ExecError>(Value::Bool(seq_lt(a@, b@) || a@ == b@)),
        ),
        binary_value(Value::String(a), BinaryOperator::Gt, Value::String(b)) == Some(Ok::<Value, ExecError>(Value::Bool(seq_lt(b@, a@)))),
        binary_value(Value::String(a), BinaryOperator::GtEq, Value::String(b)) == Some(
            Ok::<Value, ExecError>(Value::Bool(seq_lt(b@, a@) || a@ == b@)),
        ),
{
}

/// Evaluating over a row: a column reads the row's value at the first
/// column of that name (an error where no column has the name); an operator
/// applies to its left operand's value and then its right one's; `IS NULL`
/// is true exactly on NULL and `IS NOT NULL` exactly off it.
pub proof fn law_evaluation_reads_row(
    columns: Seq<Seq<char>>,
    row: Seq<Value>,
    x: String,
    y: String,
    op: BinaryOperator,
)
    requires
        row.len() == columns.len(),
    ensures
        column_index(columns, x@) < 0 ==> eval_spec(Expr::Column(x), columns, row) == Some(
            Err::<Value, ExecError>(ExecError::ColumnNotFound(x)),
        ),
        ({
            let i = column_index(columns, x@);
            let j = column_index(columns, y@);
            0 <= i && 0 <= j ==> {
                &&& columns[i] == x@
                &&& forall|k: int| 0 <= k < i ==> columns[k] != x@
                &&& eval_spec(Expr::Column(x), columns, row) == Some(Ok::<Value, ExecError>(row[i]))
                &&& eval_spec(
                    Expr::BinaryOp { left: Box::new(Expr::Column(x)), op, right: Box::new(Expr::Column(y)) },
                    columns,
                    row,
                ) == binary_value(row[i], op, row[j])
                &&& eval_spec(Expr::IsNull { expr: Box::new(Expr::Column(x)), negated: false }, columns, row) == Some(
                    Ok::<Value, ExecError>(Value::Bool(row[i] is Null)),
                )
                &&& eval_spec(Expr::IsNull { expr: Box::new(Expr::Column(x)), negated: true }, columns, row) == Some(
                    Ok::<Value, ExecError>(Value::Bool(!(row[i] is Null))),
                )
            }
        }),
{
    reveal_with_fuel(eval_spec, 2);
    lemma_column_index(columns, x@);
    lemma_column_index(columns, y@);
}

} // verus!
