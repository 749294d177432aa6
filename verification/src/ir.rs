//! The intermediate representation: expressions, logical plans (what a
//! query means) and physical plans (how it is run).
use vstd::prelude::*;

verus! {

/// The type of a table column.
#[derive(Debug, Clone, Copy, PartialEq)]
pub enum ColumnType {
    Int,
    Bool,
    Text,
    Float,
}

/// A column of a table being created.
#[derive(Debug, Clone, PartialEq)]
pub struct ColumnDef {
    pub name: String,
    pub typ: ColumnType,
}

/// Why a statement could not be lowered to a plan.
#[derive(Debug, Clone, PartialEq)]
pub enum LowerError {
    Unsupported(String),
}

#[derive(Debug, Clone, Copy, PartialEq)]
pub enum BinaryOperator {
    Eq,
    NotEq,
    Lt,
    LtEq,
    Gt,
    GtEq,
    And,
    Or,
    Add,
}

/// A literal value. A floating-point literal is carried as the IEEE 754
/// bit pattern of its `f64` value.
#[derive(Debug, Clone, PartialEq)]
pub enum Literal {
    Int(i64),
    Bool(bool),
    String(String),
    Float(u64),
    Null,
}

#[derive(Debug, PartialEq)]
pub enum Expr {
    Column(String),
    Literal(Literal),
    BinaryOp { left: Box<Expr>, op: BinaryOperator, right: Box<Expr> },
    IsNull { expr: Box<Expr>, negated: bool },
    Like { expr: Box<Expr>, pattern: Box<Expr>, negated: bool },
}

#[derive(Debug, Clone, Copy, PartialEq)]
pub enum JoinKind {
    Inner,
    Left,
    Right,
    FullOuter,
}

/// The columns a projection keeps.
#[derive(Debug, Clone, PartialEq)]
pub enum Projection {
    All,
    Columns(Vec<String>),
}

#[derive(Debug, Clone, Copy, PartialEq)]
pub enum AggFunc {
    Count,
    Sum,
    Avg,
    Min,
    Max,
}

#[derive(Debug, Clone, PartialEq)]
pub struct AggregateExpr {
    pub func: AggFunc,
    /// `None` only for `Count`: `COUNT(*)` counts rows, not values.
    pub column: Option<String>,
    /// The output column name, such as `COUNT(*)` or an explicit alias.
    pub alias: String,
}

#[derive(Debug, Clone, Copy, PartialEq)]
pub enum SortDirection {
    Asc,
    Desc,
}

/// What a statement means.
#[derive(Debug, PartialEq)]
pub enum LogicalPlan {
    Scan { table: String },
    Filter { input: Box<LogicalPlan>, predicate: Expr },
    Project { input: Box<LogicalPlan>, columns: Projection },
    Insert { table: String, columns: Vec<String>, rows: Vec<Vec<Literal>> },
    CreateTable { table: String, columns: Vec<ColumnDef> },
    Delete { table: String, predicate: Option<Expr> },
    Update { table: String, assignments: Vec<(String, Literal)>, predicate: Option<Expr> },
    CreateIndex { index_name: String, table: String, column: String },
    Join {
        left: Box<LogicalPlan>,
        right: Box<LogicalPlan>,
        left_table: String,
        right_table: String,
        on: Expr,
        kind: JoinKind,
    },
    DropTable { table: String, if_exists: bool },
    DropIndex { index_name: String, if_exists: bool },
    Aggregate { input: Box<LogicalPlan>, group_by: Vec<String>, aggregates: Vec<AggregateExpr> },
    Sort { input: Box<LogicalPlan>, order_by: Vec<(String, SortDirection)> },
    Limit { input: Box<LogicalPlan>, limit: Option<u64>, offset: Option<u64> },
    VacuumTable { table: String },
    VacuumAll,
}

/// How a statement is run.
#[derive(Debug, PartialEq)]
pub enum PhysicalPlan {
    /// Reads every row of the table, start to finish.
    SeqScan { table: String },
    Filter { input: Box<PhysicalPlan>, predicate: Expr },
    Project { input: Box<PhysicalPlan>, columns: Projection },
    Insert { table: String, columns: Vec<String>, rows: Vec<Vec<Literal>> },
    CreateTable { table: String, columns: Vec<ColumnDef> },
    Delete { table: String, predicate: Option<Expr> },
    Update { table: String, assignments: Vec<(String, Literal)>, predicate: Option<Expr> },
    CreateIndex { index_name: String, table: String, column: String },
    IndexScan { table: String, index_name: String, key: Literal },
    RangeIndexScan {
        table: String,
        index_name: String,
        lower: Option<(Literal, bool)>,
        upper: Option<(Literal, bool)>,
    },
    NestedLoopJoin {
        left: Box<PhysicalPlan>,
        right: Box<PhysicalPlan>,
        left_table: String,
        right_table: String,
        on: Expr,
        kind: JoinKind,
    },
    IndexNestedLoopJoin {
        left: Box<PhysicalPlan>,
        left_table: String,
        right_table_real: String,
        right_table_qualifier: String,
        right_index_name: String,
        left_join_column: String,
        kind: JoinKind,
    },
    DropTable { table: String, if_exists: bool },
    DropIndex { index_name: String, if_exists: bool },
    Aggregate { input: Box<PhysicalPlan>, group_by: Vec<String>, aggregates: Vec<AggregateExpr> },
    Sort { input: Box<PhysicalPlan>, order_by: Vec<(String, SortDirection)> },
    Limit { input: Box<PhysicalPlan>, limit: Option<u64>, offset: Option<u64> },
    VacuumTable { table: String },
    VacuumAll,
}

impl Literal {
    /// A copy of the literal.
    pub fn copy(&self) -> (c: Literal)
        ensures
            c == *self,
    {
        match self {
            Literal::Int(n) => Literal::Int(*n),
            Literal::Bool(b) => Literal::Bool(*b),
            Literal::String(s) => Literal::String(s.clone()),
            Literal::Float(bits) => Literal::Float(*bits),
            Literal::Null => Literal::Null,
        }
    }
}

impl Clone for Expr {
    fn clone(&self) -> (c: Self)
        ensures
            c == *self,
    {
        self.copy()
    }
}

impl Expr {
    /// A copy of the expression.
    pub fn copy(&self) -> (c: Expr)
        ensures
            c == *self,
        decreases self,
    {
        match self {
            Expr::Column(name) => Expr::Column(name.clone()),
            Expr::Literal(l) => Expr::Literal(l.copy()),
            Expr::BinaryOp { left, op, right } => Expr::BinaryOp {
                left: Box::new((**left).copy()),
                op: *op,
                right: Box::new((**right).copy()),
            },
            Expr::IsNull { expr, negated } => Expr::IsNull { expr: Box::new((**expr).copy()), negated: *negated },
            Expr::Like { expr, pattern, negated } => Expr::Like {
                expr: Box::new((**expr).copy()),
                pattern: Box::new((**pattern).copy()),
                negated: *negated,
            },
        }
    }
}

/// The physical plan for a logical plan: every scan becomes a sequential
/// scan and every join a nested-loop join; everything else carries over.
pub open spec fn physical_of(plan: LogicalPlan) -> PhysicalPlan
    decreases plan,
{
    match plan {
        LogicalPlan::Scan { table } => PhysicalPlan::SeqScan { table },
        LogicalPlan::Filter { input, predicate } => PhysicalPlan::Filter {
            input: Box::new(physical_of(*input)),
            predicate,
        },
        LogicalPlan::Project { input, columns } => PhysicalPlan::Project {
            input: Box::new(physical_of(*input)),
            columns,
        },
        LogicalPlan::Insert { table, columns, rows } => PhysicalPlan::Insert { table, columns, rows },
        LogicalPlan::CreateTable { table, columns } => PhysicalPlan::CreateTable { table, columns },
        LogicalPlan::Delete { table, predicate } => PhysicalPlan::Delete { table, predicate },
        LogicalPlan::Update { table, assignments, predicate } => PhysicalPlan::Update {
            table,
            assignments,
            predicate,
        },
        LogicalPlan::CreateIndex { index_name, table, column } => PhysicalPlan::CreateIndex {
            index_name,
            table,
            column,
        },
        LogicalPlan::Join { left, right, left_table, right_table, on, kind } => PhysicalPlan::NestedLoopJoin {
            left: Box::new(physical_of(*left)),
            right: Box::new(physical_of(*right)),
            left_table,
            right_table,
            on,
            kind,
        },
        LogicalPlan::DropTable { table, if_exists } => PhysicalPlan::DropTable { table, if_exists },
        LogicalPlan::DropIndex { index_name, if_exists } => PhysicalPlan::DropIndex { index_name, if_exists },
        LogicalPlan::Aggregate { input, group_by, aggregates } => PhysicalPlan::Aggregate {
            input: Box::new(physical_of(*input)),
            group_by,
            aggregates,
        },
        LogicalPlan::Sort { input, order_by } => PhysicalPlan::Sort { input: Box::new(physical_of(*input)), order_by },
        LogicalPlan::Limit { input, limit, offset } => PhysicalPlan::Limit {
            input: Box::new(physical_of(*input)),
            limit,
            offset,
        },
        LogicalPlan::VacuumTable { table } => PhysicalPlan::VacuumTable { table },
        LogicalPlan::VacuumAll => PhysicalPlan::VacuumAll,
    }
}

/// Chooses the physical strategy for a logical plan. This is the one place
/// that decides it: every scan becomes a sequential scan and every join a
/// nested-loop join; nothing else changes.
pub fn to_physical(plan: LogicalPlan) -> (physical: PhysicalPlan)
    ensures
        physical == physical_of(plan),
    decreases plan,
{
    match plan {
        LogicalPlan::Scan { table } => PhysicalPlan::SeqScan { table },
        LogicalPlan::Filter { input, predicate } => PhysicalPlan::Filter {
            input: Box::new(to_physical(*input)),
            predicate,
        },
        LogicalPlan::Project { input, columns } => PhysicalPlan::Project {
            input: Box::new(to_physical(*input)),
            columns,
        },
        LogicalPlan::Insert { table, columns, rows } => PhysicalPlan::Insert { table, columns, rows },
        LogicalPlan::CreateTable { table, columns } => PhysicalPlan::CreateTable { table, columns },
        LogicalPlan::Delete { table, predicate } => PhysicalPlan::Delete { table, predicate },
        LogicalPlan::Update { table, assignments, predicate } => PhysicalPlan::Update {
            table,
            assignments,
            predicate,
        },
        LogicalPlan::CreateIndex { index_name, table, column } => PhysicalPlan::CreateIndex {
            index_name,
            table,
            column,
        },
        LogicalPlan::Join { left, right, left_table, right_table, on, kind } => PhysicalPlan::NestedLoopJoin {
            left: Box::new(to_physical(*left)),
            right: Box::new(to_physical(*right)),
            left_table,
            right_table,
            on,
            kind,
        },
        LogicalPlan::DropTable { table, if_exists } => PhysicalPlan::DropTable { table, if_exists },
        LogicalPlan::DropIndex { index_name, if_exists } => PhysicalPlan::DropIndex { index_name, if_exists },
        LogicalPlan::Aggregate { input, group_by, aggregates } => PhysicalPlan::Aggregate {
            input: Box::new(to_physical(*input)),
            group_by,
            aggregates,
        },
        LogicalPlan::Sort { input, order_by } => PhysicalPlan::Sort { input: Box::new(to_physical(*input)), order_by },
        LogicalPlan::Limit { input, limit, offset } => PhysicalPlan::Limit {
            input: Box::new(to_physical(*input)),
            limit,
            offset,
        },
        LogicalPlan::VacuumTable { table } => PhysicalPlan::VacuumTable { table },
        LogicalPlan::VacuumAll => PhysicalPlan::VacuumAll,
    }
}

/// A physical plan never contains an index scan that its logical plan did
/// not ask for: the physical plan of any logical plan uses only sequential
/// scans and nested-loop joins to read tables.
pub open spec fn uses_only_seq_scans(plan: PhysicalPlan) -> bool
    decreases plan,
{
    match plan {
        PhysicalPlan::IndexScan { .. } => false,
        PhysicalPlan::RangeIndexScan { .. } => false,
        PhysicalPlan::IndexNestedLoopJoin { .. } => false,
        PhysicalPlan::Filter { input, .. } => uses_only_seq_scans(*input),
        PhysicalPlan::Project { input, .. } => uses_only_seq_scans(*input),
        PhysicalPlan::NestedLoopJoin { left, right, .. } => uses_only_seq_scans(*left) && uses_only_seq_scans(*right),
        PhysicalPlan::Aggregate { input, .. } => uses_only_seq_scans(*input),
        PhysicalPlan::Sort { input, .. } => uses_only_seq_scans(*input),
        PhysicalPlan::Limit { input, .. } => uses_only_seq_scans(*input),
        _ => true,
    }
}

/// Lowering to a physical plan picks no index: index strategies are chosen
/// only by the planner's later rewrite.
pub proof fn law_physical_plan_has_no_index_access(plan: LogicalPlan)
    ensures
        uses_only_seq_scans(physical_of(plan)),
    decreases plan,
{
    match plan {
        LogicalPlan::Filter { input, .. } => law_physical_plan_has_no_index_access(*input),
        LogicalPlan::Project { input, .. } => law_physical_plan_has_no_index_access(*input),
        LogicalPlan::Join { left, right, .. } => {
            law_physical_plan_has_no_index_access(*left);
            law_physical_plan_has_no_index_access(*right);
        },
        LogicalPlan::Aggregate { input, .. } => law_physical_plan_has_no_index_access(*input),
        LogicalPlan::Sort { input, .. } => law_physical_plan_has_no_index_access(*input),
        LogicalPlan::Limit { input, .. } => law_physical_plan_has_no_index_access(*input),
        _ => {},
    }
}

// ---------------------------------------------------------------------------
// Views: the IR with its strings taken as character sequences
// ---------------------------------------------------------------------------
pub enum LiteralView {
    Int(i64),
    Bool(bool),
    Str(Seq<char>),
    Float(u64),
    Null,
}

pub enum ExprView {
    Column(Seq<char>),
    Literal(LiteralView),
    BinaryOp(Box<ExprView>, BinaryOperator, Box<ExprView>),
    IsNull(Box<ExprView>, bool),
    Like(Box<ExprView>, Box<ExprView>, bool),
}

pub enum ProjectionView {
    All,
    Columns(Seq<Seq<char>>),
}

pub struct AggregateExprView {
    pub func: AggFunc,
    pub column: Option<Seq<char>>,
    pub alias: Seq<char>,
}

pub enum PlanView {
    Scan(Seq<char>),
    Filter(Box<PlanView>, ExprView),
    Project(Box<PlanView>, ProjectionView),
    Insert(Seq<char>, Seq<Seq<char>>, Seq<Seq<LiteralView>>),
    CreateTable(Seq<char>, Seq<(Seq<char>, ColumnType)>),
    Delete(Seq<char>, Option<ExprView>),
    Update(Seq<char>, Seq<(Seq<char>, LiteralView)>, Option<ExprView>),
    CreateIndex(Seq<char>, Seq<char>, Seq<char>),
    Join(Box<PlanView>, Box<PlanView>, Seq<char>, Seq<char>, ExprView, JoinKind),
    DropTable(Seq<char>, bool),
    DropIndex(Seq<char>, bool),
    Aggregate(Box<PlanView>, Seq<Seq<char>>, Seq<AggregateExprView>),
    Sort(Box<PlanView>, Seq<(Seq<char>, SortDirection)>),
    Limit(Box<PlanView>, Option<u64>, Option<u64>),
    VacuumTable(Seq<char>),
    VacuumAll,
}

pub open spec fn literal_view(l: Literal) -> LiteralView {
    match l {
        Literal::Int(n) => LiteralView::Int(n),
        Literal::Bool(b) => LiteralView::Bool(b),
        Literal::String(s) => LiteralView::Str(s@),
        Literal::Float(b) => LiteralView::Float(b),
        Literal::Null => LiteralView::Null,
    }
}

pub open spec fn expr_view(e: Expr) -> ExprView
    decreases e,
{
    match e {
        Expr::Column(c) => ExprView::Column(c@),
        Expr::Literal(l) => ExprView::Literal(literal_view(l)),
        Expr::BinaryOp { left, op, right } => ExprView::BinaryOp(Box::new(expr_view(*left)), op, Box::new(expr_view(*right))),
        Expr::IsNull { expr, negated } => ExprView::IsNull(Box::new(expr_view(*expr)), negated),
        Expr::Like { expr, pattern, negated } => ExprView::Like(Box::new(expr_view(*expr)), Box::new(expr_view(*pattern)), negated),
    }
}

pub open spec fn strings_view(v: Seq<String>) -> Seq<Seq<char>> {
    v.map_values(|s: String| s@)
}

pub open spec fn projection_view(p: Projection) -> ProjectionView {
    match p {
        Projection::All => ProjectionView::All,
        Projection::Columns(c) => ProjectionView::Columns(strings_view(c@)),
    }
}

pub open spec fn aggregate_view(a: AggregateExpr) -> AggregateExprView {
    AggregateExprView {
        func: a.func,
        column: match a.column {
            Some(c) => Some(c@),
            None => None,
        },
        alias: a.alias@,
    }
}

pub open spec fn aggregates_view(aggregates: Seq<AggregateExpr>) -> Seq<AggregateExprView> {
    aggregates.map_values(|a: AggregateExpr| aggregate_view(a))
}

pub open spec fn sort_keys_view(order_by: Seq<(String, SortDirection)>) -> Seq<(Seq<char>, SortDirection)> {
    order_by.map_values(|o: (String, SortDirection)| (o.0@, o.1))
}

pub open spec fn option_expr_view(e: Option<Expr>) -> Option<ExprView> {
    match e {
        Some(x) => Some(expr_view(x)),
        None => None,
    }
}

pub open spec fn literals_view(row: Seq<Literal>) -> Seq<LiteralView> {
    row.map_values(|l: Literal| literal_view(l))
}

pub open spec fn literal_rows_view(rows: Seq<Vec<Literal>>) -> Seq<Seq<LiteralView>> {
    rows.map_values(|r: Vec<Literal>| literals_view(r@))
}

pub open spec fn column_defs_view(columns: Seq<ColumnDef>) -> Seq<(Seq<char>, ColumnType)> {
    columns.map_values(|c: ColumnDef| (c.name@, c.typ))
}

pub open spec fn assignments_view(assignments: Seq<(String, Literal)>) -> Seq<(Seq<char>, LiteralView)> {
    assignments.map_values(|a: (String, Literal)| (a.0@, literal_view(a.1)))
}

pub open spec fn plan_view(p: LogicalPlan) -> PlanView
    decreases p,
{
    match p {
        LogicalPlan::Scan { table } => PlanView::Scan(table@),
        LogicalPlan::Filter { input, predicate } => PlanView::Filter(Box::new(plan_view(*input)), expr_view(predicate)),
        LogicalPlan::Project { input, columns } => PlanView::Project(Box::new(plan_view(*input)), projection_view(columns)),
        LogicalPlan::Insert { table, columns, rows } => PlanView::Insert(table@, strings_view(columns@), literal_rows_view(rows@)),
        LogicalPlan::CreateTable { table, columns } => PlanView::CreateTable(table@, column_defs_view(columns@)),
        LogicalPlan::Delete { table, predicate } => PlanView::Delete(table@, option_expr_view(predicate)),
        LogicalPlan::Update { table, assignments, predicate } => PlanView::Update(
            table@,
            assignments_view(assignments@),
            option_expr_view(predicate),
        ),
        LogicalPlan::CreateIndex { index_name, table, column } => PlanView::CreateIndex(index_name@, table@, column@),
        LogicalPlan::Join { left, right, left_table, right_table, on, kind } => PlanView::Join(
            Box::new(plan_view(*left)),
            Box::new(plan_view(*right)),
            left_table@,
            right_table@,
            expr_view(on),
            kind,
        ),
        LogicalPlan::DropTable { table, if_exists } => PlanView::DropTable(table@, if_exists),
        LogicalPlan::DropIndex { index_name, if_exists } => PlanView::DropIndex(index_name@, if_exists),
        LogicalPlan::Aggregate { input, group_by, aggregates } => PlanView::Aggregate(
            Box::new(plan_view(*input)),
            strings_view(group_by@),
            aggregates_view(aggregates@),
        ),
        LogicalPlan::Sort { input, order_by } => PlanView::Sort(Box::new(plan_view(*input)), sort_keys_view(order_by@)),
        LogicalPlan::Limit { input, limit, offset } => PlanView::Limit(Box::new(plan_view(*input)), limit, offset),
        LogicalPlan::VacuumTable { table } => PlanView::VacuumTable(table@),
        LogicalPlan::VacuumAll => PlanView::VacuumAll,
    }
}

} // verus!
