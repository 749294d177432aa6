use crumble::fold::{ConstantFold, OptimizationPass};
use crumble::ir::{to_physical, BinaryOperator, Expr, JoinKind, Literal, LogicalPlan, PhysicalPlan, Projection};
use crumble::planner::{plan_index_scans, strip_qualifier, IndexCatalog, IndexDef};
use crumble::sql::{parse, transaction_control, TransactionControl};

fn users_filter(predicate: Expr) -> LogicalPlan {
    LogicalPlan::Filter { input: Box::new(LogicalPlan::Scan { table: "users".to_string() }), predicate }
}

#[test]
fn folds_true_predicate() {
    let plan = users_filter(Expr::BinaryOp {
        left: Box::new(Expr::Literal(Literal::Int(1))),
        op: BinaryOperator::Eq,
        right: Box::new(Expr::Literal(Literal::Int(1))),
    });
    let folded = ConstantFold.apply(plan);
    assert_eq!(folded, users_filter(Expr::Literal(Literal::Bool(true))));
}

#[test]
fn leaves_column_reference_unfolded() {
    let make = || {
        users_filter(Expr::BinaryOp {
            left: Box::new(Expr::Column("age".to_string())),
            op: BinaryOperator::Gt,
            right: Box::new(Expr::Literal(Literal::Int(30))),
        })
    };
    let folded = ConstantFold.apply(make());
    assert_eq!(folded, make());
}

#[test]
fn folding_adds_integers_and_keeps_overflow_unfolded() {
    let add = |a, b| Expr::BinaryOp {
        left: Box::new(Expr::Literal(Literal::Int(a))),
        op: BinaryOperator::Add,
        right: Box::new(Expr::Literal(Literal::Int(b))),
    };
    assert_eq!(ConstantFold.apply(users_filter(add(20, 1))), users_filter(Expr::Literal(Literal::Int(21))));
    assert_eq!(ConstantFold.apply(users_filter(add(i64::MAX, 1))), users_filter(add(i64::MAX, 1)));
}

#[test]
fn parses_select() {
    let ast = parse("SELECT 1").unwrap();
    assert_eq!(ast.statements.len(), 1);
}

#[test]
fn parse_errors_and_transaction_statements() {
    assert!(parse("SELEC 1").is_err());
    assert_eq!(transaction_control(&parse("BEGIN").unwrap()), Some(TransactionControl::Begin));
    assert_eq!(transaction_control(&parse("COMMIT").unwrap()), Some(TransactionControl::Commit));
    assert_eq!(transaction_control(&parse("ROLLBACK").unwrap()), Some(TransactionControl::Rollback));
    assert_eq!(transaction_control(&parse("SELECT 1").unwrap()), None);
}

#[test]
fn to_physical_uses_sequential_scans_and_nested_loops() {
    let plan = LogicalPlan::Project {
        input: Box::new(LogicalPlan::Join {
            left: Box::new(LogicalPlan::Scan { table: "a".to_string() }),
            right: Box::new(LogicalPlan::Scan { table: "b".to_string() }),
            left_table: "a".to_string(),
            right_table: "b".to_string(),
            on: Expr::Literal(Literal::Bool(true)),
            kind: JoinKind::Inner,
        }),
        columns: Projection::All,
    };
    let expected = PhysicalPlan::Project {
        input: Box::new(PhysicalPlan::NestedLoopJoin {
            left: Box::new(PhysicalPlan::SeqScan { table: "a".to_string() }),
            right: Box::new(PhysicalPlan::SeqScan { table: "b".to_string() }),
            left_table: "a".to_string(),
            right_table: "b".to_string(),
            on: Expr::Literal(Literal::Bool(true)),
            kind: JoinKind::Inner,
        }),
        columns: Projection::All,
    };
    assert_eq!(to_physical(plan), expected);
}

fn catalog_with(index: Option<(&str, &str, &str)>) -> IndexCatalog {
    IndexCatalog {
        indexes: index
            .into_iter()
            .map(|(n, t, c)| IndexDef { name: n.to_string(), table: t.to_string(), column: c.to_string() })
            .collect(),
    }
}

fn filtered_scan() -> PhysicalPlan {
    PhysicalPlan::Filter {
        input: Box::new(PhysicalPlan::SeqScan { table: "users".to_string() }),
        predicate: Expr::BinaryOp {
            left: Box::new(Expr::Column("id".to_string())),
            op: BinaryOperator::Eq,
            right: Box::new(Expr::Literal(Literal::Int(7))),
        },
    }
}

#[test]
fn planner_uses_an_index_on_the_filtered_column() {
    let planned = plan_index_scans(filtered_scan(), &catalog_with(Some(("by_id", "users", "id"))));
    assert_eq!(
        planned,
        PhysicalPlan::IndexScan { table: "users".to_string(), index_name: "by_id".to_string(), key: Literal::Int(7) }
    );
}

#[test]
fn planner_without_indexes_changes_nothing() {
    assert_eq!(plan_index_scans(filtered_scan(), &catalog_with(None)), filtered_scan());
}

#[test]
fn strip_qualifier_needs_the_dot() {
    assert_eq!(strip_qualifier(&"users.id".to_string(), &"users".to_string()), Some("id".to_string()));
    assert_eq!(strip_qualifier(&"usersid".to_string(), &"users".to_string()), None);
}
