use crumble::eval::{ExecError, Row, StorageError, Value};
use crumble::exec::execute;
use crumble::ir::{
    to_physical, AggFunc, AggregateExpr, BinaryOperator, ColumnDef, ColumnType, Expr, JoinKind, Literal, PhysicalPlan,
    Projection, SortDirection,
};
use crumble::lower::lower;
use crumble::row_set::RowSet;
use crumble::sql_ast::{
    SqlBinaryOperator, SqlExpr, SqlExprKind, SqlGroupBy, SqlJoin, SqlJoinOperator, SqlQuery, SqlSelect,
    SqlSelectItem, SqlSelectItemKind, SqlSetExpr, SqlSetExprKind, SqlStatement, SqlStatementKind, SqlTableFactor,
    SqlTableWithJoins, SqlValue,
};
use crumble::storage::Catalog;

fn col(name: &str, typ: ColumnType) -> ColumnDef {
    ColumnDef { name: name.to_string(), typ }
}

fn create(catalog: &mut Catalog, table: &str, columns: Vec<ColumnDef>) {
    execute(&PhysicalPlan::CreateTable { table: table.to_string(), columns }, catalog).unwrap();
}

fn insert(catalog: &mut Catalog, table: &str, rows: Vec<Vec<Literal>>) {
    execute(&PhysicalPlan::Insert { table: table.to_string(), columns: vec![], rows }, catalog).unwrap();
}

fn s(text: &str) -> Literal {
    Literal::String(text.to_string())
}

fn seeded_catalog() -> Catalog {
    let mut catalog = Catalog::new();
    create(&mut catalog, "users", vec![col("name", ColumnType::Text), col("age", ColumnType::Int)]);
    insert(&mut catalog, "users", vec![vec![s("alice"), Literal::Int(35)], vec![s("bob"), Literal::Int(22)]]);
    create(&mut catalog, "metrics", vec![col("label", ColumnType::Text), col("score", ColumnType::Float)]);
    insert(&mut catalog, "metrics", vec![vec![s("a"), Literal::Float(4.0f64.to_bits())]]);
    catalog
}

fn seeded_catalog_with_orders() -> Catalog {
    let mut catalog = Catalog::new();
    create(&mut catalog, "users", vec![col("id", ColumnType::Int), col("name", ColumnType::Text)]);
    insert(
        &mut catalog,
        "users",
        vec![
            vec![Literal::Int(1), s("alice")],
            vec![Literal::Int(2), s("bob")],
            vec![Literal::Int(3), s("carol")],
        ],
    );
    create(
        &mut catalog,
        "orders",
        vec![col("id", ColumnType::Int), col("user_id", ColumnType::Int), col("total", ColumnType::Int)],
    );
    insert(
        &mut catalog,
        "orders",
        vec![
            vec![Literal::Int(100), Literal::Int(1), Literal::Int(50)],
            vec![Literal::Int(101), Literal::Int(1), Literal::Int(30)],
            vec![Literal::Int(102), Literal::Int(2), Literal::Int(20)],
            vec![Literal::Int(103), Literal::Int(99), Literal::Int(500)],
        ],
    );
    catalog
}

fn ident(name: &str) -> SqlExpr {
    SqlExpr { kind: SqlExprKind::Identifier(name.to_string()), debug: format!("Identifier({name})") }
}

fn compound(parts: &[&str]) -> SqlExpr {
    SqlExpr {
        kind: SqlExprKind::CompoundIdentifier(parts.iter().map(|p| p.to_string()).collect()),
        debug: format!("CompoundIdentifier({parts:?})"),
    }
}

fn number(text: &str) -> SqlExpr {
    let float_bits = text.parse::<f64>().ok().map(|f| f.to_bits());
    SqlExpr {
        kind: SqlExprKind::Value {
            value: SqlValue::Number { text: text.to_string(), float_bits },
            debug: format!("Number({text:?}, false)"),
        },
        debug: format!("Value(Number({text:?}, false))"),
    }
}

fn binop(left: SqlExpr, op: SqlBinaryOperator, right: SqlExpr) -> SqlExpr {
    SqlExpr { kind: SqlExprKind::BinaryOp { left: Box::new(left), op, right: Box::new(right) }, debug: "BinaryOp".to_string() }
}

fn item(e: SqlExpr) -> SqlSelectItem {
    SqlSelectItem { kind: SqlSelectItemKind::UnnamedExpr(e), debug: "item".to_string() }
}

fn query(projection: Vec<SqlSelectItem>, from: SqlTableWithJoins, selection: Option<SqlExpr>) -> Vec<SqlStatement> {
    let select = SqlSelect {
        from: vec![from],
        selection,
        projection,
        group_by: SqlGroupBy::Expressions(vec![]),
        having: None,
    };
    vec![SqlStatement {
        kind: SqlStatementKind::Query(SqlQuery {
            body: SqlSetExpr { kind: SqlSetExprKind::Select(select), debug: "Select".to_string() },
            order_by: None,
            limit: None,
        }),
        debug: "Query".to_string(),
    }]
}

fn from(table: &str) -> SqlTableWithJoins {
    SqlTableWithJoins { relation: SqlTableFactor::Table { name: table.to_string(), alias: None }, joins: vec![] }
}

fn run(statements: &[SqlStatement], catalog: &mut Catalog) -> Result<RowSet, ExecError> {
    let physical = to_physical(lower(statements).unwrap());
    execute(&physical, catalog)
}

fn row(values: Vec<Value>) -> Row {
    Row::new(values)
}

fn text(v: &str) -> Value {
    Value::String(v.to_string())
}

// SELECT name FROM users WHERE age > 30
fn filtered_projection() {
    let mut catalog = seeded_catalog();
    let ast = query(vec![item(ident("name"))], from("users"), Some(binop(ident("age"), SqlBinaryOperator::Gt, number("30"))));
    let result = run(&ast, &mut catalog).unwrap();
    assert_eq!(result.columns(), &["name".to_string()]);
    assert_eq!(result.rows(), &[row(vec![text("alice")])]);
}

#[test]
fn interpret_executes_filtered_projection() {
    filtered_projection();
}

#[test]
fn mod_executes_filtered_projection() {
    filtered_projection();
}

// SELECT ghost FROM users
fn unknown_column() {
    let mut catalog = seeded_catalog();
    let ast = query(vec![item(ident("ghost"))], from("users"), None);
    let result = run(&ast, &mut catalog);
    assert!(matches!(result, Err(ExecError::ColumnNotFound(col)) if col == "ghost"));
}

#[test]
fn interpret_errors_on_unknown_column() {
    unknown_column();
}

#[test]
fn mod_errors_on_unknown_column() {
    unknown_column();
}

// INSERT INTO users (name, age) VALUES ('eve', 41); SELECT name FROM users WHERE age > 40
fn inserts_then_reads_back() {
    let mut catalog = seeded_catalog();
    let insert = PhysicalPlan::Insert {
        table: "users".to_string(),
        columns: vec!["name".to_string(), "age".to_string()],
        rows: vec![vec![s("eve"), Literal::Int(41)]],
    };
    execute(&insert, &mut catalog).unwrap();
    let ast = query(vec![item(ident("name"))], from("users"), Some(binop(ident("age"), SqlBinaryOperator::Gt, number("40"))));
    let result = run(&ast, &mut catalog).unwrap();
    assert_eq!(result.rows(), &[row(vec![text("eve")])]);
}

#[test]
fn interpret_inserts_then_reads_back() {
    inserts_then_reads_back();
}

#[test]
fn mod_inserts_then_reads_back() {
    inserts_then_reads_back();
}

// SELECT label FROM metrics WHERE score > 3.0
fn filters_float_values() {
    let mut catalog = seeded_catalog();
    let ast = query(vec![item(ident("label"))], from("metrics"), Some(binop(ident("score"), SqlBinaryOperator::Gt, number("3.0"))));
    let result = run(&ast, &mut catalog).unwrap();
    assert_eq!(result.rows(), &[row(vec![text("a")])]);
}

#[test]
fn interpret_filters_float_values() {
    filters_float_values();
}

#[test]
fn mod_filters_float_values() {
    filters_float_values();
}

// SELECT name FROM users WHERE age > 20 + 1
fn int_addition() {
    let mut catalog = seeded_catalog();
    let sum = binop(number("20"), SqlBinaryOperator::Plus, number("1"));
    let ast = query(vec![item(ident("name"))], from("users"), Some(binop(ident("age"), SqlBinaryOperator::Gt, sum)));
    let result = run(&ast, &mut catalog).unwrap();
    assert_eq!(result.rows().len(), 2);
}

#[test]
fn interpret_executes_int_addition() {
    int_addition();
}

#[test]
fn mod_executes_int_addition() {
    int_addition();
}

// SELECT <projection> FROM users <kind> JOIN orders ON users.id = orders.user_id [WHERE ...]
fn join_query(operator: fn(SqlExpr) -> SqlJoinOperator, projection: Vec<&[&str]>, selection: Option<SqlExpr>) -> Vec<SqlStatement> {
    let on = binop(compound(&["users", "id"]), SqlBinaryOperator::Eq, compound(&["orders", "user_id"]));
    let mut entry = from("users");
    entry.joins.push(SqlJoin {
        relation: SqlTableFactor::Table { name: "orders".to_string(), alias: None },
        operator: operator(on),
    });
    query(projection.into_iter().map(|p| item(compound(p))).collect(), entry, selection)
}

fn name_and_total(operator: fn(SqlExpr) -> SqlJoinOperator) -> RowSet {
    let mut catalog = seeded_catalog_with_orders();
    let ast = join_query(operator, vec![&["users", "name"], &["orders", "total"]], None);
    run(&ast, &mut catalog).unwrap()
}

#[test]
fn inner_join_returns_only_matched_pairs() {
    let result = name_and_total(SqlJoinOperator::Join);
    assert_eq!(result.columns(), &["users.name".to_string(), "orders.total".to_string()]);
    assert_eq!(result.rows().len(), 3, "carol (no orders) and the orphaned order must both be excluded");
    let names: Vec<&Value> = result.rows().iter().map(|r| &r.values()[0]).collect();
    assert!(!names.contains(&&text("carol")), "carol has no orders, should not appear");
}

#[test]
fn left_join_pads_unmatched_left_row_with_null() {
    let result = name_and_total(SqlJoinOperator::Left);
    assert_eq!(result.rows().len(), 4, "3 matched orders + 1 unmatched user (carol)");
    let carol_row = result.rows().iter().find(|r| r.values()[0] == text("carol")).expect("carol must appear, padded with NULL");
    assert_eq!(carol_row.values()[1], Value::Null);
}

#[test]
fn right_join_pads_unmatched_right_row_with_null() {
    let result = name_and_total(SqlJoinOperator::Right);
    assert_eq!(result.rows().len(), 4, "3 matched orders + 1 unmatched order (user_id 99)");
    let orphan_row = result
        .rows()
        .iter()
        .find(|r| r.values()[1] == Value::Int(500))
        .expect("the orphaned order (total=500) must appear, padded with NULL");
    assert_eq!(orphan_row.values()[0], Value::Null);
}

#[test]
fn where_filters_correctly_on_top_of_a_join() {
    let mut catalog = seeded_catalog_with_orders();
    let selection = binop(compound(&["orders", "total"]), SqlBinaryOperator::Gt, number("25"));
    let ast = join_query(SqlJoinOperator::Join, vec![&["users", "name"]], Some(selection));
    let result = run(&ast, &mut catalog).unwrap();
    assert_eq!(result.rows().len(), 2);
    for r in result.rows() {
        assert_eq!(r.values()[0], text("alice"));
    }
}

#[test]
fn right_join_does_not_duplicate_matched_rows() {
    let result = name_and_total(SqlJoinOperator::Right);
    let alice_count = result.rows().iter().filter(|r| r.values()[0] == text("alice")).count();
    assert_eq!(alice_count, 2, "alice's two real orders must each appear exactly once, no more");
}

#[test]
fn full_outer_join_pads_both_unmatched_sides() {
    let result = name_and_total(SqlJoinOperator::FullOuter);
    assert_eq!(result.rows().len(), 5, "3 matched + carol (unmatched left) + order 103 (unmatched right)");
    let carol_row = result.rows().iter().find(|r| r.values()[0] == text("carol")).expect("carol must appear");
    assert_eq!(carol_row.values()[1], Value::Null);
    let orphan_row = result.rows().iter().find(|r| r.values()[1] == Value::Int(500)).expect("the orphan must appear");
    assert_eq!(orphan_row.values()[0], Value::Null);
    let alice_count = result.rows().iter().filter(|r| r.values()[0] == text("alice")).count();
    assert_eq!(alice_count, 2, "matched rows must not be duplicated by either padding pass");
}

#[test]
fn scan_of_a_missing_table_is_a_storage_error() {
    let mut catalog = Catalog::new();
    let result = execute(&PhysicalPlan::SeqScan { table: "nope".to_string() }, &mut catalog);
    assert!(matches!(result, Err(ExecError::Storage(StorageError::TableNotFound(t))) if t == "nope"));
}

#[test]
fn creating_a_table_twice_is_refused() {
    let mut catalog = seeded_catalog();
    let result = execute(&PhysicalPlan::CreateTable { table: "users".to_string(), columns: vec![] }, &mut catalog);
    assert!(matches!(result, Err(ExecError::Storage(StorageError::TableExists(t))) if t == "users"));
}

#[test]
fn insert_naming_too_few_columns_is_refused() {
    let mut catalog = seeded_catalog();
    let plan = PhysicalPlan::Insert {
        table: "users".to_string(),
        columns: vec!["name".to_string()],
        rows: vec![vec![s("zed")]],
    };
    let result = execute(&plan, &mut catalog);
    assert!(matches!(result, Err(ExecError::MissingColumn(m)) if m == "INSERT must specify all columns until NULL/defaults are supported"));
    let plan = PhysicalPlan::Insert {
        table: "users".to_string(),
        columns: vec!["name".to_string(), "height".to_string()],
        rows: vec![vec![s("zed"), Literal::Int(1)]],
    };
    let result = execute(&plan, &mut catalog);
    assert!(matches!(result, Err(ExecError::MissingColumn(m)) if m == "age"));
}

#[test]
fn delete_counts_and_removes_selected_rows() {
    let mut catalog = seeded_catalog();
    let predicate = Expr::BinaryOp {
        left: Box::new(Expr::Column("age".to_string())),
        op: BinaryOperator::Lt,
        right: Box::new(Expr::Literal(Literal::Int(30))),
    };
    let result = execute(&PhysicalPlan::Delete { table: "users".to_string(), predicate: Some(predicate) }, &mut catalog).unwrap();
    assert_eq!(result.columns(), &["deleted".to_string()]);
    assert_eq!(result.rows(), &[row(vec![Value::Int(1)])]);
    let rest = execute(&PhysicalPlan::SeqScan { table: "users".to_string() }, &mut catalog).unwrap();
    assert_eq!(rest.rows(), &[row(vec![text("alice"), Value::Int(35)])]);
}

#[test]
fn delete_without_predicate_empties_the_table() {
    let mut catalog = seeded_catalog();
    let result = execute(&PhysicalPlan::Delete { table: "users".to_string(), predicate: None }, &mut catalog).unwrap();
    assert_eq!(result.rows(), &[row(vec![Value::Int(2)])]);
    let rest = execute(&PhysicalPlan::SeqScan { table: "users".to_string() }, &mut catalog).unwrap();
    assert_eq!(rest.rows().len(), 0);
}

#[test]
fn update_moves_changed_rows_after_the_others_and_keeps_the_count() {
    let mut catalog = seeded_catalog();
    let predicate = Expr::BinaryOp {
        left: Box::new(Expr::Column("name".to_string())),
        op: BinaryOperator::Eq,
        right: Box::new(Expr::Literal(s("alice"))),
    };
    let plan = PhysicalPlan::Update {
        table: "users".to_string(),
        assignments: vec![("age".to_string(), Literal::Int(36))],
        predicate: Some(predicate),
    };
    let result = execute(&plan, &mut catalog).unwrap();
    assert_eq!(result.columns(), &["updated".to_string()]);
    assert_eq!(result.rows(), &[row(vec![Value::Int(1)])]);
    let all = execute(&PhysicalPlan::SeqScan { table: "users".to_string() }, &mut catalog).unwrap();
    assert_eq!(all.rows(), &[row(vec![text("bob"), Value::Int(22)]), row(vec![text("alice"), Value::Int(36)])]);
    let bad = PhysicalPlan::Update { table: "users".to_string(), assignments: vec![("x".to_string(), Literal::Int(1))], predicate: None };
    assert!(matches!(execute(&bad, &mut catalog), Err(ExecError::ColumnNotFound(c)) if c == "x"));
}

#[test]
fn sort_puts_nulls_last_in_both_directions() {
    let mut catalog = Catalog::new();
    create(&mut catalog, "t", vec![col("a", ColumnType::Int)]);
    insert(&mut catalog, "t", vec![vec![Literal::Int(2)], vec![Literal::Null], vec![Literal::Int(1)]]);
    let scan = || Box::new(PhysicalPlan::SeqScan { table: "t".to_string() });
    let asc = execute(&PhysicalPlan::Sort { input: scan(), order_by: vec![("a".to_string(), SortDirection::Asc)] }, &mut catalog).unwrap();
    assert_eq!(asc.rows(), &[row(vec![Value::Int(1)]), row(vec![Value::Int(2)]), row(vec![Value::Null])]);
    let desc = execute(&PhysicalPlan::Sort { input: scan(), order_by: vec![("a".to_string(), SortDirection::Desc)] }, &mut catalog).unwrap();
    assert_eq!(desc.rows(), &[row(vec![Value::Int(2)]), row(vec![Value::Int(1)]), row(vec![Value::Null])]);
}

#[test]
fn limit_skips_the_offset_then_takes_the_count() {
    let mut catalog = seeded_catalog_with_orders();
    let plan = PhysicalPlan::Limit { input: Box::new(PhysicalPlan::SeqScan { table: "orders".to_string() }), limit: Some(2), offset: Some(1) };
    let result = execute(&plan, &mut catalog).unwrap();
    let ids: Vec<&Value> = result.rows().iter().map(|r| &r.values()[0]).collect();
    assert_eq!(ids, vec![&Value::Int(101), &Value::Int(102)]);
}

fn agg(func: AggFunc, column: Option<&str>, alias: &str) -> AggregateExpr {
    AggregateExpr { func, column: column.map(|c| c.to_string()), alias: alias.to_string() }
}

#[test]
fn aggregates_group_by_first_appearance() {
    let mut catalog = seeded_catalog_with_orders();
    let plan = PhysicalPlan::Aggregate {
        input: Box::new(PhysicalPlan::SeqScan { table: "orders".to_string() }),
        group_by: vec!["user_id".to_string()],
        aggregates: vec![agg(AggFunc::Count, None, "COUNT(*)"), agg(AggFunc::Sum, Some("total"), "SUM(total)"), agg(AggFunc::Max, Some("total"), "MAX(total)")],
    };
    let result = execute(&plan, &mut catalog).unwrap();
    assert_eq!(result.columns(), &["user_id".to_string(), "COUNT(*)".to_string(), "SUM(total)".to_string(), "MAX(total)".to_string()]);
    assert_eq!(
        result.rows(),
        &[
            row(vec![Value::Int(1), Value::Int(2), Value::Int(80), Value::Int(50)]),
            row(vec![Value::Int(2), Value::Int(1), Value::Int(20), Value::Int(20)]),
            row(vec![Value::Int(99), Value::Int(1), Value::Int(500), Value::Int(500)]),
        ]
    );
}

#[test]
fn count_of_an_empty_table_is_one_row_of_zero() {
    let mut catalog = Catalog::new();
    create(&mut catalog, "t", vec![col("a", ColumnType::Int)]);
    let plan = PhysicalPlan::Aggregate {
        input: Box::new(PhysicalPlan::SeqScan { table: "t".to_string() }),
        group_by: vec![],
        aggregates: vec![agg(AggFunc::Count, None, "COUNT(*)")],
    };
    let result = execute(&plan, &mut catalog).unwrap();
    assert_eq!(result.rows(), &[row(vec![Value::Int(0)])]);
}

#[test]
fn average_needs_floating_point_arithmetic() {
    let mut catalog = seeded_catalog_with_orders();
    let plan = PhysicalPlan::Aggregate {
        input: Box::new(PhysicalPlan::SeqScan { table: "orders".to_string() }),
        group_by: vec![],
        aggregates: vec![agg(AggFunc::Avg, Some("total"), "AVG(total)")],
    };
    assert!(matches!(execute(&plan, &mut catalog), Err(ExecError::FloatArithmetic)));
}

#[test]
fn index_scans_find_rows_by_key() {
    let mut catalog = seeded_catalog_with_orders();
    execute(&PhysicalPlan::CreateIndex { index_name: "by_user".to_string(), table: "orders".to_string(), column: "user_id".to_string() }, &mut catalog).unwrap();
    let eq = PhysicalPlan::IndexScan { table: "orders".to_string(), index_name: "by_user".to_string(), key: Literal::Int(1) };
    let result = execute(&eq, &mut catalog).unwrap();
    assert_eq!(result.rows().len(), 2);
    let range = PhysicalPlan::RangeIndexScan {
        table: "orders".to_string(),
        index_name: "by_user".to_string(),
        lower: Some((Literal::Int(2), true)),
        upper: None,
    };
    let result = execute(&range, &mut catalog).unwrap();
    let users: Vec<&Value> = result.rows().iter().map(|r| &r.values()[1]).collect();
    assert_eq!(users, vec![&Value::Int(2), &Value::Int(99)]);
    let bad_key = PhysicalPlan::IndexScan { table: "orders".to_string(), index_name: "by_user".to_string(), key: Literal::Bool(true) };
    assert!(matches!(execute(&bad_key, &mut catalog), Err(ExecError::TypeMismatch)));
    let missing = PhysicalPlan::IndexScan { table: "orders".to_string(), index_name: "nope".to_string(), key: Literal::Int(1) };
    assert!(matches!(execute(&missing, &mut catalog), Err(ExecError::Storage(StorageError::IndexNotFound(_)))));
}

#[test]
fn index_scan_returns_what_the_equality_filter_returns() {
    let mut catalog = seeded_catalog_with_orders();
    execute(&PhysicalPlan::CreateIndex { index_name: "by_user".to_string(), table: "orders".to_string(), column: "user_id".to_string() }, &mut catalog).unwrap();
    let scan = PhysicalPlan::IndexScan { table: "orders".to_string(), index_name: "by_user".to_string(), key: Literal::Int(1) };
    let filter = PhysicalPlan::Filter {
        input: Box::new(PhysicalPlan::SeqScan { table: "orders".to_string() }),
        predicate: Expr::BinaryOp {
            left: Box::new(Expr::Column("user_id".to_string())),
            op: BinaryOperator::Eq,
            right: Box::new(Expr::Literal(Literal::Int(1))),
        },
    };
    let by_index = execute(&scan, &mut catalog).unwrap();
    let by_filter = execute(&filter, &mut catalog).unwrap();
    assert_eq!(by_index.columns(), by_filter.columns());
    assert_eq!(format!("{:?}", by_index.rows()), format!("{:?}", by_filter.rows()));
    assert_eq!(by_filter.rows().len(), 2);
}

#[test]
fn range_scan_returns_the_rows_of_the_comparison_filter_in_key_order() {
    let mut catalog = seeded_catalog_with_orders();
    execute(&PhysicalPlan::CreateIndex { index_name: "by_total".to_string(), table: "orders".to_string(), column: "total".to_string() }, &mut catalog).unwrap();
    let range = PhysicalPlan::RangeIndexScan {
        table: "orders".to_string(),
        index_name: "by_total".to_string(),
        lower: Some((Literal::Int(25), false)),
        upper: None,
    };
    let filter = PhysicalPlan::Filter {
        input: Box::new(PhysicalPlan::SeqScan { table: "orders".to_string() }),
        predicate: Expr::BinaryOp {
            left: Box::new(Expr::Column("total".to_string())),
            op: BinaryOperator::Gt,
            right: Box::new(Expr::Literal(Literal::Int(25))),
        },
    };
    let by_index = execute(&range, &mut catalog).unwrap();
    let by_filter = execute(&filter, &mut catalog).unwrap();
    let totals = |rs: &RowSet| -> Vec<String> { rs.rows().iter().map(|r| format!("{:?}", r.values()[2])).collect() };
    assert_eq!(totals(&by_index), vec!["Int(30)", "Int(50)", "Int(500)"]);
    let mut a = totals(&by_index);
    let mut b = totals(&by_filter);
    a.sort();
    b.sort();
    assert_eq!(a, b);
}

#[test]
fn index_nested_loop_join_matches_the_nested_loop_join() {
    let mut catalog = seeded_catalog_with_orders();
    execute(&PhysicalPlan::CreateIndex { index_name: "by_user".to_string(), table: "orders".to_string(), column: "user_id".to_string() }, &mut catalog).unwrap();
    let plan = PhysicalPlan::IndexNestedLoopJoin {
        left: Box::new(PhysicalPlan::SeqScan { table: "users".to_string() }),
        left_table: "users".to_string(),
        right_table_real: "orders".to_string(),
        right_table_qualifier: "orders".to_string(),
        right_index_name: "by_user".to_string(),
        left_join_column: "id".to_string(),
        kind: JoinKind::FullOuter,
    };
    let indexed = execute(&plan, &mut catalog).unwrap();
    let nested = PhysicalPlan::NestedLoopJoin {
        left: Box::new(PhysicalPlan::SeqScan { table: "users".to_string() }),
        right: Box::new(PhysicalPlan::SeqScan { table: "orders".to_string() }),
        left_table: "users".to_string(),
        right_table: "orders".to_string(),
        on: Expr::BinaryOp {
            left: Box::new(Expr::Column("users.id".to_string())),
            op: BinaryOperator::Eq,
            right: Box::new(Expr::Column("orders.user_id".to_string())),
        },
        kind: JoinKind::FullOuter,
    };
    let plain = execute(&nested, &mut catalog).unwrap();
    assert_eq!(indexed, plain);
    assert_eq!(indexed.rows().len(), 5);
}

#[test]
fn drop_table_removes_it_unless_missing_is_allowed() {
    let mut catalog = seeded_catalog();
    execute(&PhysicalPlan::DropTable { table: "users".to_string(), if_exists: false }, &mut catalog).unwrap();
    assert!(execute(&PhysicalPlan::SeqScan { table: "users".to_string() }, &mut catalog).is_err());
    assert!(execute(&PhysicalPlan::DropTable { table: "users".to_string(), if_exists: true }, &mut catalog).is_ok());
    assert!(matches!(
        execute(&PhysicalPlan::DropTable { table: "users".to_string(), if_exists: false }, &mut catalog),
        Err(ExecError::Storage(StorageError::TableNotFound(_)))
    ));
}

#[test]
fn projection_of_all_columns_keeps_them_in_order() {
    let mut catalog = seeded_catalog();
    let plan = PhysicalPlan::Project { input: Box::new(PhysicalPlan::SeqScan { table: "users".to_string() }), columns: Projection::All };
    let result = execute(&plan, &mut catalog).unwrap();
    assert_eq!(result.columns(), &["name".to_string(), "age".to_string()]);
    assert_eq!(result.rows().len(), 2);
}
