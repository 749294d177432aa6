use crumble::ir::{AggFunc, BinaryOperator, ColumnType, Expr, JoinKind, Literal, LogicalPlan, LowerError, Projection, SortDirection};
use crumble::lower::{lower, lower_from, lower_projection};
use crumble::lower_aggregate::{is_aggregate_query, lower_aggregate, lower_aggregate_func};
use crumble::lower_clause::{apply_limit, apply_order_by, lower_create_index, lower_drop, lower_vacuum, number_value};
use crumble::lower_expr::lower_expr;
use crumble::sql_ast::{
    SqlAssignment, SqlBinaryOperator, SqlColumnDef, SqlColumnName, SqlCreateIndex, SqlCreateTable, SqlDataType,
    SqlDelete, SqlExpr, SqlExprKind, SqlFunction, SqlFunctionArg, SqlFunctionArgs, SqlGroupBy, SqlInsert,
    SqlJoin, SqlJoinOperator, SqlLimitClause, SqlObjectType, SqlOrderBy, SqlOrderByExpr, SqlQuery, SqlSelect,
    SqlSelectItem, SqlSelectItemKind, SqlSetExpr, SqlSetExprKind, SqlStatement, SqlStatementKind, SqlTableFactor,
    SqlTableWithJoins, SqlUpdate, SqlValue,
};

fn ident(name: &str) -> SqlExpr {
    SqlExpr { kind: SqlExprKind::Identifier(name.to_string()), debug: format!("Identifier({name})") }
}

fn compound(parts: &[&str]) -> SqlExpr {
    SqlExpr {
        kind: SqlExprKind::CompoundIdentifier(parts.iter().map(|p| p.to_string()).collect()),
        debug: format!("CompoundIdentifier({parts:?})"),
    }
}

fn number(text: &str) -> SqlExpr {
    let float_bits = text.parse::<f64>().ok().map(|f| f.to_bits());
    SqlExpr {
        kind: SqlExprKind::Value {
            value: SqlValue::Number { text: text.to_string(), float_bits },
            debug: format!("Number({text:?}, false)"),
        },
        debug: format!("Value(Number({text:?}, false))"),
    }
}

fn string(text: &str) -> SqlExpr {
    SqlExpr {
        kind: SqlExprKind::Value {
            value: SqlValue::SingleQuotedString(text.to_string()),
            debug: format!("SingleQuotedString({text:?})"),
        },
        debug: format!("Value(SingleQuotedString({text:?}))"),
    }
}

fn binop(left: SqlExpr, op: SqlBinaryOperator, right: SqlExpr) -> SqlExpr {
    SqlExpr {
        kind: SqlExprKind::BinaryOp { left: Box::new(left), op, right: Box::new(right) },
        debug: "BinaryOp".to_string(),
    }
}

fn column_item(name: &str) -> SqlSelectItem {
    SqlSelectItem { kind: SqlSelectItemKind::UnnamedExpr(ident(name)), debug: format!("UnnamedExpr({name})") }
}

fn table(name: &str) -> SqlTableFactor {
    SqlTableFactor::Table { name: name.to_string(), alias: None }
}

fn select(projection: Vec<SqlSelectItem>, from: &str, selection: Option<SqlExpr>) -> SqlSelect {
    SqlSelect {
        from: vec![SqlTableWithJoins { relation: table(from), joins: vec![] }],
        selection,
        projection,
        group_by: SqlGroupBy::Expressions(vec![]),
        having: None,
    }
}

fn query(select: SqlSelect) -> SqlStatement {
    SqlStatement {
        kind: SqlStatementKind::Query(SqlQuery {
            body: SqlSetExpr { kind: SqlSetExprKind::Select(select), debug: "Select".to_string() },
            order_by: None,
            limit: None,
        }),
        debug: "Query".to_string(),
    }
}

fn unsupported(r: Result<LogicalPlan, LowerError>) -> String {
    match r {
        Err(LowerError::Unsupported(m)) => m,
        Ok(p) => panic!("expected an error, got {p:?}"),
    }
}

// `SELECT name FROM users WHERE age > 30`
fn select_name_where(predicate: SqlExpr) -> Vec<SqlStatement> {
    vec![query(select(vec![column_item("name")], "users", Some(predicate)))]
}

fn lowers_select_with_filter_body() {
    let ast = select_name_where(binop(ident("age"), SqlBinaryOperator::Gt, number("30")));
    let plan = lower(&ast).unwrap();
    let expected = LogicalPlan::Project {
        input: Box::new(LogicalPlan::Filter {
            input: Box::new(LogicalPlan::Scan { table: "users".to_string() }),
            predicate: Expr::BinaryOp {
                left: Box::new(Expr::Column("age".to_string())),
                op: BinaryOperator::Gt,
                right: Box::new(Expr::Literal(Literal::Int(30))),
            },
        }),
        columns: Projection::Columns(vec!["name".to_string()]),
    };
    assert_eq!(plan, expected);
}

fn lowers_select_without_filter_body() {
    let ast = vec![query(select(vec![column_item("name")], "users", None))];
    let plan = lower(&ast).unwrap();
    let expected = LogicalPlan::Project {
        input: Box::new(LogicalPlan::Scan { table: "users".to_string() }),
        columns: Projection::Columns(vec!["name".to_string()]),
    };
    assert_eq!(plan, expected);
}

#[test]
fn lower_lowers_select_with_filter() {
    lowers_select_with_filter_body();
}

#[test]
fn mod_lowers_select_with_filter() {
    lowers_select_with_filter_body();
}

#[test]
fn lower_lowers_select_without_filter() {
    lowers_select_without_filter_body();
}

#[test]
fn mod_lowers_select_without_filter() {
    lowers_select_without_filter_body();
}

#[test]
fn lowers_select_with_filter_float() {
    let ast = select_name_where(binop(ident("salary"), SqlBinaryOperator::Gt, number("30.12894")));
    let plan = lower(&ast).unwrap();
    let expected = LogicalPlan::Project {
        input: Box::new(LogicalPlan::Filter {
            input: Box::new(LogicalPlan::Scan { table: "users".to_string() }),
            predicate: Expr::BinaryOp {
                left: Box::new(Expr::Column("salary".to_string())),
                op: BinaryOperator::Gt,
                right: Box::new(Expr::Literal(Literal::Float(30.12894f64.to_bits()))),
            },
        }),
        columns: Projection::Columns(vec!["name".to_string()]),
    };
    assert_eq!(plan, expected);
}

#[test]
fn lowers_float_literal() {
    let ast = select_name_where(binop(ident("age"), SqlBinaryOperator::Gt, number("22.5")));
    let plan = lower(&ast).unwrap();
    match plan {
        LogicalPlan::Project { input, .. } => match *input {
            LogicalPlan::Filter { predicate, .. } => match predicate {
                Expr::BinaryOp { right, .. } => match *right {
                    Expr::Literal(Literal::Float(bits)) => assert_eq!(f64::from_bits(bits), 22.5),
                    other => panic!("expected Float literal, got {other:?}"),
                },
                other => panic!("expected Filter, got {other:?}"),
            },
            other => panic!("expected Filter, got {other:?}"),
        },
        other => panic!("expected Project, got {other:?}"),
    }
}

#[test]
fn empty_script_is_refused() {
    assert_eq!(unsupported(lower(&[])), "empty statement");
}

#[test]
fn other_statements_are_refused_with_their_text() {
    let st = SqlStatement { kind: SqlStatementKind::Other, debug: "Explain".to_string() };
    assert_eq!(unsupported(lower(&[st])), "statement: Explain");
}

#[test]
fn wildcard_projects_every_column() {
    let item = SqlSelectItem { kind: SqlSelectItemKind::Wildcard, debug: "Wildcard".to_string() };
    assert_eq!(lower_projection(&[item]), Ok(Projection::All));
}

#[test]
fn dotted_projection_joins_parts() {
    let item = SqlSelectItem {
        kind: SqlSelectItemKind::UnnamedExpr(compound(&["users", "name"])),
        debug: "item".to_string(),
    };
    assert_eq!(lower_projection(&[item]), Ok(Projection::Columns(vec!["users.name".to_string()])));
}

#[test]
fn from_with_two_entries_is_refused() {
    let entry = || SqlTableWithJoins { relation: table("a"), joins: vec![] };
    assert_eq!(unsupported(lower_from(&[entry(), entry()])), "queries must reference exactly one FROM entry");
}

#[test]
fn left_join_keeps_aliases_as_qualifiers() {
    let on = binop(compound(&["u", "id"]), SqlBinaryOperator::Eq, compound(&["o", "user_id"]));
    let from = SqlTableWithJoins {
        relation: SqlTableFactor::Table { name: "users".to_string(), alias: Some("u".to_string()) },
        joins: vec![SqlJoin { relation: table("orders"), operator: SqlJoinOperator::Left(on) }],
    };
    match lower_from(&[from]).unwrap() {
        LogicalPlan::Join { left_table, right_table, kind, .. } => {
            assert_eq!(left_table, "u");
            assert_eq!(right_table, "orders");
            assert_eq!(kind, JoinKind::Left);
        },
        other => panic!("expected a join, got {other:?}"),
    }
}

#[test]
fn in_list_becomes_disjunction_and_not_compares_with_false() {
    let list = SqlExpr {
        kind: SqlExprKind::InList { expr: Box::new(ident("a")), list: vec![number("1"), number("2")], negated: true },
        debug: "InList".to_string(),
    };
    let lowered = lower_expr(&list).unwrap();
    let eq = |n| Expr::BinaryOp {
        left: Box::new(Expr::Column("a".to_string())),
        op: BinaryOperator::Eq,
        right: Box::new(Expr::Literal(Literal::Int(n))),
    };
    let expected = Expr::BinaryOp {
        left: Box::new(Expr::BinaryOp { left: Box::new(eq(1)), op: BinaryOperator::Or, right: Box::new(eq(2)) }),
        op: BinaryOperator::Eq,
        right: Box::new(Expr::Literal(Literal::Bool(false))),
    };
    assert_eq!(lowered, expected);
}

#[test]
fn insert_orders_rows_and_reports_missing_source() {
    let insert = SqlInsert {
        table: "users".to_string(),
        columns: vec![SqlColumnName::Name("name".to_string()), SqlColumnName::Name("age".to_string())],
        source: Some(SqlSetExpr {
            kind: SqlSetExprKind::Values(vec![vec![string("eve"), number("41")]]),
            debug: "Values".to_string(),
        }),
    };
    let st = SqlStatement { kind: SqlStatementKind::Insert(insert), debug: "Insert".to_string() };
    assert_eq!(
        lower(&[st]).unwrap(),
        LogicalPlan::Insert {
            table: "users".to_string(),
            columns: vec!["name".to_string(), "age".to_string()],
            rows: vec![vec![Literal::String("eve".to_string()), Literal::Int(41)]],
        }
    );
    let no_source = SqlInsert { table: "t".to_string(), columns: vec![], source: None };
    let st = SqlStatement { kind: SqlStatementKind::Insert(no_source), debug: "Insert".to_string() };
    assert_eq!(unsupported(lower(&[st])), "INSERT without VALUES");
}

#[test]
fn create_table_maps_column_types() {
    let create = SqlCreateTable {
        name: "t".to_string(),
        columns: vec![
            SqlColumnDef { name: "a".to_string(), data_type: SqlDataType::BigInt },
            SqlColumnDef { name: "b".to_string(), data_type: SqlDataType::Varchar },
        ],
    };
    let st = SqlStatement { kind: SqlStatementKind::CreateTable(create), debug: "CreateTable".to_string() };
    match lower(&[st]).unwrap() {
        LogicalPlan::CreateTable { table, columns } => {
            assert_eq!(table, "t");
            assert_eq!(columns[0].typ, ColumnType::Int);
            assert_eq!(columns[1].typ, ColumnType::Text);
        },
        other => panic!("unexpected {other:?}"),
    }
    let bad = SqlCreateTable {
        name: "t".to_string(),
        columns: vec![SqlColumnDef { name: "a".to_string(), data_type: SqlDataType::Other { debug: "Blob".to_string() } }],
    };
    let st = SqlStatement { kind: SqlStatementKind::CreateTable(bad), debug: "CreateTable".to_string() };
    assert_eq!(unsupported(lower(&[st])), "column type: Blob");
}

#[test]
fn delete_table_name_is_cut_from_the_from_clause() {
    let delete = SqlDelete { from: "FROM  users , other".to_string(), selection: None };
    let st = SqlStatement { kind: SqlStatementKind::Delete(delete), debug: "Delete".to_string() };
    assert_eq!(lower(&[st]).unwrap(), LogicalPlan::Delete { table: "users".to_string(), predicate: None });
}

#[test]
fn update_needs_a_plain_table_and_literal_values() {
    let update = SqlUpdate {
        table: table("users"),
        assignments: vec![SqlAssignment { target: "age".to_string(), value: number("5") }],
        selection: None,
    };
    let st = SqlStatement { kind: SqlStatementKind::Update(update), debug: "Update".to_string() };
    assert_eq!(
        lower(&[st]).unwrap(),
        LogicalPlan::Update {
            table: "users".to_string(),
            assignments: vec![("age".to_string(), Literal::Int(5))],
            predicate: None
        }
    );
    let update = SqlUpdate {
        table: table("users"),
        assignments: vec![SqlAssignment { target: "age".to_string(), value: ident("x") }],
        selection: None,
    };
    let st = SqlStatement { kind: SqlStatementKind::Update(update), debug: "Update".to_string() };
    assert_eq!(unsupported(lower(&[st])), "VALUES entry: Identifier(x)");
}

#[test]
fn order_by_defaults_to_ascending() {
    let input = LogicalPlan::Scan { table: "t".to_string() };
    let order = Some(SqlOrderBy::Expressions(vec![
        SqlOrderByExpr { expr: ident("a"), asc: None },
        SqlOrderByExpr { expr: ident("b"), asc: Some(false) },
    ]));
    assert_eq!(
        apply_order_by(input, &order).unwrap(),
        LogicalPlan::Sort {
            input: Box::new(LogicalPlan::Scan { table: "t".to_string() }),
            order_by: vec![("a".to_string(), SortDirection::Asc), ("b".to_string(), SortDirection::Desc)],
        }
    );
    let input = LogicalPlan::Scan { table: "t".to_string() };
    assert_eq!(unsupported(apply_order_by(input, &Some(SqlOrderBy::All))), "ORDER BY ALL not supported");
}

#[test]
fn limit_and_offset_read_unsigned_numbers() {
    let input = LogicalPlan::Scan { table: "t".to_string() };
    let clause = Some(SqlLimitClause::LimitOffset { limit: Some(number("10")), offset: Some(number("+3")) });
    assert_eq!(
        apply_limit(input, &clause).unwrap(),
        LogicalPlan::Limit { input: Box::new(LogicalPlan::Scan { table: "t".to_string() }), limit: Some(10), offset: Some(3) }
    );
    assert_eq!(number_value(&number("-1")), Err(LowerError::Unsupported("LIMIT/OFFSET value: -1".to_string())));
}

#[test]
fn create_index_drop_and_vacuum() {
    let c = SqlCreateIndex { name: Some("i".to_string()), table_name: "t".to_string(), columns: vec!["a".to_string()] };
    assert_eq!(
        lower_create_index(&c).unwrap(),
        LogicalPlan::CreateIndex { index_name: "i".to_string(), table: "t".to_string(), column: "a".to_string() }
    );
    let c = SqlCreateIndex { name: None, table_name: "t".to_string(), columns: vec!["a".to_string()] };
    assert_eq!(unsupported(lower_create_index(&c)), "CREATE INDEX requires a name");
    assert_eq!(
        lower_drop(&SqlObjectType::Index, true, &["i".to_string()]).unwrap(),
        LogicalPlan::DropIndex { index_name: "i".to_string(), if_exists: true }
    );
    assert_eq!(
        unsupported(lower_drop(&SqlObjectType::Table, false, &["a".to_string(), "b".to_string()])),
        "dropping multiple objects at once not supported yet"
    );
    assert_eq!(lower_vacuum(&None).unwrap(), LogicalPlan::VacuumAll);
}

fn function(name: &str, args: SqlFunctionArgs) -> SqlFunction {
    SqlFunction { name: name.to_string(), args }
}

#[test]
fn aggregate_names_are_read_in_any_case() {
    let star = SqlFunctionArgs::List { args: vec![SqlFunctionArg::Wildcard], debug: "[Wildcard]".to_string() };
    let agg = lower_aggregate_func(&function("count", star), None).unwrap();
    assert_eq!(agg.func, AggFunc::Count);
    assert_eq!(agg.alias, "COUNT(*)");
    let one = SqlFunctionArgs::List { args: vec![SqlFunctionArg::Expr(ident("age"))], debug: "[age]".to_string() };
    let agg = lower_aggregate_func(&function("Sum", one), None).unwrap();
    assert_eq!(agg.alias, "SUM(age)");
    let none = SqlFunctionArgs::List { args: vec![], debug: "[]".to_string() };
    assert_eq!(
        lower_aggregate_func(&function("max", none), None),
        Err(LowerError::Unsupported("MAX(*) not supported, MAX needs a column".to_string()))
    );
}

#[test]
fn aggregate_query_with_having_computes_hidden_aggregates() {
    let count = SqlExpr {
        kind: SqlExprKind::Function(function(
            "COUNT",
            SqlFunctionArgs::List { args: vec![SqlFunctionArg::Wildcard], debug: "[Wildcard]".to_string() },
        )),
        debug: "Function".to_string(),
    };
    let sum = SqlExpr {
        kind: SqlExprKind::Function(function(
            "SUM",
            SqlFunctionArgs::List { args: vec![SqlFunctionArg::Expr(ident("age"))], debug: "[age]".to_string() },
        )),
        debug: "Function".to_string(),
    };
    let select = SqlSelect {
        from: vec![SqlTableWithJoins { relation: table("users"), joins: vec![] }],
        selection: None,
        projection: vec![
            column_item("city"),
            SqlSelectItem { kind: SqlSelectItemKind::UnnamedExpr(count), debug: "count".to_string() },
        ],
        group_by: SqlGroupBy::Expressions(vec![ident("city")]),
        having: Some(binop(sum, SqlBinaryOperator::Gt, number("100"))),
    };
    assert!(is_aggregate_query(&select));
    let (plan, projection) = lower_aggregate(&select, LogicalPlan::Scan { table: "users".to_string() }).unwrap();
    assert_eq!(projection, Projection::Columns(vec!["city".to_string(), "COUNT(*)".to_string()]));
    match plan {
        LogicalPlan::Filter { input, predicate } => {
            assert_eq!(
                predicate,
                Expr::BinaryOp {
                    left: Box::new(Expr::Column("SUM(age)".to_string())),
                    op: BinaryOperator::Gt,
                    right: Box::new(Expr::Literal(Literal::Int(100))),
                }
            );
            match *input {
                LogicalPlan::Aggregate { group_by, aggregates, .. } => {
                    assert_eq!(group_by, vec!["city".to_string()]);
                    let aliases: Vec<&str> = aggregates.iter().map(|a| a.alias.as_str()).collect();
                    assert_eq!(aliases, vec!["COUNT(*)", "SUM(age)"]);
                },
                other => panic!("unexpected {other:?}"),
            }
        },
        other => panic!("unexpected {other:?}"),
    }
}

#[test]
fn integer_literals_read_like_std_parse() {
    assert_eq!(lower_expr(&number("-9223372036854775808")).unwrap(), Expr::Literal(Literal::Int(i64::MIN)));
    assert_eq!(lower_expr(&number("+42")).unwrap(), Expr::Literal(Literal::Int(42)));
    // one past i64::MAX is read as a float
    assert!(matches!(lower_expr(&number("9223372036854775808")).unwrap(), Expr::Literal(Literal::Float(_))));
    assert_eq!(number_value(&number("18446744073709551615")), Ok(u64::MAX));
    assert!(number_value(&number("18446744073709551616")).is_err());
    assert!(number_value(&number("1x")).is_err());
    assert!(number_value(&number("+")).is_err());
}
