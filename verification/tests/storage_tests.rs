use crumble::btree::{
    child_for_key, delete_leaf_entry, insert_leaf_entry, search_leaf, split_leaf_entries, split_placement, ROOT_PAGE,
};
use crumble::cache::PageCache;
use crumble::error::IndexError;
use crumble::eval::{eval_binary_op, eval_expr, ExecError, Row, Value};
use crumble::float::{float_equals, float_less};
use crumble::ir::{BinaryOperator, Expr, Literal};
use crumble::key::IndexKey;
use crumble::node::{
    build_internal_page, build_leaf_page, read_header, read_internal_entries, read_leaf_entries, InternalEntry,
    LeafEntry,
};
use crumble::page::Page;

fn leaf(n: i64, page_index: u32, slot: u16) -> LeafEntry {
    LeafEntry { key: IndexKey::Int(n), page_index, slot }
}

fn key_int(k: &IndexKey) -> i64 {
    match k {
        IndexKey::Int(n) => *n,
        other => panic!("expected an integer key, got {other:?}"),
    }
}

#[test]
fn leaf_page_round_trips_through_its_encoding() {
    let entries = vec![
        leaf(1, 10, 0),
        LeafEntry { key: IndexKey::String("bob".to_string()), page_index: 11, slot: 2 },
        LeafEntry { key: IndexKey::Null, page_index: 12, slot: 3 },
    ];
    let page = build_leaf_page(&entries, Some(7)).unwrap();
    let header = read_header(&page).unwrap();
    assert!(header.is_leaf);
    assert_eq!(header.next_leaf, Some(7));
    let back = read_leaf_entries(&page).unwrap();
    assert_eq!(back.len(), 3);
    assert_eq!(key_int(&back[0].key), 1);
    assert!(matches!(&back[1].key, IndexKey::String(s) if s == "bob"));
    assert!(matches!(back[2].key, IndexKey::Null));
    assert_eq!((back[1].page_index, back[1].slot), (11, 2));
}

#[test]
fn node_rows_hold_each_field_in_order() {
    let entries = vec![
        leaf(5, 3, 2),
        LeafEntry { key: IndexKey::String("ab".to_string()), page_index: 4, slot: 1 },
        LeafEntry { key: IndexKey::Null, page_index: 6, slot: 0 },
    ];
    let page = build_leaf_page(&entries, None).unwrap();
    assert_eq!(page.slot_count(), 4);
    // header (is_leaf, leftmost_child, next_leaf)
    assert_eq!(page.get_row(0), Some(&[1u8, 0, 0][..]));
    // (variant 0, zigzag 5, page, slot)
    assert_eq!(page.get_row(1), Some(&[0u8, 10, 3, 2][..]));
    // (variant 1, length, bytes, page, slot)
    assert_eq!(page.get_row(2), Some(&[1u8, 2, b'a', b'b', 4, 1][..]));
    // (variant 2, page, slot)
    assert_eq!(page.get_row(3), Some(&[2u8, 6, 0][..]));
}

#[test]
fn empty_page_has_no_node_header() {
    match read_header(&Page::new()) {
        Err(IndexError::Encoding(m)) => assert_eq!(m, "missing node header"),
        other => panic!("unexpected {other:?}"),
    }
}

#[test]
fn corrupt_string_length_is_an_error_not_a_panic() {
    let mut page = Page::new();
    page.insert_row(&[0u8, 0, 0]);
    // variant 1 (string key) with a length prefix of u64::MAX
    page.insert_row(&[1u8, 253, 255, 255, 255, 255, 255, 255, 255, 255, 0, 0]);
    assert!(matches!(read_leaf_entries(&page), Err(IndexError::Encoding(_))));
}

#[test]
fn internal_page_round_trips_and_overfull_nodes_are_refused() {
    let entries = vec![InternalEntry { key: IndexKey::Int(5), child_page: 3 }];
    let page = build_internal_page(&entries, 2).unwrap();
    let header = read_header(&page).unwrap();
    assert!(!header.is_leaf);
    assert_eq!(header.leftmost_child, 2);
    let back = read_internal_entries(&page).unwrap();
    assert_eq!(back.len(), 1);
    assert_eq!(back[0].child_page, 3);
    let huge: Vec<LeafEntry> = (0..1000).map(|i| leaf(i, 0, 0)).collect();
    assert!(matches!(build_leaf_page(&huge, None), Err(IndexError::NodeFull)));
}

#[test]
fn routing_picks_the_last_separator_not_above_the_key() {
    let entries = vec![
        InternalEntry { key: IndexKey::Int(10), child_page: 2 },
        InternalEntry { key: IndexKey::Int(20), child_page: 3 },
    ];
    assert_eq!(child_for_key(&entries, 1, &IndexKey::Int(5)), 1);
    assert_eq!(child_for_key(&entries, 1, &IndexKey::Int(10)), 2);
    assert_eq!(child_for_key(&entries, 1, &IndexKey::Int(25)), 3);
}

#[test]
fn leaf_insert_search_delete_and_split() {
    let mut entries = Vec::new();
    for (n, slot) in [(5, 0u16), (1, 1), (3, 2), (3, 3)] {
        insert_leaf_entry(&mut entries, leaf(n, 0, slot));
    }
    let keys: Vec<i64> = entries.iter().map(|e| key_int(&e.key)).collect();
    assert_eq!(keys, vec![1, 3, 3, 5]);
    assert_eq!(search_leaf(&entries, &IndexKey::Int(3)), vec![(0, 2), (0, 3)]);
    assert!(delete_leaf_entry(&mut entries, &IndexKey::Int(3), 0, 2));
    assert_eq!(search_leaf(&entries, &IndexKey::Int(3)), vec![(0, 3)]);
    assert!(!delete_leaf_entry(&mut entries, &IndexKey::Int(4), 0, 0));
    assert_eq!(entries.len(), 3);
    let (low, high, separator) = split_leaf_entries(&entries);
    assert_eq!(low.len() + high.len(), 3);
    assert_eq!(key_int(&separator), key_int(&high[0].key));
}

#[test]
fn cache_evicts_the_least_recently_used_page() {
    let mut cache = PageCache::new(2);
    cache.insert(1, Page::new());
    cache.insert(2, Page::new());
    assert!(cache.lookup(1).is_some());
    cache.insert(3, Page::new());
    assert_eq!(cache.len(), 2);
    assert!(cache.lookup(2).is_none(), "page 2 was least recently used");
    assert!(cache.lookup(1).is_some());
    assert!(cache.lookup(3).is_some());
}

#[test]
fn index_keys_order_integers_then_strings_then_null() {
    let one = IndexKey::Int(1);
    let text = IndexKey::String("a".to_string());
    assert!(one.lt(&text));
    assert!(text.lt(&IndexKey::Null));
    assert!(!IndexKey::Null.lt(&one));
    assert!(IndexKey::String("ab".to_string()).lt(&IndexKey::String("b".to_string())));
}

#[test]
fn float_comparison_follows_ieee_rules() {
    let nan = f64::NAN.to_bits();
    assert!(!float_equals(nan, nan));
    assert!(float_equals(0.0f64.to_bits(), (-0.0f64).to_bits()));
    assert!(float_less((-2.5f64).to_bits(), 1.0f64.to_bits()));
    assert!(!float_less(1.0f64.to_bits(), nan));
}

#[test]
fn null_is_absorbed_by_and_false_and_or_true() {
    assert_eq!(eval_binary_op(Value::Null, BinaryOperator::And, Value::Bool(false)), Ok(Value::Bool(false)));
    assert_eq!(eval_binary_op(Value::Bool(true), BinaryOperator::Or, Value::Null), Ok(Value::Bool(true)));
    assert_eq!(eval_binary_op(Value::Null, BinaryOperator::Eq, Value::Int(1)), Ok(Value::Null));
    assert_eq!(eval_binary_op(Value::Int(1), BinaryOperator::And, Value::Int(1)), Err(ExecError::TypeMismatch));
    assert_eq!(
        eval_binary_op(Value::Float(1.0f64.to_bits()), BinaryOperator::Add, Value::Float(2.0f64.to_bits())),
        Err(ExecError::FloatArithmetic)
    );
}

#[test]
fn like_and_is_null_evaluate_over_a_row() {
    let columns = vec!["name".to_string(), "age".to_string()];
    let row = Row::new(vec![Value::String("alice".to_string()), Value::Null]);
    let like = Expr::Like {
        expr: Box::new(Expr::Column("name".to_string())),
        pattern: Box::new(Expr::Literal(Literal::String("a%e".to_string()))),
        negated: false,
    };
    assert_eq!(eval_expr(&like, &columns, &row), Ok(Value::Bool(true)));
    let is_null = Expr::IsNull { expr: Box::new(Expr::Column("age".to_string())), negated: true };
    assert_eq!(eval_expr(&is_null, &columns, &row), Ok(Value::Bool(false)));
    let missing = Expr::Column("ghost".to_string());
    assert_eq!(eval_expr(&missing, &columns, &row), Err(ExecError::ColumnNotFound("ghost".to_string())));
}

#[test]
fn root_halves_take_fresh_pages_and_other_nodes_keep_their_page() {
    let root = split_placement(ROOT_PAGE, 5);
    assert_eq!((root.left_page, root.right_page, root.new_root), (5, 6, true));
    let inner = split_placement(3, 5);
    assert_eq!((inner.left_page, inner.right_page, inner.new_root), (3, 5, false));
}

#[test]
fn an_empty_leaf_always_fits() {
    let page = build_leaf_page(&[], None).unwrap();
    assert_eq!(page.slot_count(), 1);
    assert!(read_leaf_entries(&page).unwrap().is_empty());
}
