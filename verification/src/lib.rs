pub mod page;
pub mod like;
pub mod key;
pub mod error;
pub mod node;
pub mod btree;
pub mod cache;
pub mod ir;
pub mod float;
pub mod eval;
pub mod fold;
pub mod planner;
pub mod sql;
pub mod sql_ast;
pub mod lower_expr;
pub mod lower;
pub mod lower_clause;
pub mod lower_aggregate;
pub mod row_set;
pub mod sort;
pub mod join;
pub mod aggregate;
pub mod storage;
pub mod exec_ops;
pub mod exec_index;
pub mod exec;
