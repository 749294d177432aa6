# crumble

A small relational database engine whose logic is verified with Verus.

- `src/` is the verified library: slotted pages, the page cache of the
  buffer pool, B+tree node encoding and node-level decisions, SQL lowering
  to logical plans, the planner's rewrites (constant folding, index scans),
  and an interpreter for physical plans over an in-memory catalog. Each
  public function states its behaviour in `requires`/`ensures`; the laws
  that span several functions are public proof functions named `law_*`.
- `app/` holds what Verus does not check: the page file and the buffer
  pool's disk I/O, the B+tree walk over the buffer pool, the conversion of
  sqlparser's syntax tree into the library's statement model, predicates
  compiled through LLVM with inkwell (which needs an LLVM installation to
  build), and error types with `std::error::Error`.
- `tests/` runs the library on concrete inputs.

Floating-point values are carried as their IEEE-754 bit patterns, which
is all that comparing them needs; the library holds no floating-point
arithmetic, so adding floats, and `SUM` over floats or `AVG`, end in
`ExecError::FloatArithmetic`. The executor always interprets predicates;
the compiled predicates in `app/` are not wired into it.

Node pages hold one bincode row per slot: the header
`(is_leaf, leftmost_child, next_leaf)`, then each entry as its key (variant
index, then value) followed by its location or child page.

Outside crates: `sqlparser` parses SQL, `bincode` (with `serde`) encodes
B+tree nodes, and `thiserror` derives the error messages in `app/`.
