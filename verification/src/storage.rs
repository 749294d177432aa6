//! The catalog the executor reads and changes: named tables, each with its
//! columns and rows in insertion order, and named single-column indexes.
use crate::eval::{ExecError, Row, StorageError, Value};
use crate::ir::{strings_view, ColumnDef, ColumnType};
use crate::key::str_eq;
use crate::row_set::{copy_rows, rows_view, well_formed, RowSet, RowSetView};
use vstd::prelude::*;

verus! {

/// A table as plain values.
pub struct TableView {
    pub name: Seq<char>,
    pub columns: Seq<Seq<char>>,
    pub types: Seq<ColumnType>,
    pub rows: Seq<Seq<Value>>,
}

/// An index as plain values: its name, and the table and column it covers.
pub struct IndexView {
    pub name: Seq<char>,
    pub table: Seq<char>,
    pub column: Seq<char>,
}

pub struct CatalogView {
    pub tables: Seq<TableView>,
    pub indexes: Seq<IndexView>,
}

/// A table: its name, columns and rows.
#[derive(Debug)]
pub struct Table {
    name: String,
    columns: Vec<ColumnDef>,
    rows: Vec<Row>,
}

/// A single-column index.
#[derive(Debug)]
pub struct IndexInfo {
    name: String,
    table: String,
    column: String,
}

/// The tables and indexes of a database.
#[derive(Debug)]
pub struct Catalog {
    tables: Vec<Table>,
    indexes: Vec<IndexInfo>,
}

pub open spec fn column_names(columns: Seq<ColumnDef>) -> Seq<Seq<char>> {
    columns.map_values(|c: ColumnDef| c.name@)
}

pub open spec fn column_types(columns: Seq<ColumnDef>) -> Seq<ColumnType> {
    columns.map_values(|c: ColumnDef| c.typ)
}

pub closed spec fn table_view(t: Table) -> TableView {
    TableView {
        name: t.name@,
        columns: column_names(t.columns@),
        types: column_types(t.columns@),
        rows: rows_view(t.rows@),
    }
}

pub closed spec fn index_view(i: IndexInfo) -> IndexView {
    IndexView { name: i.name@, table: i.table@, column: i.column@ }
}

impl View for Catalog {
    type V = CatalogView;

    closed spec fn view(&self) -> CatalogView {
        CatalogView {
            tables: self.tables@.map_values(|t: Table| table_view(t)),
            indexes: self.indexes@.map_values(|i: IndexInfo| index_view(i)),
        }
    }
}

/// The first table named `name`, or `-1`.
pub open spec fn find_table(tables: Seq<TableView>, name: Seq<char>) -> int
    decreases tables.len(),
{
    if tables.len() == 0 {
        -1
    } else if find_table(tables.drop_last(), name) >= 0 {
        find_table(tables.drop_last(), name)
    } else if tables.last().name == name {
        tables.len() - 1
    } else {
        -1
    }
}

/// The first index named `name`, or `-1`.
pub open spec fn find_index(indexes: Seq<IndexView>, name: Seq<char>) -> int
    decreases indexes.len(),
{
    if indexes.len() == 0 {
        -1
    } else if find_index(indexes.drop_last(), name) >= 0 {
        find_index(indexes.drop_last(), name)
    } else if indexes.last().name == name {
        indexes.len() - 1
    } else {
        -1
    }
}

pub proof fn lemma_find_table(tables: Seq<TableView>, name: Seq<char>)
    ensures
        -1 <= find_table(tables, name) < tables.len(),
        find_table(tables, name) >= 0 ==> tables[find_table(tables, name)].name == name,
        find_table(tables, name) >= 0 ==> forall|k: int| 0 <= k < find_table(tables, name) ==> (#[trigger] tables[k]).name != name,
        find_table(tables, name) < 0 ==> forall|k: int| 0 <= k < tables.len() ==> (#[trigger] tables[k]).name != name,
    decreases tables.len(),
{
    if tables.len() > 0 {
        let init = tables.drop_last();
        lemma_find_table(init, name);
        let f = find_table(tables, name);
        if find_table(init, name) >= 0 {
            assert forall|k: int| 0 <= k < f implies (#[trigger] tables[k]).name != name by {
                assert(init[k] == tables[k]);
            }
            assert(init[f] == tables[f]);
        } else {
            assert forall|k: int| 0 <= k < tables.len() - 1 implies (#[trigger] tables[k]).name != name by {
                assert(init[k] == tables[k]);
            }
        }
    }
}

pub proof fn lemma_find_index(indexes: Seq<IndexView>, name: Seq<char>)
    ensures
        -1 <= find_index(indexes, name) < indexes.len(),
        find_index(indexes, name) >= 0 ==> indexes[find_index(indexes, name)].name == name,
        find_index(indexes, name) >= 0 ==> forall|k: int| 0 <= k < find_index(indexes, name) ==> (#[trigger] indexes[k]).name != name,
        find_index(indexes, name) < 0 ==> forall|k: int| 0 <= k < indexes.len() ==> (#[trigger] indexes[k]).name != name,
    decreases indexes.len(),
{
    if indexes.len() > 0 {
        let init = indexes.drop_last();
        lemma_find_index(init, name);
        let f = find_index(indexes, name);
        if find_index(init, name) >= 0 {
            assert forall|k: int| 0 <= k < f implies (#[trigger] indexes[k]).name != name by {
                assert(init[k] == indexes[k]);
            }
            assert(init[f] == indexes[f]);
        } else {
            assert forall|k: int| 0 <= k < indexes.len() - 1 implies (#[trigger] indexes[k]).name != name by {
                assert(init[k] == indexes[k]);
            }
        }
    }
}

/// The indexes that do not cover the table `table`.
pub open spec fn indexes_without(indexes: Seq<IndexView>, table: Seq<char>) -> Seq<IndexView>
    decreases indexes.len(),
{
    if indexes.len() == 0 {
        Seq::empty()
    } else if indexes.last().table == table {
        indexes_without(indexes.drop_last(), table)
    } else {
        indexes_without(indexes.drop_last(), table).push(indexes.last())
    }
}

/// A table's rows with its column names.
pub open spec fn table_rows(t: TableView) -> RowSetView {
    RowSetView { columns: t.columns, rows: t.rows }
}

/// An empty result, as statements that change the catalog return.
pub open spec fn empty_result() -> RowSetView {
    RowSetView { columns: Seq::empty(), rows: Seq::empty() }
}

/// The catalog with the rows of table `k` replaced.
pub open spec fn with_rows(c: CatalogView, k: int, rows: Seq<Seq<Value>>) -> CatalogView {
    CatalogView {
        tables: c.tables.update(k, TableView { rows, ..c.tables[k] }),
        indexes: c.indexes,
    }
}

/// `CREATE TABLE`: refused when a table of that name exists.
pub open spec fn create_table_spec(c: CatalogView, name: String, columns: Seq<ColumnDef>) -> Result<CatalogView, ExecError> {
    if find_table(c.tables, name@) >= 0 {
        Err(ExecError::Storage(StorageError::TableExists(name)))
    } else {
        Ok(
            CatalogView {
                tables: c.tables.push(
                    TableView {
                        name: name@,
                        columns: column_names(columns),
                        types: column_types(columns),
                        rows: Seq::empty(),
                    },
                ),
                indexes: c.indexes,
            },
        )
    }
}

/// `DROP TABLE`: the table and the indexes on it go; a missing table is an
/// error unless `IF EXISTS` was given.
pub open spec fn drop_table_spec(c: CatalogView, name: String, if_exists: bool) -> Result<CatalogView, ExecError> {
    let k = find_table(c.tables, name@);
    if k < 0 {
        if if_exists {
            Ok(c)
        } else {
            Err(ExecError::Storage(StorageError::TableNotFound(name)))
        }
    } else {
        Ok(CatalogView { tables: c.tables.remove(k), indexes: indexes_without(c.indexes, name@) })
    }
}

/// `CREATE INDEX`: refused when an index of that name exists, when the
/// table is missing, or when the table has no such column (checked in that
/// order).
pub open spec fn create_index_spec(c: CatalogView, index_name: String, table: String, column: String) -> Result<
    CatalogView,
    ExecError,
> {
    if find_index(c.indexes, index_name@) >= 0 {
        Err(ExecError::Storage(StorageError::IndexExists(index_name)))
    } else if find_table(c.tables, table@) < 0 {
        Err(ExecError::Storage(StorageError::TableNotFound(table)))
    } else if !c.tables[find_table(c.tables, table@)].columns.contains(column@) {
        Err(ExecError::Storage(StorageError::ColumnNotFound(column)))
    } else {
        Ok(
            CatalogView {
                tables: c.tables,
                indexes: c.indexes.push(IndexView { name: index_name@, table: table@, column: column@ }),
            },
        )
    }
}

/// `DROP INDEX`: a missing index is an error unless `IF EXISTS` was given.
pub open spec fn drop_index_spec(c: CatalogView, name: String, if_exists: bool) -> Result<CatalogView, ExecError> {
    let k = find_index(c.indexes, name@);
    if k < 0 {
        if if_exists {
            Ok(c)
        } else {
            Err(ExecError::Storage(StorageError::IndexNotFound(name)))
        }
    } else {
        Ok(CatalogView { tables: c.tables, indexes: c.indexes.remove(k) })
    }
}

pub open spec fn catalog_result_matches(r: Result<(), ExecError>, old_c: CatalogView, new_c: CatalogView, s: Result<CatalogView, ExecError>) -> bool {
    match (r, s) {
        (Ok(_), Ok(c)) => new_c == c,
        (Err(e), Err(f)) => e == f && new_c == old_c,
        _ => false,
    }
}

fn copy_columns(columns: &[ColumnDef]) -> (c: Vec<ColumnDef>)
    ensures
        c@ == columns@,
{
    let mut c: Vec<ColumnDef> = Vec::new();
    let mut i: usize = 0;
    while i < columns.len()
        invariant
            i <= columns.len(),
            c@ == columns@.take(i as int),
        decreases columns.len() - i,
    {
        c.push(ColumnDef { name: columns[i].name.clone(), typ: columns[i].typ });
        assert(c@ =~= columns@.take(i + 1));
        i = i + 1;
    }
    assert(columns@.take(columns.len() as int) =~= columns@);
    c
}

impl Catalog {
    /// A catalog with no tables and no indexes.
    pub fn new() -> (c: Catalog)
        ensures
            c@.tables.len() == 0,
            c@.indexes.len() == 0,
    {
        let c = Catalog { tables: Vec::new(), indexes: Vec::new() };
        assert(c@.tables =~= Seq::<TableView>::empty());
        assert(c@.indexes =~= Seq::<IndexView>::empty());
        c
    }

    /// The position of the table named `name`.
    pub fn table_position(&self, name: &String) -> (k: Option<usize>)
        ensures
            match k {
                Some(i) => i == find_table(self@.tables, name@) && i < self@.tables.len(),
                None => find_table(self@.tables, name@) < 0,
            },
    {
        let ghost tv = self@.tables;
        proof {
            lemma_find_table(tv, name@);
        }
        let mut i: usize = 0;
        while i < self.tables.len()
            invariant
                i <= self.tables@.len(),
                tv == self@.tables,
                forall|k: int| 0 <= k < i ==> (#[trigger] tv[k]).name != name@,
            decreases self.tables.len() - i,
        {
            assert(tv[i as int] == table_view(self.tables@[i as int]));
            if str_eq(&self.tables[i].name, name) {
                proof {
                    lemma_find_table(tv, name@);
                    assert(tv[i as int].name == name@);
                    let f = find_table(tv, name@);
                    if f >= 0 && f < i {
                        assert(tv[f].name != name@);
                    }
                }
                return Some(i);
            }
            i = i + 1;
        }
        None
    }

    /// The position of the index named `name`.
    pub fn index_position(&self, name: &String) -> (k: Option<usize>)
        ensures
            match k {
                Some(i) => i == find_index(self@.indexes, name@) && i < self@.indexes.len(),
                None => find_index(self@.indexes, name@) < 0,
            },
    {
        let ghost iv = self@.indexes;
        proof {
            lemma_find_index(iv, name@);
        }
        let mut i: usize = 0;
        while i < self.indexes.len()
            invariant
                i <= self.indexes@.len(),
                iv == self@.indexes,
                forall|k: int| 0 <= k < i ==> (#[trigger] iv[k]).name != name@,
            decreases self.indexes.len() - i,
        {
            assert(iv[i as int] == index_view(self.indexes@[i as int]));
            if str_eq(&self.indexes[i].name, name) {
                proof {
                    lemma_find_index(iv, name@);
                    assert(iv[i as int].name == name@);
                    let f = find_index(iv, name@);
                    if f >= 0 && f < i {
                        assert(iv[f].name != name@);
                    }
                }
                return Some(i);
            }
            i = i + 1;
        }
        None
    }

    /// The columns of the table at position `k`.
    pub fn table_columns(&self, k: usize) -> (columns: &[ColumnDef])
        requires
            k < self@.tables.len(),
        ensures
            column_names(columns@) == self@.tables[k as int].columns,
            column_types(columns@) == self@.tables[k as int].types,
    {
        assert(self@.tables[k as int] == table_view(self.tables@[k as int]));
        self.tables[k].columns.as_slice()
    }

    /// The column names of the table at position `k`.
    pub fn table_column_names(&self, k: usize) -> (names: Vec<String>)
        requires
            k < self@.tables.len(),
        ensures
            strings_view(names@) == self@.tables[k as int].columns,
    {
        let columns = self.table_columns(k);
        let mut names: Vec<String> = Vec::new();
        let mut i: usize = 0;
        while i < columns.len()
            invariant
                i <= columns@.len(),
                strings_view(names@) == column_names(columns@.take(i as int)),
            decreases columns.len() - i,
        {
            let ghost before = strings_view(names@);
            names.push(columns[i].name.clone());
            assert(strings_view(names@) =~= before.push(columns@[i as int].name@));
            assert(column_names(columns@.take(i + 1)) =~= column_names(columns@.take(i as int)).push(columns@[i as int].name@));
            assert(strings_view(names@) =~= column_names(columns@.take(i + 1)));
            i = i + 1;
        }
        assert(columns@.take(columns.len() as int) =~= columns@);
        names
    }

    /// The rows of the table at position `k`.
    pub fn table_row_slice(&self, k: usize) -> (rows: &[Row])
        requires
            k < self@.tables.len(),
        ensures
            rows_view(rows@) == self@.tables[k as int].rows,
    {
        assert(self@.tables[k as int] == table_view(self.tables@[k as int]));
        self.tables[k].rows.as_slice()
    }

    /// The table covered by the index at position `k`, and its column.
    pub fn index_target(&self, k: usize) -> (target: (&String, &String))
        requires
            k < self@.indexes.len(),
        ensures
            target.0@ == self@.indexes[k as int].table,
            target.1@ == self@.indexes[k as int].column,
    {
        assert(self@.indexes[k as int] == index_view(self.indexes@[k as int]));
        (&self.indexes[k].table, &self.indexes[k].column)
    }

    /// Replaces the rows of the table at position `k`.
    pub fn set_rows(&mut self, k: usize, rows: Vec<Row>)
        requires
            k < old(self)@.tables.len(),
        ensures
            final(self)@ == with_rows(old(self)@, k as int, rows_view(rows@)),
    {
        let ghost before = self@;
        let mut t = self.tables.remove(k);
        t.rows = rows;
        self.tables.insert(k, t);
        assert(self@.tables =~= before.tables.update(k as int, TableView { rows: rows_view(rows@), ..before.tables[k as int] }));
    }

    /// All the rows of the table named `name`, with its column names.
    pub fn scan(&self, name: &String) -> (r: Result<RowSet, ExecError>)
        ensures
            match r {
                Ok(s) => find_table(self@.tables, name@) >= 0 && s@ == table_rows(self@.tables[find_table(self@.tables, name@)]),
                Err(e) => find_table(self@.tables, name@) < 0 && e == ExecError::Storage(StorageError::TableNotFound(*name)),
            },
    {
        match self.table_position(name) {
            None => Err(ExecError::Storage(StorageError::TableNotFound(name.clone()))),
            Some(k) => {
                let columns = self.table_column_names(k);
                let rows = copy_rows(self.table_row_slice(k));
                Ok(RowSet::new(columns, rows))
            },
        }
    }

    pub fn create_table(&mut self, name: &String, columns: &[ColumnDef]) -> (r: Result<(), ExecError>)
        ensures
            catalog_result_matches(r, old(self)@, final(self)@, create_table_spec(old(self)@, *name, columns@)),
    {
        if self.table_position(name).is_some() {
            return Err(ExecError::Storage(StorageError::TableExists(name.clone())));
        }
        let ghost before = self@;
        let t = Table { name: name.clone(), columns: copy_columns(columns), rows: Vec::new() };
        assert(rows_view(t.rows@) =~= Seq::<Seq<Value>>::empty());
        self.tables.push(t);
        assert(self@.tables =~= before.tables.push(table_view(t)));
        Ok(())
    }

    pub fn drop_table(&mut self, name: &String, if_exists: bool) -> (r: Result<(), ExecError>)
        ensures
            catalog_result_matches(r, old(self)@, final(self)@, drop_table_spec(old(self)@, *name, if_exists)),
    {
        let k = match self.table_position(name) {
            None => {
                if if_exists {
                    return Ok(());
                }
                return Err(ExecError::Storage(StorageError::TableNotFound(name.clone())));
            },
            Some(k) => k,
        };
        let ghost before = self@;
        self.tables.remove(k);
        assert(self@.tables =~= before.tables.remove(k as int));
        let mut kept: Vec<IndexInfo> = Vec::new();
        let mut i: usize = 0;
        assert(before.indexes.take(0) =~= Seq::<IndexView>::empty());
        assert(kept@.map_values(|x: IndexInfo| index_view(x)) =~= Seq::<IndexView>::empty());
        while i < self.indexes.len()
            invariant
                i <= self.indexes@.len(),
                before.indexes == self.indexes@.map_values(|x: IndexInfo| index_view(x)),
                kept@.map_values(|x: IndexInfo| index_view(x)) == indexes_without(before.indexes.take(i as int), name@),
            decreases self.indexes.len() - i,
        {
            proof {
                assert(before.indexes.take(i + 1).drop_last() =~= before.indexes.take(i as int));
                assert(before.indexes.take(i + 1).last() == index_view(self.indexes@[i as int]));
            }
            if !str_eq(&self.indexes[i].table, name) {
                let info = IndexInfo {
                    name: self.indexes[i].name.clone(),
                    table: self.indexes[i].table.clone(),
                    column: self.indexes[i].column.clone(),
                };
                let ghost kb = kept@.map_values(|x: IndexInfo| index_view(x));
                kept.push(info);
                assert(kept@.map_values(|x: IndexInfo| index_view(x)) =~= kb.push(index_view(info)));
            }
            i = i + 1;
        }
        assert(before.indexes.take(self.indexes.len() as int) =~= before.indexes);
        self.indexes = kept;
        Ok(())
    }

    pub fn create_index(&mut self, index_name: &String, table: &String, column: &String) -> (r: Result<(), ExecError>)
        ensures
            catalog_result_matches(
                r,
                old(self)@,
                final(self)@,
                create_index_spec(old(self)@, *index_name, *table, *column),
            ),
    {
        if self.index_position(index_name).is_some() {
            return Err(ExecError::Storage(StorageError::IndexExists(index_name.clone())));
        }
        let k = match self.table_position(table) {
            None => return Err(ExecError::Storage(StorageError::TableNotFound(table.clone()))),
            Some(k) => k,
        };
        let names = self.table_column_names(k);
        match crate::eval::find_column(names.as_slice(), column) {
            None => {
                proof {
                    crate::eval::lemma_column_index(strings_view(names@), column@);
                    if self@.tables[k as int].columns.contains(column@) {
                        let j = choose|j: int| 0 <= j < self@.tables[k as int].columns.len() && self@.tables[k as int].columns[j] == column@;
                        assert(strings_view(names@)[j] == column@);
                    }
                }
                return Err(ExecError::Storage(StorageError::ColumnNotFound(column.clone())));
            },
            Some(j) => {
                proof {
                    crate::eval::lemma_column_index(strings_view(names@), column@);
                    assert(self@.tables[k as int].columns[j as int] == column@);
                }
            },
        }
        let ghost before = self@;
        let info = IndexInfo { name: index_name.clone(), table: table.clone(), column: column.clone() };
        self.indexes.push(info);
        assert(self@.indexes =~= before.indexes.push(index_view(info)));
        assert(self@.tables =~= before.tables);
        Ok(())
    }

    pub fn drop_index(&mut self, name: &String, if_exists: bool) -> (r: Result<(), ExecError>)
        ensures
            catalog_result_matches(r, old(self)@, final(self)@, drop_index_spec(old(self)@, *name, if_exists)),
    {
        match self.index_position(name) {
            None => {
                if if_exists {
                    Ok(())
                } else {
                    Err(ExecError::Storage(StorageError::IndexNotFound(name.clone())))
                }
            },
            Some(k) => {
                let ghost before = self@;
                self.indexes.remove(k);
                assert(self@.indexes =~= before.indexes.remove(k as int));
                assert(self@.tables =~= before.tables);
                Ok(())
            },
        }
    }
}

} // verus!
