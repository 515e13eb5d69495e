//! What the catalog says of tables and columns.

use vstd::prelude::*;

use crate::catalog::db_context;
use crate::catalog::statistics;
use crate::catalog::statistics::ColumnStat;
use crate::catalog::table::{ColumnSpec, ColumnView, TableSpec};
use crate::error::DbError;
use crate::laws::protocol;
use crate::query_support;
use crate::row;
use crate::text;

verus! {

/// The statistic says something of the values, and nothing of where they stand.
pub open spec fn of_values(stat: ColumnStat) -> bool {
    stat is RangeStat || stat is CardinalityStat || stat is DensityStat || stat is HistogramStat
}

/// Statistics of the values of a column, as many as there are and whatever they
/// say, do not make it one that is in order on the device; nor does having none.
pub proof fn law_unmarked_columns(stats: Option<Vec<ColumnStat>>)
    requires
        stats matches Some(list) ==> forall|i: int|
            0 <= i < list@.len() ==> of_values(#[trigger] list@[i]),
    ensures
        !statistics::ordered_on_disk(stats),
{
}

/// The mark among its statistics makes a column one that is in order on the
/// device, whatever the others say.
pub proof fn law_marked_columns(list: Vec<ColumnStat>, i: int)
    requires
        0 <= i < list@.len(),
        list@[i] is IsPhysicallyOrdered,
    ensures
        statistics::ordered_on_disk(Some(list)),
{
}

/// The column has the name, and none before it has.
pub open spec fn first_named(columns: Seq<ColumnView>, name: Seq<char>, i: int) -> bool {
    &&& 0 <= i < columns.len()
    &&& columns[i].name == name
    &&& forall|j: int| 0 <= j < i ==> (#[trigger] columns[j]).name != name
}

/// A name means the first column that has it, and no column where none has it.
pub proof fn law_names_of_columns(columns: Seq<ColumnView>, name: Seq<char>, i: int)
    ensures
        row::column_index(columns, name) == Some(i) <==> first_named(columns, name, i),
        row::column_index(columns, name) is None <==> forall|j: int|
            0 <= j < columns.len() ==> (#[trigger] columns[j]).name != name,
        query_support::has_column(columns, name) <==> exists|j: int|
            0 <= j < columns.len() && (#[trigger] columns[j]).name == name,
{
    row::lemma_column_index(columns, name);
    if let Some(k) = row::column_index(columns, name) {
        assert(columns[k].name == name);
        if first_named(columns, name, i) {
            assert(columns[i].name == name);
            assert(!(k < i));
            assert(!(i < k));
        }
    }
}

/// The id is the name of the table or that of its file.
pub open spec fn means(table: TableSpec, id: Seq<char>) -> bool {
    table.name@ == id || table.file_id@ == id
}

/// An id means the first table whose name or whose file's name it is, and no table
/// where it is that of none.
pub proof fn law_names_of_tables(tables: Seq<TableSpec>, id: Seq<char>, i: int)
    ensures
        db_context::table_index(tables, id) == Some(i) <==> {
            &&& 0 <= i < tables.len()
            &&& means(tables[i], id)
            &&& forall|j: int| 0 <= j < i ==> !means(#[trigger] tables[j], id)
        },
        db_context::table_index(tables, id) is None <==> forall|j: int|
            0 <= j < tables.len() ==> !means(#[trigger] tables[j], id),
{
    db_context::lemma_table_index(tables, id);
    assert forall|j: int| 0 <= j < tables.len() implies means(#[trigger] tables[j], id)
        == tables[j].answers_to(id) by {}
    if let Some(k) = db_context::table_index(tables, id) {
        assert(means(tables[k], id));
    }
}

/// A table has the columns that it lists, in their order, under their names and
/// with their types.
pub proof fn law_columns_of_a_table(table: TableSpec, c: int)
    requires
        0 <= c < table.column_specs@.len(),
    ensures
        table.columns().len() == table.column_specs@.len(),
        table.columns()[c].name == table.column_specs@[c].column_name@,
        table.columns()[c].data_type == table.column_specs@[c].data_type,
        row::types_of(table.columns()).len() == table.column_specs@.len(),
        row::types_of(table.columns())[c] == table.column_specs@[c].data_type,
{
}

/// A name of which something can be seen.
pub open spec fn visible(name: Seq<char>) -> bool {
    exists|i: int| 0 <= i < name.len() && !protocol::white(#[trigger] name[i])
}

proof fn lemma_visible(name: Seq<char>)
    ensures
        visible(name) <==> !text::blank(name),
{
    protocol::law_blank_texts(name);
    if !text::blank(name) {
        let i = choose|i: int| 0 <= i < name.len() && !protocol::white(#[trigger] name[i]);
        assert(!protocol::white(name[i]));
    }
}

/// The first columns have names that can be seen and that are all different.
pub open spec fn good_columns(columns: Seq<ColumnSpec>, n: int) -> bool {
    &&& forall|i: int| 0 <= i < n ==> visible((#[trigger] columns[i]).column_name@)
    &&& forall|i: int, j: int|
        0 <= i < j < n ==> (#[trigger] columns[i]).column_name@ != (
        #[trigger] columns[j]).column_name@
}

/// The first tables have columns, and names and files that can be seen and are
/// all different.
pub open spec fn good_tables(tables: Seq<TableSpec>, n: int) -> bool {
    &&& forall|i: int| 0 <= i < n ==> visible((#[trigger] tables[i]).name@)
    &&& forall|i: int| 0 <= i < n ==> visible((#[trigger] tables[i]).file_id@)
    &&& forall|i: int| 0 <= i < n ==> (#[trigger] tables[i]).column_specs@.len() > 0
    &&& forall|i: int|
        0 <= i < n ==> good_columns(
            (#[trigger] tables[i]).column_specs@,
            tables[i].column_specs@.len() as int,
        )
    &&& forall|i: int, j: int|
        0 <= i < j < n ==> (#[trigger] tables[i]).name@ != (#[trigger] tables[j]).name@
    &&& forall|i: int, j: int|
        0 <= i < j < n ==> (#[trigger] tables[i]).file_id@ != (#[trigger] tables[j]).file_id@
}

/// Columns are accepted where their names can be seen and are all different. Of
/// the first column that cannot stay, it is said whether its name is blank or that
/// of an earlier one.
pub proof fn law_columns_are_checked(columns: Seq<ColumnSpec>, n: int)
    requires
        0 <= n <= columns.len(),
    ensures
        db_context::columns_problem(columns, n) is None <==> good_columns(columns, n),
        forall|k: int|
            0 <= k < n && good_columns(columns, k) && !visible(
                (#[trigger] columns[k]).column_name@,
            ) ==> db_context::columns_problem(columns, n) == Some(DbError::EmptyColumnName),
        forall|j: int, k: int|
            0 <= j < k < n && good_columns(columns, k) && visible(columns[k].column_name@) && (
            #[trigger] columns[j]).column_name@ == (#[trigger] columns[k]).column_name@
                ==> db_context::columns_problem(columns, n) == Some(DbError::DuplicateColumnName),
    decreases n,
{
    if n > 0 {
        law_columns_are_checked(columns, n - 1);
        lemma_visible(columns[n - 1].column_name@);
        if db_context::columns_problem(columns, n) is None {
            assert forall|i: int, j: int| 0 <= i < j < n implies (
            #[trigger] columns[i]).column_name@ != (#[trigger] columns[j]).column_name@ by {}
        }
        if good_columns(columns, n) {
            assert(good_columns(columns, n - 1));
        }
    }
}

/// Tables are accepted where each has columns that are, and their names and files
/// can be seen and are all different.
pub proof fn law_tables_are_checked(tables: Seq<TableSpec>, n: int)
    requires
        0 <= n <= tables.len(),
    ensures
        db_context::tables_problem(tables, n) is None <==> good_tables(tables, n),
    decreases n,
{
    if n > 0 {
        law_tables_are_checked(tables, n - 1);
        let table = tables[n - 1];
        lemma_visible(table.name@);
        lemma_visible(table.file_id@);
        law_columns_are_checked(table.column_specs@, table.column_specs@.len() as int);
        if good_tables(tables, n) {
            assert(good_tables(tables, n - 1));
        }
        if db_context::tables_problem(tables, n) is None {
            assert(good_tables(tables, n - 1));
            assert forall|i: int, j: int| 0 <= i < j < n implies (#[trigger] tables[i]).name@ != (
            #[trigger] tables[j]).name@ by {}
            assert forall|i: int, j: int| 0 <= i < j < n implies (#[trigger] tables[i]).file_id@
                != (#[trigger] tables[j]).file_id@ by {}
        }
    }
}

/// Of the first table that cannot stay it is said what is wrong: its name or its
/// file's is blank, it has no columns, its name or its file's is that of an earlier
/// one, or what is wrong with its columns.
pub proof fn law_faulty_tables(tables: Seq<TableSpec>, k: int, n: int, j: int)
    requires
        0 <= k < n <= tables.len(),
        good_tables(tables, k),
    ensures
        ({
            let said = db_context::tables_problem(tables, n);
            let table = tables[k];
            &&& !visible(table.name@) ==> said == Some(DbError::EmptyTableName)
            &&& visible(table.name@) && !visible(table.file_id@) ==> said == Some(
                DbError::EmptyFileId,
            )
            &&& visible(table.name@) && visible(table.file_id@) ==> {
                &&& table.column_specs@.len() == 0 ==> said == Some(DbError::NoColumns)
                &&& table.column_specs@.len() > 0 && 0 <= j < k && tables[j].name@ == table.name@
                    ==> said == Some(DbError::DuplicateTableName)
                &&& table.column_specs@.len() > 0 && 0 <= j < k && tables[j].file_id@
                    == table.file_id@ && (forall|i: int|
                    0 <= i < k ==> (#[trigger] tables[i]).name@ != table.name@) ==> said == Some(
                    DbError::DuplicateFileId,
                )
                &&& table.column_specs@.len() > 0 && (forall|i: int|
                    0 <= i < k ==> (#[trigger] tables[i]).name@ != table.name@
                        && tables[i].file_id@ != table.file_id@) && !good_columns(
                    table.column_specs@,
                    table.column_specs@.len() as int,
                ) ==> said == db_context::columns_problem(
                    table.column_specs@,
                    table.column_specs@.len() as int,
                )
            }
        }),
    decreases n,
{
    let table = tables[k];
    if n > k + 1 {
        law_faulty_tables(tables, k, n - 1, j);
        law_columns_are_checked(table.column_specs@, table.column_specs@.len() as int);
    } else {
        law_tables_are_checked(tables, k);
        lemma_visible(table.name@);
        lemma_visible(table.file_id@);
    }
}

} // verus!
