//! The tables of a database.

use vstd::prelude::*;

use crate::catalog::table::{ColumnSpec, TableSpec};
use crate::error::DbError;
use crate::text::{is_blank, same_text};
use crate::text;

verus! {

/// The tables that queries can name.
#[derive(Debug)]
pub struct DbContext {
    table_specs: Vec<TableSpec>,
}

/// What is wrong with column `i`, given the columns before it.
pub open spec fn column_problem(columns: Seq<ColumnSpec>, i: int) -> Option<DbError> {
    if text::blank(columns[i].column_name@) {
        Some(DbError::EmptyColumnName)
    } else if exists|j: int|
        0 <= j < i && (#[trigger] columns[j]).column_name@ == columns[i].column_name@ {
        Some(DbError::DuplicateColumnName)
    } else {
        None
    }
}

/// What is wrong with the first faulty column of the first `n`.
pub open spec fn columns_problem(columns: Seq<ColumnSpec>, n: int) -> Option<DbError>
    decreases n,
{
    if n <= 0 {
        None
    } else {
        match columns_problem(columns, n - 1) {
            Some(e) => Some(e),
            None => column_problem(columns, n - 1),
        }
    }
}

/// What is wrong with table `i`, given the tables before it.
pub open spec fn table_problem(tables: Seq<TableSpec>, i: int) -> Option<DbError> {
    let table = tables[i];
    if text::blank(table.name@) {
        Some(DbError::EmptyTableName)
    } else if text::blank(table.file_id@) {
        Some(DbError::EmptyFileId)
    } else if table.column_specs@.len() == 0 {
        Some(DbError::NoColumns)
    } else if exists|j: int| 0 <= j < i && (#[trigger] tables[j]).name@ == table.name@ {
        Some(DbError::DuplicateTableName)
    } else if exists|j: int| 0 <= j < i && (#[trigger] tables[j]).file_id@ == table.file_id@ {
        Some(DbError::DuplicateFileId)
    } else {
        columns_problem(table.column_specs@, table.column_specs@.len() as int)
    }
}

/// What is wrong with the first faulty table of the first `n`.
pub open spec fn tables_problem(tables: Seq<TableSpec>, n: int) -> Option<DbError>
    decreases n,
{
    if n <= 0 {
        None
    } else {
        match tables_problem(tables, n - 1) {
            Some(e) => Some(e),
            None => table_problem(tables, n - 1),
        }
    }
}

/// The first table that `id` means.
pub open spec fn table_index(tables: Seq<TableSpec>, id: Seq<char>) -> Option<int>
    decreases tables.len(),
{
    if tables.len() == 0 {
        None
    } else {
        match table_index(tables.drop_last(), id) {
            Some(i) => Some(i),
            None => if tables.last().answers_to(id) {
                Some(tables.len() - 1)
            } else {
                None
            },
        }
    }
}

/// A table index names a table that answers to the id, and no earlier one does.
pub proof fn lemma_table_index(tables: Seq<TableSpec>, id: Seq<char>)
    ensures
        match table_index(tables, id) {
            Some(i) => 0 <= i < tables.len() && tables[i].answers_to(id) && forall|j: int|
                0 <= j < i ==> !(#[trigger] tables[j]).answers_to(id),
            None => forall|j: int|
                0 <= j < tables.len() ==> !(#[trigger] tables[j]).answers_to(id),
        },
    decreases tables.len(),
{
    if tables.len() > 0 {
        lemma_table_index(tables.drop_last(), id);
        assert forall|j: int| 0 <= j < tables.len() - 1 implies tables.drop_last()[j] == tables[j] by {};
    }
}

impl DbContext {
    /// The tables, in their order.
    pub closed spec fn tables(self) -> Seq<TableSpec> {
        self.table_specs@
    }

    /// The tables as a context, if nothing is wrong with them: names and file
    /// ids are not blank and occur once, and every table has columns, whose
    /// names are not blank and occur once in it. Otherwise what is wrong with
    /// the first faulty table.
    pub fn from(table_specs: Vec<TableSpec>) -> (r: Result<DbContext, DbError>)
        ensures
            match tables_problem(table_specs@, table_specs@.len() as int) {
                None => r matches Ok(ctx) && ctx.tables() == table_specs@,
                Some(e) => r == Err::<DbContext, DbError>(e),
            },
    {
        let db_context = DbContext { table_specs };
        match Self::validate_context(&db_context) {
            Ok(()) => Ok(db_context),
            Err(e) => Err(e),
        }
    }

    /// Whether the tables can stand in one context.
    pub fn validate_context(ctx: &DbContext) -> (r: Result<(), DbError>)
        ensures
            r == match tables_problem(ctx.tables(), ctx.tables().len() as int) {
                None => Ok::<(), DbError>(()),
                Some(e) => Err(e),
            },
    {
        let mut i: usize = 0;
        let ghost tables = ctx.table_specs@;
        while i < ctx.table_specs.len()
            invariant
                i <= tables.len(),
                tables == ctx.table_specs@,
                tables_problem(tables, i as int) is None,
            decreases tables.len() - i,
        {
            let problem = Self::problem_of_table(&ctx.table_specs, i);
            proof {
                lemma_tables_problem_prefix(tables, i + 1, tables.len() as int);
            }
            match problem {
                Some(e) => {
                    return Err(e);
                },
                None => {},
            }
            i = i + 1;
        }
        Ok(())
    }

    fn problem_of_table(tables: &Vec<TableSpec>, i: usize) -> (r: Option<DbError>)
        requires
            i < tables@.len(),
        ensures
            r == table_problem(tables@, i as int),
    {
        let table = &tables[i];
        if is_blank(table.name.as_str()) {
            return Some(DbError::EmptyTableName);
        }
        if is_blank(table.file_id.as_str()) {
            return Some(DbError::EmptyFileId);
        }
        if table.column_specs.len() == 0 {
            return Some(DbError::NoColumns);
        }
        let mut j: usize = 0;
        let mut same_file: bool = false;
        while j < i
            invariant
                j <= i < tables@.len(),
                table == tables@[i as int],
                !text::blank(table.name@),
                !text::blank(table.file_id@),
                table.column_specs@.len() > 0,
                forall|k: int| 0 <= k < j ==> (#[trigger] tables@[k]).name@ != table.name@,
                same_file == (exists|k: int|
                    0 <= k < j && (#[trigger] tables@[k]).file_id@ == table.file_id@),
            decreases i - j,
        {
            if same_text(tables[j].name.as_str(), table.name.as_str()) {
                assert(tables@[j as int].name@ == table.name@);
                return Some(DbError::DuplicateTableName);
            }
            if same_text(tables[j].file_id.as_str(), table.file_id.as_str()) {
                same_file = true;
            }
            j = j + 1;
        }
        if same_file {
            return Some(DbError::DuplicateFileId);
        }
        Self::problem_of_columns(&table.column_specs)
    }

    fn problem_of_columns(columns: &Vec<ColumnSpec>) -> (r: Option<DbError>)
        ensures
            r == columns_problem(columns@, columns@.len() as int),
    {
        let mut i: usize = 0;
        while i < columns.len()
            invariant
                i <= columns@.len(),
                columns_problem(columns@, i as int) is None,
            decreases columns@.len() - i,
        {
            proof {
                lemma_columns_problem_prefix(columns@, i + 1, columns@.len() as int);
            }
            if is_blank(columns[i].column_name.as_str()) {
                return Some(DbError::EmptyColumnName);
            }
            let mut j: usize = 0;
            while j < i
                invariant
                    j <= i < columns@.len(),
                    columns_problem(columns@, i as int) is None,
                    !text::blank(columns@[i as int].column_name@),
                    columns_problem(columns@, i + 1) is Some ==> columns_problem(
                        columns@,
                        columns@.len() as int,
                    ) == columns_problem(columns@, i + 1),
                    forall|k: int|
                        0 <= k < j ==> (#[trigger] columns@[k]).column_name@
                            != columns@[i as int].column_name@,
                decreases i - j,
            {
                if same_text(columns[j].column_name.as_str(), columns[i].column_name.as_str()) {
                    assert(columns@[j as int].column_name@ == columns@[i as int].column_name@);
                    return Some(DbError::DuplicateColumnName);
                }
                j = j + 1;
            }
            i = i + 1;
        }
        None
    }

    /// The tables, in their order.
    pub fn table_specs(&self) -> (r: &Vec<TableSpec>)
        ensures
            r@ == self.tables(),
    {
        &self.table_specs
    }
}

proof fn lemma_tables_problem_prefix(tables: Seq<TableSpec>, m: int, n: int)
    requires
        0 <= m <= n,
    ensures
        tables_problem(tables, m) is Some ==> tables_problem(tables, n) == tables_problem(
            tables,
            m,
        ),
    decreases n - m,
{
    if m < n {
        lemma_tables_problem_prefix(tables, m, n - 1);
    }
}

proof fn lemma_columns_problem_prefix(columns: Seq<ColumnSpec>, m: int, n: int)
    requires
        0 <= m <= n,
    ensures
        columns_problem(columns, m) is Some ==> columns_problem(columns, n) == columns_problem(
            columns,
            m,
        ),
    decreases n - m,
{
    if m < n {
        lemma_columns_problem_prefix(columns, m, n - 1);
    }
}

} // verus!
