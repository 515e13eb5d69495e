//! Tables and their columns.

use vstd::prelude::*;

use crate::catalog::statistics::ColumnStat;
use crate::data::DataType;

verus! {

/// A column of a table.
#[derive(Debug)]
pub struct ColumnSpec {
    pub column_name: String,
    pub data_type: DataType,
    pub stats: Option<Vec<ColumnStat>>,
}

/// A table: its name, the file that holds its rows, and its columns.
#[derive(Debug)]
pub struct TableSpec {
    pub name: String,
    pub file_id: String,
    pub column_specs: Vec<ColumnSpec>,
}

/// The name and the type of a column.
pub struct ColumnView {
    pub name: Seq<char>,
    pub data_type: DataType,
}

impl TableSpec {
    /// The names and types of the columns.
    pub open spec fn columns(self) -> Seq<ColumnView> {
        Seq::new(
            self.column_specs@.len(),
            |i: int|
                ColumnView {
                    name: self.column_specs@[i].column_name@,
                    data_type: self.column_specs@[i].data_type,
                },
        )
    }

    /// The table that `id` means, by name or by file.
    pub open spec fn answers_to(self, id: Seq<char>) -> bool {
        self.name@ == id || self.file_id@ == id
    }
}

} // verus!
