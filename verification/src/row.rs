//! Schemas and rows.

use vstd::prelude::*;

use crate::bytes;
use crate::catalog::table::{ColumnView, TableSpec};
use crate::data;
use crate::data::{Data, DataType, DataValue};
use crate::error::DbError;
use crate::query;
use crate::text::same_text;

verus! {

/// A column of a schema.
#[derive(Debug)]
pub struct SchemaColumn {
    pub name: String,
    pub data_type: DataType,
}

/// The columns of a row, in their order.
#[derive(Debug)]
pub struct Schema {
    columns: Vec<SchemaColumn>,
}

impl View for SchemaColumn {
    type V = ColumnView;

    open spec fn view(&self) -> ColumnView {
        ColumnView { name: self.name@, data_type: self.data_type }
    }
}

/// The contents of columns.
pub open spec fn column_views(columns: Seq<SchemaColumn>) -> Seq<ColumnView> {
    Seq::new(columns.len(), |i: int| columns[i]@)
}

/// The types of columns.
pub open spec fn types_of(columns: Seq<ColumnView>) -> Seq<DataType> {
    Seq::new(columns.len(), |i: int| columns[i].data_type)
}

/// The first column with the name.
pub open spec fn column_index(columns: Seq<ColumnView>, name: Seq<char>) -> Option<int>
    decreases columns.len(),
{
    if columns.len() == 0 {
        None
    } else {
        match column_index(columns.drop_last(), name) {
            Some(i) => Some(i),
            None => if columns.last().name == name {
                Some(columns.len() - 1)
            } else {
                None
            },
        }
    }
}

/// A column index names a column with the name, and no earlier one has it.
pub proof fn lemma_column_index(columns: Seq<ColumnView>, name: Seq<char>)
    ensures
        match column_index(columns, name) {
            Some(i) => 0 <= i < columns.len() && columns[i].name == name && forall|j: int|
                0 <= j < i ==> (#[trigger] columns[j]).name != name,
            None => forall|j: int| 0 <= j < columns.len() ==> (#[trigger] columns[j]).name != name,
        },
    decreases columns.len(),
{
    if columns.len() > 0 {
        lemma_column_index(columns.drop_last(), name);
        assert forall|j: int| 0 <= j < columns.len() - 1 implies columns.drop_last()[j]
            == columns[j] by {};
    }
}

/// A column that has the name, with none before it that has, is the one that
/// the name means.
pub proof fn lemma_column_index_is(columns: Seq<ColumnView>, name: Seq<char>, i: int)
    requires
        0 <= i < columns.len(),
        columns[i].name == name,
        forall|j: int| 0 <= j < i ==> (#[trigger] columns[j]).name != name,
    ensures
        column_index(columns, name) == Some(i),
{
    lemma_column_index(columns, name);
}

/// Every old name of the map is a column.
pub open spec fn map_known(columns: Seq<ColumnView>, map: Seq<(Seq<char>, Seq<char>)>) -> bool {
    forall|i: int| 0 <= i < map.len() ==> column_index(columns, (#[trigger] map[i]).0) is Some
}

/// The columns that the map picks.
pub open spec fn map_indexes(columns: Seq<ColumnView>, map: Seq<(Seq<char>, Seq<char>)>) -> Seq<
    int,
> {
    Seq::new(map.len(), |i: int| column_index(columns, map[i].0)->0)
}

/// The columns as the map picks and renames them.
pub open spec fn map_columns(columns: Seq<ColumnView>, map: Seq<(Seq<char>, Seq<char>)>) -> Seq<
    ColumnView,
> {
    Seq::new(
        map.len(),
        |i: int|
            ColumnView {
                name: map[i].1,
                data_type: columns[column_index(columns, map[i].0)->0].data_type,
            },
    )
}

/// The values of a row at the indexes.
pub open spec fn project_row(row: Seq<DataValue>, indexes: Seq<int>) -> Seq<DataValue> {
    Seq::new(indexes.len(), |i: int| row[indexes[i]])
}

/// Indexes as integers.
pub open spec fn as_ints(indexes: Seq<usize>) -> Seq<int> {
    Seq::new(indexes.len(), |i: int| indexes[i] as int)
}

impl View for Schema {
    type V = Seq<ColumnView>;

    closed spec fn view(&self) -> Seq<ColumnView> {
        column_views(self.columns@)
    }
}

impl Clone for SchemaColumn {
    fn clone(&self) -> (r: Self)
        ensures
            r@ == self@,
    {
        SchemaColumn { name: self.name.clone(), data_type: self.data_type }
    }
}

impl Clone for Schema {
    fn clone(&self) -> (r: Self)
        ensures
            r@ == self@,
    {
        let mut columns: Vec<SchemaColumn> = Vec::with_capacity(self.columns.len());
        push_columns(&mut columns, &self.columns);
        assert(column_views(columns@) == column_views(self.columns@));
        Schema { columns }
    }
}

fn push_columns(out: &mut Vec<SchemaColumn>, columns: &Vec<SchemaColumn>)
    ensures
        column_views(final(out)@) == column_views(old(out)@) + column_views(columns@),
{
    let ghost start = out@;
    let mut i: usize = 0;
    while i < columns.len()
        invariant
            i <= columns@.len(),
            out@.len() == start.len() + i,
            forall|k: int| 0 <= k < start.len() ==> #[trigger] out@[k] == start[k],
            forall|k: int|
                start.len() <= k < out@.len() ==> (#[trigger] out@[k])@ == columns@[k
                    - start.len()]@,
        decreases columns@.len() - i,
    {
        out.push(columns[i].clone());
        i = i + 1;
    }
    assert(column_views(out@) == column_views(start) + column_views(columns@));
}

impl Schema {
    /// The types of the columns.
    pub open spec fn types(self) -> Seq<DataType> {
        types_of(self@)
    }

    /// The schema with these columns.
    pub fn from_columns(columns: Vec<SchemaColumn>) -> (r: Schema)
        ensures
            r@ == column_views(columns@),
    {
        Schema { columns }
    }

    /// The columns of a table.
    pub fn from_table_spec(spec: &TableSpec) -> (r: Schema)
        ensures
            r@ == spec.columns(),
    {
        let mut columns: Vec<SchemaColumn> = Vec::with_capacity(spec.column_specs.len());
        let mut i: usize = 0;
        while i < spec.column_specs.len()
            invariant
                i <= spec.column_specs@.len(),
                columns@.len() == i,
                forall|k: int| 0 <= k < i ==> (#[trigger] columns@[k])@ == spec.columns()[k],
            decreases spec.column_specs@.len() - i,
        {
            columns.push(
                SchemaColumn {
                    name: spec.column_specs[i].column_name.clone(),
                    data_type: spec.column_specs[i].data_type,
                },
            );
            i = i + 1;
        }
        assert(column_views(columns@) == spec.columns());
        Schema { columns }
    }

    /// The columns.
    pub fn columns(&self) -> (r: &Vec<SchemaColumn>)
        ensures
            column_views(r@) == self@,
            r@.len() == self@.len(),
    {
        &self.columns
    }

    /// The number of columns.
    pub fn len(&self) -> (r: usize)
        ensures
            r == self@.len(),
    {
        self.columns.len()
    }

    /// The type of column `i`.
    pub fn type_at(&self, i: usize) -> (r: DataType)
        requires
            i < self@.len(),
        ensures
            r == self@[i as int].data_type,
            r == self.types()[i as int],
    {
        self.columns[i].data_type
    }

    /// The first column with the name.
    pub fn index_of(&self, name: &str) -> (r: Option<usize>)
        ensures
            match column_index(self@, name@) {
                Some(i) => r == Some(i as usize) && 0 <= i < self@.len() <= usize::MAX,
                None => r is None,
            },
    {
        proof {
            lemma_column_index(self@, name@);
        }
        let mut i: usize = 0;
        while i < self.columns.len()
            invariant
                i <= self.columns@.len(),
                self@ == column_views(self.columns@),
                forall|j: int| 0 <= j < i ==> (#[trigger] self@[j]).name != name@,
                match column_index(self@, name@) {
                    Some(i) => 0 <= i < self@.len() && self@[i].name == name@ && forall|j: int|
                        0 <= j < i ==> (#[trigger] self@[j]).name != name@,
                    None => forall|j: int|
                        0 <= j < self@.len() ==> (#[trigger] self@[j]).name != name@,
                },
            decreases self.columns@.len() - i,
        {
            if same_text(self.columns[i].name.as_str(), name) {
                assert(self@[i as int].name == name@);
                return Some(i);
            }
            i = i + 1;
        }
        None
    }

    /// The column at the index.
    pub fn column_at(&self, index: usize) -> (r: Option<&SchemaColumn>)
        ensures
            index < self@.len() ==> (r matches Some(c) && c@ == self@[index as int]),
            index >= self@.len() ==> r is None,
    {
        if index < self.columns.len() {
            Some(&self.columns[index])
        } else {
            None
        }
    }

    /// The columns as the map picks and renames them, with their indexes, or
    /// [`DbError::UnknownColumn`] where an old name is none of a column.
    pub fn project(&self, map: &Vec<(String, String)>) -> (r: Result<(Schema, Vec<usize>), DbError>)
        ensures
            match r {
                Ok((schema, indexes)) => {
                    &&& map_known(self@, query::map_views(map@))
                    &&& schema@ == map_columns(self@, query::map_views(map@))
                    &&& as_ints(indexes@) == map_indexes(self@, query::map_views(map@))
                    &&& forall|i: int|
                        0 <= i < indexes@.len() ==> (#[trigger] indexes@[i]) < self@.len()
                },
                Err(e) => e == DbError::UnknownColumn && !map_known(
                    self@,
                    query::map_views(map@),
                ),
            },
    {
        let ghost names = query::map_views(map@);
        let mut columns: Vec<SchemaColumn> = Vec::with_capacity(map.len());
        let mut indexes: Vec<usize> = Vec::with_capacity(map.len());
        let mut i: usize = 0;
        while i < map.len()
            invariant
                i <= map@.len(),
                names == query::map_views(map@),
                columns@.len() == i,
                indexes@.len() == i,
                self@ == column_views(self.columns@),
                forall|k: int|
                    0 <= k < i ==> column_index(self@, (#[trigger] names[k]).0) == Some(
                        indexes@[k] as int,
                    ),
                forall|k: int| 0 <= k < i ==> (#[trigger] indexes@[k]) < self@.len(),
                forall|k: int|
                    0 <= k < i ==> (#[trigger] columns@[k])@ == map_columns(self@, names)[k],
            decreases map@.len() - i,
        {
            match self.index_of(map[i].0.as_str()) {
                Some(index) => {
                    assert(names[i as int].0 == map@[i as int].0@);
                    columns.push(
                        SchemaColumn {
                            name: map[i].1.clone(),
                            data_type: self.columns[index].data_type,
                        },
                    );
                    indexes.push(index);
                },
                None => {
                    assert(names[i as int].0 == map@[i as int].0@);
                    return Err(DbError::UnknownColumn);
                },
            }
            i = i + 1;
        }
        assert(column_views(columns@) == map_columns(self@, names));
        assert(as_ints(indexes@) == map_indexes(self@, names));
        Ok((Schema { columns }, indexes))
    }

    /// The columns of `left`, then those of `right`.
    pub fn combine(left: &Schema, right: &Schema) -> (r: Schema)
        ensures
            r@ == left@ + right@,
    {
        let mut columns: Vec<SchemaColumn> = Vec::new();
        push_columns(&mut columns, &left.columns);
        push_columns(&mut columns, &right.columns);
        assert(column_views(columns@) == left@ + right@);
        Schema { columns }
    }
}

/// The values of a row.
#[derive(Debug, PartialEq, Eq)]
pub struct Row {
    values: Vec<Data>,
}

impl View for Row {
    type V = Seq<DataValue>;

    closed spec fn view(&self) -> Seq<DataValue> {
        data::views(self.values@)
    }
}

/// The contents of rows.
pub open spec fn row_views(rows: Seq<Row>) -> Seq<Seq<DataValue>> {
    Seq::new(rows.len(), |i: int| rows[i]@)
}

impl Clone for Row {
    fn clone(&self) -> (r: Self)
        ensures
            r@ == self@,
    {
        let mut values: Vec<Data> = Vec::new();
        push_values(&mut values, &self.values);
        assert(data::views(values@) == data::views(self.values@));
        Row { values }
    }
}

fn push_values(out: &mut Vec<Data>, values: &Vec<Data>)
    ensures
        data::views(final(out)@) == data::views(old(out)@) + data::views(values@),
{
    let ghost start = out@;
    let mut i: usize = 0;
    while i < values.len()
        invariant
            i <= values@.len(),
            out@.len() == start.len() + i,
            forall|k: int| 0 <= k < start.len() ==> #[trigger] out@[k] == start[k],
            forall|k: int|
                start.len() <= k < out@.len() ==> (#[trigger] out@[k])@ == values@[k
                    - start.len()]@,
        decreases values@.len() - i,
    {
        out.push(values[i].clone());
        i = i + 1;
    }
    assert(data::views(out@) == data::views(start) + data::views(values@));
}

/// How often `index` occurs in `indexes` from position `from` on.
pub open spec fn occurrences(indexes: Seq<usize>, index: int, from: int) -> nat
    decreases indexes.len() - from,
{
    if from < 0 || from >= indexes.len() {
        0
    } else {
        occurrences(indexes, index, from + 1) + if indexes[from] == index {
            1nat
        } else {
            0
        }
    }
}

proof fn lemma_occurrences_bound(indexes: Seq<usize>, index: int, from: int)
    requires
        0 <= from <= indexes.len(),
    ensures
        occurrences(indexes, index, from) <= indexes.len() - from,
    decreases indexes.len() - from,
{
    if from < indexes.len() {
        lemma_occurrences_bound(indexes, index, from + 1);
    }
}

impl Row {
    /// The row with these values.
    pub fn new(values: Vec<Data>) -> (r: Row)
        ensures
            r@ == data::views(values@),
    {
        Row { values }
    }

    /// The values.
    pub fn values(&self) -> (r: &Vec<Data>)
        ensures
            data::views(r@) == self@,
            r@.len() == self@.len(),
            forall|i: int| 0 <= i < r@.len() ==> (#[trigger] r@[i])@ == self@[i],
    {
        &self.values
    }

    /// The number of values.
    pub fn width(&self) -> (r: usize)
        ensures
            r == self@.len(),
    {
        self.values.len()
    }

    /// The value at the index.
    pub fn get(&self, index: usize) -> (r: Option<&Data>)
        ensures
            index < self@.len() ==> (r matches Some(d) && d@ == self@[index as int]),
            index >= self@.len() ==> r is None,
    {
        if index < self.values.len() {
            Some(&self.values[index])
        } else {
            None
        }
    }

    /// The row with the values at the indexes, or [`DbError::BadIndex`] where
    /// there is no value at one of them. A value is copied only where it is
    /// needed again.
    pub fn into_project(self, indexes: &Vec<usize>) -> (r: Result<Row, DbError>)
        ensures
            match r {
                Ok(row) => {
                    &&& forall|i: int|
                        0 <= i < indexes@.len() ==> (#[trigger] indexes@[i]) < self@.len()
                    &&& row@ == project_row(self@, as_ints(indexes@))
                },
                Err(e) => e == DbError::BadIndex && exists|i: int|
                    0 <= i < indexes@.len() && (#[trigger] indexes@[i]) >= self@.len(),
            },
    {
        let ghost whole = self@;
        let mut remaining: Vec<usize> = Vec::new();
        let mut source: Vec<Option<Data>> = Vec::new();
        let values = self.values;
        let width: usize = values.len();
        for value in it: values
            invariant
                remaining@.len() == it.index(),
                source@.len() == it.index(),
                it.seq() == values@,
                whole == data::views(values@),
                forall|k: int| 0 <= k < remaining@.len() ==> #[trigger] remaining@[k] == 0,
                forall|k: int|
                    0 <= k < source@.len() ==> ((#[trigger] source@[k]) matches Some(d) && d@
                        == whole[k]),
        {
            remaining.push(0);
            source.push(Some(value));
        }
        let total: usize = indexes.len();
        let mut i: usize = total;
        while i > 0
            invariant
                i <= total,
                total == indexes@.len(),
                whole == self@,
                remaining@.len() == width,
                width == whole.len(),
                forall|k: int|
                    0 <= k < width ==> #[trigger] remaining@[k] == occurrences(
                        indexes@,
                        k,
                        i as int,
                    ),
                forall|j: int| i <= j < indexes@.len() ==> (#[trigger] indexes@[j]) < width,
            decreases i,
        {
            i = i - 1;
            let index: usize = indexes[i];
            if index >= width {
                assert(indexes@[i as int] >= width);
                return Err(DbError::BadIndex);
            }
            proof {
                lemma_occurrences_bound(indexes@, index as int, i + 1);
            }
            let count: usize = remaining[index];
            remaining.set(index, count + 1);
        }
        let mut out: Vec<Data> = Vec::with_capacity(indexes.len());
        while i < indexes.len()
            invariant
                i <= indexes@.len(),
                whole == self@,
                remaining@.len() == width,
                source@.len() == width,
                width == whole.len(),
                out@.len() == i,
                forall|j: int| 0 <= j < indexes@.len() ==> (#[trigger] indexes@[j]) < width,
                forall|k: int|
                    0 <= k < width ==> #[trigger] remaining@[k] == occurrences(
                        indexes@,
                        k,
                        i as int,
                    ),
                forall|k: int|
                    0 <= k < width && remaining@[k] > 0 ==> ((#[trigger] source@[k]) matches Some(d)
                        && d@ == whole[k]),
                forall|j: int| 0 <= j < i ==> (#[trigger] out@[j])@ == whole[indexes@[j] as int],
            decreases indexes@.len() - i,
        {
            let index: usize = indexes[i];
            let left: usize = remaining[index];
            assert(source@[index as int] is Some);
            if left == 1 {
                let mut taken: Option<Data> = None;
                source.set_and_swap(index, &mut taken);
                match taken {
                    Some(value) => {
                        out.push(value);
                    },
                    None => {
                        return Err(DbError::BadIndex);
                    },
                }
            } else {
                match &source[index] {
                    Some(value) => {
                        out.push(value.clone());
                    },
                    None => {
                        return Err(DbError::BadIndex);
                    },
                }
            }
            remaining.set(index, left - 1);
            i = i + 1;
        }
        assert(data::views(out@) == project_row(whole, as_ints(indexes@)));
        Ok(Row { values: out })
    }

    /// The values of `left`, then those of `right`.
    pub fn combine(left: &Row, right: &Row) -> (r: Row)
        ensures
            r@ == left@ + right@,
    {
        let mut values: Vec<Data> = Vec::new();
        push_values(&mut values, &left.values);
        push_values(&mut values, &right.values);
        assert(data::views(values@) == left@ + right@);
        Row { values }
    }
}

/// The bytes that a value is stored as: numbers in little-endian order, texts
/// in UTF-8 behind which a zero byte stands.
pub open spec fn encoded(v: DataValue) -> Seq<u8> {
    match v {
        DataValue::Int32(x) => bytes::le_bytes(bytes::unsigned_32(x), 4),
        DataValue::Int64(x) => bytes::le_bytes(bytes::unsigned_64(x), 8),
        DataValue::Float32(bits) => bytes::le_bytes(bits as nat, 4),
        DataValue::Float64(bits) => bytes::le_bytes(bits as nat, 8),
        DataValue::Text(s) => vstd::utf8::encode_utf8(s).push(0u8),
    }
}

/// The bytes that a row is stored as: those of its values in turn.
pub open spec fn encoded_row(row: Seq<DataValue>) -> Seq<u8>
    decreases row.len(),
{
    if row.len() == 0 {
        Seq::empty()
    } else {
        encoded_row(row.drop_last()) + encoded(row.last())
    }
}

/// A longer row takes no fewer bytes.
pub proof fn lemma_encoded_row_grows(row: Seq<DataValue>, i: int, j: int)
    requires
        0 <= i <= j <= row.len(),
    ensures
        encoded_row(row.take(i)).len() <= encoded_row(row.take(j)).len(),
        i < j ==> encoded_row(row.take(i)).len() + encoded(row[i]).len() <= encoded_row(
            row.take(j),
        ).len(),
        i < row.len() ==> encoded_row(row.take(i + 1)) == encoded_row(row.take(i)) + encoded(
            row[i],
        ),
    decreases j - i,
{
    if i < row.len() {
        assert(row.take(i + 1).drop_last() == row.take(i));
    }
    if i < j {
        lemma_encoded_row_grows(row, i + 1, j);
    }
}

/// `n`, or the largest machine integer where `n` is above it.
pub open spec fn saturated(n: nat) -> nat {
    if n > usize::MAX {
        usize::MAX as nat
    } else {
        n
    }
}

fn serialized_size_of(value: &Data) -> (r: usize)
    ensures
        r == saturated(encoded(value@).len()),
{
    proof {
        bytes::lemma_le_bytes_len(0, 0);
    }
    match value {
        Data::Int32(v) => {
            proof {
                bytes::lemma_le_bytes_len(bytes::unsigned_32(*v), 4);
            }
            4
        },
        Data::Int64(v) => {
            proof {
                bytes::lemma_le_bytes_len(bytes::unsigned_64(*v), 8);
            }
            8
        },
        Data::Float32(v) => {
            proof {
                bytes::lemma_le_bytes_len(*v as nat, 4);
            }
            4
        },
        Data::Float64(v) => {
            proof {
                bytes::lemma_le_bytes_len(*v as nat, 8);
            }
            8
        },
        Data::String(s) => s.as_str().as_bytes().len().saturating_add(1),
    }
}

/// Writes the stored form of `value` at the start of `buf`, and tells its
/// length.
pub fn encode_data(value: &Data, buf: &mut [u8]) -> (r: usize)
    requires
        encoded(value@).len() <= old(buf)@.len(),
    ensures
        r == encoded(value@).len(),
        final(buf)@ == encoded(value@) + old(buf)@.skip(r as int),
{
    match value {
        Data::Int32(v) => {
            proof {
                bytes::lemma_le_bytes_len(bytes::unsigned_32(*v), 4);
            }
            bytes::put_le(buf, bytes::to_unsigned_32(*v) as u64, 4);
            4
        },
        Data::Int64(v) => {
            proof {
                bytes::lemma_le_bytes_len(bytes::unsigned_64(*v), 8);
            }
            bytes::put_le(buf, bytes::to_unsigned_64(*v), 8);
            8
        },
        Data::Float32(v) => {
            proof {
                bytes::lemma_le_bytes_len(*v as nat, 4);
            }
            bytes::put_le(buf, *v as u64, 4);
            4
        },
        Data::Float64(v) => {
            proof {
                bytes::lemma_le_bytes_len(*v as nat, 8);
            }
            bytes::put_le(buf, *v, 8);
            8
        },
        Data::String(s) => {
            let text = s.as_str().as_bytes();
            let ghost start = buf@;
            copy_bytes(buf, text);
            buf[text.len()] = 0;
            proof {
                assert(buf@ == text@.push(0u8) + start.skip((text@.len() + 1) as int));
            }
            text.len() + 1
        },
    }
}

/// Copies `from` to the start of `buf`.
pub fn copy_bytes(buf: &mut [u8], from: &[u8])
    requires
        from@.len() <= old(buf)@.len(),
    ensures
        final(buf)@ == from@ + old(buf)@.skip(from@.len() as int),
{
    let ghost start = buf@;
    let mut i: usize = 0;
    while i < from.len()
        invariant
            i <= from@.len() <= start.len(),
            buf@.len() == start.len(),
            forall|k: int| 0 <= k < i ==> #[trigger] buf@[k] == from@[k],
            forall|k: int| i <= k < start.len() ==> #[trigger] buf@[k] == start[k],
        decreases from@.len() - i,
    {
        buf[i] = from[i];
        i = i + 1;
    }
    assert(buf@ == from@ + start.skip(from@.len() as int));
}

/// What std's `Vec::capacity` answers: room for at least the elements that
/// are there. How much more is the allocator's choice, and not said.
#[verifier::external_body]
pub(crate) fn vec_capacity<T>(v: &Vec<T>) -> (r: usize)
    ensures
        r >= v@.len(),
{
    v.capacity()
}

/// What std's `String::capacity` answers: room for at least the bytes of the
/// text. How much more is the allocator's choice, and not said.
#[verifier::external_body]
fn text_capacity(s: &String) -> (r: usize)
    ensures
        r >= vstd::utf8::encode_utf8(s@).len(),
{
    s.capacity()
}

/// The memory that a row takes, as far as a word holds it: itself, room for a
/// number of values, and room for the bytes of its texts.
pub open spec fn heap_size(slots: nat, texts: nat) -> nat {
    saturated(
        vstd::layout::size_of::<Row>() + slots * vstd::layout::size_of::<Data>() + texts,
    )
}

/// A value is a text.
pub open spec fn has_text(row: Seq<DataValue>) -> bool {
    exists|i: int| 0 <= i < row.len() && (#[trigger] row[i]) is Text
}

/// The memory that a row takes, by the room for its values and for the bytes of
/// its texts.
pub fn heap_bytes(slots: usize, texts: usize) -> (r: usize)
    ensures
        r == heap_size(slots as nat, texts as nat),
{
    core::mem::size_of::<Row>().saturating_add(
        saturating_product(slots, core::mem::size_of::<Data>()),
    ).saturating_add(texts)
}

fn heap_bytes_of(value: &Data) -> (r: usize)
    ensures
        value@ matches DataValue::Text(s) ==> r >= vstd::utf8::encode_utf8(s).len(),
        !(value@ is Text) ==> r == 0,
{
    match value {
        Data::String(s) => text_capacity(s),
        _ => 0,
    }
}

/// The bytes of the texts of a row.
pub open spec fn text_bytes(row: Seq<DataValue>) -> nat
    decreases row.len(),
{
    if row.len() == 0 {
        0
    } else {
        text_bytes(row.drop_last()) + match row.last() {
            DataValue::Text(s) => vstd::utf8::encode_utf8(s).len(),
            _ => 0,
        }
    }
}

/// `a * b`, or the largest machine integer where the product is above it.
pub fn saturating_product(a: usize, b: usize) -> (r: usize)
    ensures
        r == saturated((a * b) as nat),
{
    match a.checked_mul(b) {
        Some(n) => n,
        None => usize::MAX,
    }
}

impl Row {
    /// The number of bytes of the stored form.
    pub fn serialized_size(&self) -> (r: usize)
        ensures
            r == saturated(encoded_row(self@).len()),
    {
        let mut size: usize = 0;
        let mut i: usize = 0;
        assert(encoded_row(self@.take(0)).len() == 0);
        while i < self.values.len()
            invariant
                i <= self.values@.len(),
                self@ == data::views(self.values@),
                size == saturated(encoded_row(self@.take(i as int)).len()),
            decreases self.values@.len() - i,
        {
            proof {
                lemma_encoded_row_grows(self@, i as int, i + 1);
            }
            size = size.saturating_add(serialized_size_of(&self.values[i]));
            i = i + 1;
        }
        assert(self@.take(i as int) == self@);
        size
    }

    /// An estimate of the memory that the row takes, which is never below what
    /// its values need. How much room the allocator gave for them is not said.
    pub fn estimated_heap_bytes(&self) -> (r: usize)
        ensures
            exists|slots: usize, texts: usize|
                slots >= self@.len() && texts >= saturated(text_bytes(self@)) && (!has_text(self@)
                    ==> texts == 0) && r == #[trigger] heap_size(
                    slots as nat,
                    texts as nat,
                ),
            r >= saturated(
                (vstd::layout::size_of::<Row>() + self@.len() * vstd::layout::size_of::<Data>()
                    + text_bytes(self@)) as nat,
            ),
    {
        let slots: usize = vec_capacity(&self.values);
        let mut texts: usize = 0;
        let mut i: usize = 0;
        assert(text_bytes(self@.take(0)) == 0);
        while i < self.values.len()
            invariant
                i <= self.values@.len(),
                self@ == data::views(self.values@),
                texts >= saturated(text_bytes(self@.take(i as int))),
                !has_text(self@) ==> texts == 0,
            decreases self.values@.len() - i,
        {
            assert(self@.take(i + 1).drop_last() == self@.take(i as int));
            assert(self@.take(i + 1).last() == self.values@[i as int]@);
            assert(self@[i as int] == self.values@[i as int]@);
            texts = texts.saturating_add(heap_bytes_of(&self.values[i]));
            i = i + 1;
        }
        assert(self@.take(i as int) == self@);
        proof {
            let width = vstd::layout::size_of::<Data>();
            let n = self@.len();
            assert(slots * width >= n * width) by (nonlinear_arith)
                requires
                    slots >= n,
            ;
        }
        heap_bytes(slots, texts)
    }

    /// Writes the stored form at the start of `buf`.
    pub fn encode_into(&self, buf: &mut [u8])
        requires
            encoded_row(self@).len() <= old(buf)@.len(),
        ensures
            final(buf)@ == encoded_row(self@) + old(buf)@.skip(encoded_row(self@).len() as int),
    {
        let room: usize = buf.len();
        let mut offset: usize = 0;
        let mut i: usize = 0;
        let ghost start = buf@;
        proof {
            assert(encoded_row(self@.take(0)) == Seq::<u8>::empty());
            assert(self@.take(self@.len() as int) == self@);
        }
        while i < self.values.len()
            invariant
                i <= self.values@.len(),
                self@ == data::views(self.values@),
                self@.take(self@.len() as int) == self@,
                encoded_row(self@).len() <= start.len(),
                buf@.len() == start.len(),
                room == start.len(),
                offset == encoded_row(self@.take(i as int)).len(),
                offset <= start.len(),
                buf@ == encoded_row(self@.take(i as int)) + start.skip(offset as int),
            decreases self.values@.len() - i,
        {
            proof {
                lemma_encoded_row_grows(self@, i as int, self@.len() as int);
                lemma_encoded_row_grows(self@, i + 1, self@.len() as int);
            }
            let ghost before = buf@;
            let (head, tail) = buf.split_at_mut(offset);
            let used: usize = encode_data(&self.values[i], tail);
            proof {
                let done = encoded_row(self@.take(i as int));
                let value = encoded(self@[i as int]);
                assert(before.subrange(0, offset as int) == done);
                assert(before.subrange(offset as int, before.len() as int) == start.skip(
                    offset as int,
                ));
                assert(start.skip(offset as int).skip(used as int) == start.skip(offset + used));
                assert(done + (value + start.skip(offset + used)) == (done + value) + start.skip(
                    offset + used,
                ));
            }
            offset = offset + used;
            i = i + 1;
        }
        assert(self@.take(i as int) == self@);
    }

    /// The stored form, if memory can hold it.
    pub fn to_stored(&self) -> (r: Option<Vec<u8>>)
        ensures
            match r {
                Some(stored) => stored@ == encoded_row(self@),
                None => encoded_row(self@).len() >= usize::MAX,
            },
    {
        let size: usize = self.serialized_size();
        if size == usize::MAX {
            return None;
        }
        let mut stored: Vec<u8> = vec![0u8; size];
        let slice = stored.as_mut_slice();
        self.encode_into(slice);
        assert(stored@ == encoded_row(self@));
        Some(stored)
    }
}

} // verus!
