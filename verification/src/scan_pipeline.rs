//! Scans of one table with filters and projections on the way.
//!
//! Such a chain of operators is run in one pass: only the columns that are
//! needed are decoded, and rows are tested as they are read.

use vstd::prelude::*;

use crate::catalog::db_context;
use crate::catalog::db_context::DbContext;
use crate::catalog::statistics;
use crate::catalog::statistics::is_physically_ordered;
use crate::catalog::table::{ColumnView, TableSpec};
use crate::data;
use crate::data::{Data, DataType, DataValue};
use crate::error::DbError;
use crate::executor;
use crate::executor::value;
use crate::executor::{scan_batch_blocks, CompiledPredicate, PredicateOperand};
use crate::io::{Input, Output};
use crate::query;
use crate::query::{ComparisionValue, OpView, Predicate, QueryOp};
use crate::query_support;
use crate::query_support::find_table_spec;
use crate::row;
use crate::row::{Row, Schema, SchemaColumn};
use crate::semantics;
use crate::semantics::{CompiledView, Database, Kind, RightView, RowView};
use crate::storage::disk_client;
use crate::storage::disk_client::{DiskClient, DiskLayout};
use crate::storage::row_codec;
use crate::storage::row_codec::{decode_value_from_bytes, part, skip_value_from_bytes};
use crate::text::same_text;

verus! {

/// The least number of blocks that a scan reads at once.
pub const STREAM_SCAN_MIN_BATCH_BLOCKS: usize = 64;

/// The greatest number of blocks that a scan reads at once.
pub const STREAM_SCAN_MAX_BATCH_BLOCKS: usize = 1024;

/// A column of the table.
#[derive(Debug)]
pub struct BaseColumnMeta {
    pub name: String,
    pub data_type: DataType,
    pub physically_ordered: bool,
}

/// A column of the result.
#[derive(Debug)]
pub struct OutputColumnMeta {
    pub name: String,
    pub base_index: usize,
    pub required_index: usize,
}

/// A column that an operator of the chain sees.
#[derive(Debug)]
pub struct VisibleColumn {
    pub name: String,
    pub base_index: usize,
}

/// A chain of operators on a table: the predicates on the columns of the table,
/// and the columns that are seen at the end.
struct LogicalScanPipeline {
    table: Ghost<int>,
    file_id: String,
    base_columns: Vec<BaseColumnMeta>,
    visible_columns: Vec<VisibleColumn>,
    predicates: Vec<CompiledPredicate>,
}

/// The columns of the table by name and type.
pub open spec fn base_views(columns: Seq<BaseColumnMeta>) -> Seq<ColumnView> {
    Seq::new(
        columns.len(),
        |i: int| ColumnView { name: columns[i].name@, data_type: columns[i].data_type },
    )
}

/// The columns that are seen, by name and type.
pub open spec fn visible_views(
    visible: Seq<VisibleColumn>,
    base: Seq<ColumnView>,
) -> Seq<ColumnView> {
    Seq::new(
        visible.len(),
        |i: int|
            ColumnView {
                name: visible[i].name@,
                data_type: base[visible[i].base_index as int].data_type,
            },
    )
}

/// The places of the columns that are seen.
pub open spec fn visible_indexes(visible: Seq<VisibleColumn>) -> Seq<int> {
    Seq::new(visible.len(), |i: int| visible[i].base_index as int)
}

/// Every index is below the bound.
pub open spec fn indexes_below(indexes: Seq<int>, bound: int) -> bool {
    forall|i: int| 0 <= i < indexes.len() ==> 0 <= #[trigger] indexes[i] < bound
}

/// A predicate on columns that are seen, as one on columns of the table.
pub open spec fn lifted(p: CompiledView, indexes: Seq<int>) -> CompiledView {
    CompiledView {
        left: indexes[p.left],
        operator: p.operator,
        right: match p.right {
            RightView::Column(i) => RightView::Column(indexes[i]),
            RightView::Literal(v) => RightView::Literal(v),
        },
    }
}

/// Predicates on columns that are seen, as those on columns of the table.
pub open spec fn lifted_all(ps: Seq<CompiledView>, indexes: Seq<int>) -> Seq<CompiledView> {
    Seq::new(ps.len(), |i: int| lifted(ps[i], indexes))
}

/// The places that a predicate looks at are below the bound.
pub open spec fn places_below(p: CompiledView, bound: int) -> bool {
    &&& 0 <= p.left < bound
    &&& p.right matches RightView::Column(i) ==> 0 <= i < bound
}

/// The places that predicates look at are below the bound.
pub open spec fn all_places_below(ps: Seq<CompiledView>, bound: int) -> bool {
    forall|i: int| 0 <= i < ps.len() ==> places_below(#[trigger] ps[i], bound)
}

/// What is wrong with a chain of operators on a table.
pub open spec fn pipeline_error(op: OpView, tables: Seq<TableSpec>) -> Option<DbError>
    decreases op,
{
    match op {
        OpView::Scan(id) => match db_context::table_index(tables, id) {
            Some(_) => None,
            None => Some(DbError::UnknownTable),
        },
        OpView::Filter(ps, u) => match pipeline_error(*u, tables) {
            Some(e) => Some(e),
            None => if semantics::all_known(query_support::schema_of(*u, tables)->Ok_0, ps) {
                None
            } else {
                Some(DbError::UnknownColumn)
            },
        },
        OpView::Project(map, u) => match pipeline_error(*u, tables) {
            Some(e) => Some(e),
            None => if row::map_known(query_support::schema_of(*u, tables)->Ok_0, map) {
                None
            } else {
                Some(DbError::UnknownColumn)
            },
        },
        _ => None,
    }
}

/// Predicates have an answer on columns that are seen just where their lifted
/// forms have one on those of the table.
proof fn lemma_lifted_answerable(
    ps: Seq<CompiledView>,
    indexes: Seq<int>,
    seen: Seq<Kind>,
    kinds: Seq<Kind>,
)
    requires
        all_places_below(ps, indexes.len() as int),
        seen.len() == indexes.len(),
        forall|i: int|
            0 <= i < indexes.len() ==> 0 <= #[trigger] indexes[i] < kinds.len() && seen[i]
                == kinds[indexes[i]],
    ensures
        semantics::all_answerable(ps, seen) == semantics::all_answerable(
            lifted_all(ps, indexes),
            kinds,
        ),
{
    let more = lifted_all(ps, indexes);
    assert forall|k: int| 0 <= k < ps.len() implies semantics::answerable(
        #[trigger] ps[k],
        seen,
    )
        == semantics::answerable(more[k], kinds) by {
        assert(places_below(ps[k], indexes.len() as int));
        assert(0 <= indexes[ps[k].left] < kinds.len());
        if let RightView::Column(i) = ps[k].right {
            assert(0 <= indexes[i] < kinds.len());
        }
    }
    if semantics::all_answerable(ps, seen) {
        assert forall|k: int| 0 <= k < more.len() implies semantics::answerable(
            #[trigger] more[k],
            kinds,
        ) by {
            assert(semantics::answerable(ps[k], seen));
        }
    }
    if semantics::all_answerable(more, kinds) {
        assert forall|k: int| 0 <= k < ps.len() implies semantics::answerable(
            #[trigger] ps[k],
            seen,
        ) by {
            assert(semantics::answerable(more[k], kinds));
        }
    }
}

/// A predicate says the same of the columns that are seen as its lifted form
/// says of those of the table.
proof fn lemma_lifted(base: RowView, indexes: Seq<int>, p: CompiledView)
    requires
        indexes_below(indexes, base.len() as int),
        places_below(p, indexes.len() as int),
    ensures
        semantics::predicate_result(row::project_row(base, indexes), p)
            == semantics::predicate_result(base, lifted(p, indexes)),
        places_below(lifted(p, indexes), base.len() as int),
{
    assert(0 <= indexes[p.left] < base.len());
    match p.right {
        RightView::Column(i) => {
            assert(0 <= indexes[i] < base.len());
        },
        RightView::Literal(_) => {},
    }
}

/// A row meets predicates in two parts just where it meets both.
pub proof fn lemma_holds_concat(row: RowView, a: Seq<CompiledView>, b: Seq<CompiledView>)
    ensures
        semantics::holds(row, a + b) <==> semantics::holds(row, a) && semantics::holds(row, b),
{
    let all = a + b;
    if semantics::holds(row, all) {
        assert forall|i: int| 0 <= i < a.len() implies semantics::meets(row, #[trigger] a[i]) by {
            assert(semantics::meets(row, all[i]));
        }
        assert forall|i: int| 0 <= i < b.len() implies semantics::meets(row, #[trigger] b[i]) by {
            assert(semantics::meets(row, all[a.len() + i]));
        }
    }
    if semantics::holds(row, a) && semantics::holds(row, b) {
        assert forall|i: int| 0 <= i < all.len() implies semantics::meets(
            row,
            #[trigger] all[i],
        ) by {
            if i < a.len() {
                assert(semantics::meets(row, a[i]));
            } else {
                assert(semantics::meets(row, b[i - a.len()]));
            }
        }
    }
}

/// Predicates in turn say the same of the columns that are seen as their lifted
/// forms say of the row of the table.
proof fn lemma_lifted_result(base: RowView, indexes: Seq<int>, ps: Seq<CompiledView>)
    requires
        indexes_below(indexes, base.len() as int),
        all_places_below(ps, indexes.len() as int),
    ensures
        semantics::predicates_result(row::project_row(base, indexes), ps)
            == semantics::predicates_result(base, lifted_all(ps, indexes)),
    decreases ps.len(),
{
    if ps.len() > 0 {
        let rest = ps.skip(1);
        assert(places_below(ps[0], indexes.len() as int));
        lemma_lifted(base, indexes, ps[0]);
        assert forall|i: int| 0 <= i < rest.len() implies places_below(
            #[trigger] rest[i],
            indexes.len() as int,
        ) by {
            assert(places_below(ps[i + 1], indexes.len() as int));
        }
        lemma_lifted_result(base, indexes, rest);
        assert(lifted_all(rest, indexes) =~= lifted_all(ps, indexes).skip(1));
    }
}

/// The columns that are seen meet predicates just where the row of the table
/// meets their lifted forms.
pub proof fn lemma_lifted_holds(base: RowView, indexes: Seq<int>, ps: Seq<CompiledView>)
    requires
        indexes_below(indexes, base.len() as int),
        all_places_below(ps, indexes.len() as int),
    ensures
        semantics::holds(row::project_row(base, indexes), ps) <==> semantics::holds(
            base,
            lifted_all(ps, indexes),
        ),
{
    let seen = row::project_row(base, indexes);
    let lps = lifted_all(ps, indexes);
    assert forall|i: int| 0 <= i < ps.len() implies semantics::meets(seen, #[trigger] ps[i])
        == semantics::meets(base, lps[i]) by {
        lemma_lifted(base, indexes, ps[i]);
    }
    if semantics::holds(base, lps) {
        assert forall|i: int| 0 <= i < ps.len() implies semantics::meets(seen, #[trigger] ps[i]) by {
            assert(semantics::meets(base, lps[i]));
        }
    }
    if semantics::holds(seen, ps) {
        assert forall|i: int| 0 <= i < lps.len() implies semantics::meets(
            base,
            #[trigger] lps[i],
        ) by {
            assert(semantics::meets(seen, ps[i]));
        }
    }
}

/// A filter on columns that are seen is one more filter on the table.
proof fn lemma_filter_pipeline(
    base: Seq<RowView>,
    ps: Seq<CompiledView>,
    indexes: Seq<int>,
    more: Seq<CompiledView>,
    width: nat,
)
    requires
        semantics::all_wide(base, width),
        indexes_below(indexes, width as int),
        all_places_below(more, indexes.len() as int),
    ensures
        semantics::filter_rows(
            semantics::project_rows(semantics::filter_rows(base, ps), indexes),
            more,
        ) == semantics::project_rows(
            semantics::filter_rows(base, ps + lifted_all(more, indexes)),
            indexes,
        ),
    decreases base.len(),
{
    let all = ps + lifted_all(more, indexes);
    if base.len() == 0 {
        assert(semantics::project_rows(semantics::filter_rows(base, ps), indexes) =~= Seq::<
            RowView,
        >::empty());
        assert(semantics::project_rows(semantics::filter_rows(base, all), indexes) =~= Seq::<
            RowView,
        >::empty());
    } else {
        let front = base.drop_last();
        let b = base.last();
        assert(b == base[base.len() - 1]);
        assert(semantics::all_wide(front, width)) by {
            assert forall|i: int| 0 <= i < front.len() implies (#[trigger] front[i]).len()
                == width by {
                assert(front[i] == base[i]);
            }
        }
        lemma_filter_pipeline(front, ps, indexes, more, width);
        lemma_holds_concat(b, ps, lifted_all(more, indexes));
        lemma_lifted_holds(b, indexes, more);
        let seen = row::project_row(b, indexes);
        let f1 = semantics::filter_rows(front, ps);
        let f2 = semantics::filter_rows(front, all);
        assert(semantics::project_rows(f1.push(b), indexes) =~= semantics::project_rows(
            f1,
            indexes,
        ).push(seen));
        assert(semantics::project_rows(f2.push(b), indexes) =~= semantics::project_rows(
            f2,
            indexes,
        ).push(seen));
        semantics::lemma_filter_push(semantics::project_rows(f1, indexes), seen, more);
    }
}

/// A filter without predicates leaves all rows.
proof fn lemma_filter_nothing(rows: Seq<RowView>)
    ensures
        semantics::filter_rows(rows, Seq::empty()) == rows,
    decreases rows.len(),
{
    if rows.len() > 0 {
        lemma_filter_nothing(rows.drop_last());
        assert(rows.drop_last().push(rows.last()) =~= rows);
    } else {
        assert(semantics::filter_rows(rows, Seq::empty()) =~= rows);
    }
}

/// All columns in their order.
pub open spec fn identity(width: nat) -> Seq<int> {
    Seq::new(width, |i: int| i)
}

/// Rows with all columns in their order are the rows.
pub proof fn lemma_project_identity(rows: Seq<RowView>, width: nat)
    requires
        semantics::all_wide(rows, width),
    ensures
        semantics::project_rows(rows, identity(width)) == rows,
{
    assert forall|i: int| 0 <= i < rows.len() implies row::project_row(
        #[trigger] rows[i],
        identity(width),
    ) == rows[i] by {
        assert(row::project_row(rows[i], identity(width)) =~= rows[i]);
    }
    assert(semantics::project_rows(rows, identity(width)) =~= rows);
}

/// Columns picked from picked columns.
pub open spec fn composed(indexes: Seq<int>, picks: Seq<int>) -> Seq<int> {
    Seq::new(picks.len(), |i: int| indexes[picks[i]])
}

/// Picking columns twice is picking them once.
pub proof fn lemma_project_composed(rows: Seq<RowView>, indexes: Seq<int>, picks: Seq<int>)
    requires
        indexes_below(picks, indexes.len() as int),
    ensures
        semantics::project_rows(semantics::project_rows(rows, indexes), picks)
            == semantics::project_rows(rows, composed(indexes, picks)),
{
    assert forall|i: int| 0 <= i < rows.len() implies row::project_row(
        row::project_row(#[trigger] rows[i], indexes),
        picks,
    ) == row::project_row(rows[i], composed(indexes, picks)) by {
        assert forall|k: int| 0 <= k < picks.len() implies row::project_row(
            row::project_row(rows[i], indexes),
            picks,
        )[k] == row::project_row(rows[i], composed(indexes, picks))[k] by {
            assert(0 <= picks[k] < indexes.len());
        }
        assert(row::project_row(row::project_row(rows[i], indexes), picks) =~= row::project_row(
            rows[i],
            composed(indexes, picks),
        ));
    }
    assert(semantics::project_rows(semantics::project_rows(rows, indexes), picks)
        =~= semantics::project_rows(rows, composed(indexes, picks)));
}

/// The rows that a chain of operators makes of those of its table.
pub open spec fn pipeline_rows(
    base: Seq<RowView>,
    ps: Seq<CompiledView>,
    indexes: Seq<int>,
) -> Seq<RowView> {
    semantics::project_rows(semantics::filter_rows(base, ps), indexes)
}

/// A chain of operators makes these rows of those of its table.
pub open spec fn pipeline_is(
    op: OpView,
    tables: Seq<TableSpec>,
    table: int,
    ps: Seq<CompiledView>,
    indexes: Seq<int>,
) -> bool {
    forall|layout: DiskLayout|
        semantics::all_wide(
            semantics::table_rows(tables[table], layout),
            tables[table].columns().len(),
        ) ==> #[trigger] semantics::rows_of(op, Database { tables, layout }) == pipeline_rows(
            semantics::table_rows(tables[table], layout),
            ps,
            indexes,
        )
}

/// The table below a chain of operators.
pub open spec fn pipeline_table(op: OpView, tables: Seq<TableSpec>) -> int
    decreases op,
{
    match op {
        OpView::Scan(id) => db_context::table_index(tables, id)->0,
        OpView::Filter(_, u) => pipeline_table(*u, tables),
        OpView::Project(_, u) => pipeline_table(*u, tables),
        _ => 0,
    }
}

/// The table of a chain of filters and projections is sound where those that it
/// reads are.
proof fn lemma_pipeline_sound(op: OpView, db: Database)
    requires
        semantics::sound(op, db),
        query_support::schema_of(op, db.tables) is Ok,
        semantics::is_pipeline(op),
    ensures
        semantics::table_sound(db.tables[pipeline_table(op, db.tables)], db.layout),
    decreases op,
{
    match op {
        OpView::Filter(_, u) => lemma_pipeline_sound(*u, db),
        OpView::Project(_, u) => lemma_pipeline_sound(*u, db),
        _ => {},
    }
}

/// The columns of the table that the columns of a chain of operators are.
pub open spec fn source_columns(op: OpView, tables: Seq<TableSpec>) -> Seq<int>
    decreases op,
{
    match op {
        OpView::Scan(id) => identity(tables[pipeline_table(op, tables)].columns().len()),
        OpView::Filter(_, u) => source_columns(*u, tables),
        OpView::Project(map, u) => composed(
            source_columns(*u, tables),
            row::map_indexes(query_support::schema_of(*u, tables)->Ok_0, map),
        ),
        _ => Seq::empty(),
    }
}

/// The predicates of a chain of operators, on the columns of the table.
pub open spec fn pipeline_tests(op: OpView, tables: Seq<TableSpec>) -> Seq<CompiledView>
    decreases op,
{
    match op {
        OpView::Filter(ps, u) => pipeline_tests(*u, tables) + lifted_all(
            semantics::compiled_all(query_support::schema_of(*u, tables)->Ok_0, ps),
            source_columns(*u, tables),
        ),
        OpView::Project(_, u) => pipeline_tests(*u, tables),
        _ => Seq::empty(),
    }
}

/// The columns of the table that a chain of operators reads: those of its rows,
/// and those that its predicates compare.
pub open spec fn read_columns(op: OpView, tables: Seq<TableSpec>) -> Seq<int> {
    let tests = pipeline_tests(op, tables);
    source_columns(op, tables) + Seq::new(tests.len(), |i: int| tests[i].left) + Seq::new(
        tests.len(),
        |i: int|
            match tests[i].right {
                RightView::Column(c) => c,
                RightView::Literal(_) => tests[i].left,
            },
    )
}

/// The file of the table of a chain of operators lies below the scratch area.
pub open spec fn table_below(op: OpView, db: Database) -> bool {
    let (start, count) = db.layout.files[db.tables[pipeline_table(op, db.tables)].file_id@];
    start + count <= db.layout.anon_start
}

/// The values that a chain of operators reads can be read, in every row of its
/// table.
pub open spec fn table_legible(op: OpView, db: Database) -> bool {
    let table = db.tables[pipeline_table(op, db.tables)];
    let blocks = db.layout.file_blocks(table.file_id@);
    forall|b: int|
        0 <= b < blocks.len() ==> row_codec::picked_block_rows(
            #[trigger] blocks[b],
            row::types_of(table.columns()),
            read_columns(op, db.tables),
        ) is Ok
}

/// Whether a column of a chain of operators is said to be in order on the
/// device.
pub open spec fn output_ordered(op: OpView, tables: Seq<TableSpec>, column: int) -> bool {
    let sources = source_columns(op, tables);
    0 <= column < sources.len() && statistics::ordered_on_disk(
        tables[pipeline_table(op, tables)].column_specs@[sources[column]].stats,
    )
}

/// What columns that are picked hold.
pub open spec fn picked_kinds(kinds: Seq<Kind>, indexes: Seq<int>) -> Seq<Kind> {
    Seq::new(indexes.len(), |i: int| kinds[indexes[i]])
}

impl LogicalScanPipeline {
    spec fn columns(self) -> Seq<ColumnView> {
        base_views(self.base_columns@)
    }

    spec fn indexes(self) -> Seq<int> {
        visible_indexes(self.visible_columns@)
    }

    spec fn wf(self, op: OpView, tables: Seq<TableSpec>) -> bool {
        let t = self.table@;
        &&& t == pipeline_table(op, tables)
        &&& self.indexes() == source_columns(op, tables)
        &&& 0 <= t < tables.len()
        &&& self.file_id@ == tables[t].file_id@
        &&& self.columns() == tables[t].columns()
        &&& forall|i: int|
            0 <= i < self.base_columns@.len() ==> (#[trigger] self.base_columns@[i]).physically_ordered
                == statistics::ordered_on_disk(tables[t].column_specs@[i].stats)
        &&& indexes_below(self.indexes(), self.columns().len() as int)
        &&& all_places_below(
            executor::compiled_views(self.predicates@),
            self.columns().len() as int,
        )
        &&& query_support::schema_of(op, tables) == Ok::<Seq<ColumnView>, DbError>(
            visible_views(self.visible_columns@, self.columns()),
        )
        &&& pipeline_is(
            op,
            tables,
            t,
            executor::compiled_views(self.predicates@),
            self.indexes(),
        )
        &&& executor::compiled_views(self.predicates@) == pipeline_tests(op, tables)
        &&& forall|layout: DiskLayout| #[trigger]
            semantics::op_answerable(op, Database { tables, layout }) ==> semantics::all_answerable(
                executor::compiled_views(self.predicates@),
                semantics::table_kinds(tables[t], layout),
            )
        &&& forall|layout: DiskLayout| #[trigger]
            semantics::kinds(op, Database { tables, layout }) == picked_kinds(
                semantics::table_kinds(tables[t], layout),
                self.indexes(),
            )
    }
}

/// The first column that is seen under the name.
fn find_visible_column(visible: &Vec<VisibleColumn>, base: Ghost<Seq<ColumnView>>, name: &str) -> (r:
    Option<usize>)
    ensures
        match row::column_index(visible_views(visible@, base@), name@) {
            Some(i) => r == Some(i as usize) && 0 <= i < visible@.len() <= usize::MAX,
            None => r is None,
        },
{
    let ghost columns = visible_views(visible@, base@);
    proof {
        row::lemma_column_index(columns, name@);
    }
    let mut i: usize = 0;
    while i < visible.len()
        invariant
            i <= visible@.len(),
            columns == visible_views(visible@, base@),
            forall|j: int| 0 <= j < i ==> (#[trigger] columns[j]).name != name@,
            match row::column_index(columns, name@) {
                Some(i) => 0 <= i < columns.len() && columns[i].name == name@ && forall|j: int|
                    0 <= j < i ==> (#[trigger] columns[j]).name != name@,
                None => forall|j: int|
                    0 <= j < columns.len() ==> (#[trigger] columns[j]).name != name@,
            },
        decreases visible@.len() - i,
    {
        if same_text(visible[i].name.as_str(), name) {
            assert(columns[i as int].name == name@);
            return Some(i);
        }
        i = i + 1;
    }
    None
}

/// A predicate on columns that are seen, as one on columns of the table.
fn compile_pipeline_predicate(
    predicate: &Predicate,
    visible: &Vec<VisibleColumn>,
    base: Ghost<Seq<ColumnView>>,
) -> (r: Option<CompiledPredicate>)
    ensures
        match r {
            Some(p) => {
                &&& semantics::predicate_known(visible_views(visible@, base@), predicate@)
                &&& p@ == lifted(
                    semantics::compiled(visible_views(visible@, base@), predicate@),
                    visible_indexes(visible@),
                )
                &&& places_below(
                    semantics::compiled(visible_views(visible@, base@), predicate@),
                    visible@.len() as int,
                )
            },
            None => !semantics::predicate_known(visible_views(visible@, base@), predicate@),
        },
{
    let left = match find_visible_column(visible, base, predicate.column_name.as_str()) {
        Some(i) => i,
        None => {
            return None;
        },
    };
    let right = match &predicate.value {
        ComparisionValue::Column(other) => match find_visible_column(
            visible,
            base,
            other.as_str(),
        ) {
            Some(i) => PredicateOperand::Column(visible[i].base_index),
            None => {
                return None;
            },
        },
        ComparisionValue::I32(v) => PredicateOperand::Literal(Data::Int32(*v)),
        ComparisionValue::I64(v) => PredicateOperand::Literal(Data::Int64(*v)),
        ComparisionValue::F32(v, _) => PredicateOperand::Literal(Data::Float32(*v)),
        ComparisionValue::F64(v, _) => PredicateOperand::Literal(Data::Float64(*v)),
        ComparisionValue::String(v) => PredicateOperand::Literal(Data::String(v.clone())),
    };
    Some(
        CompiledPredicate {
            left_index: visible[left].base_index,
            operator: predicate.operator,
            right,
        },
    )
}

/// The chain that a scan starts.
fn scan_pipeline(table: &TableSpec, index: Ghost<int>) -> (r: LogicalScanPipeline)
    ensures
        r.table == index,
        r.file_id@ == table.file_id@,
        r.columns() == table.columns(),
        forall|i: int|
            0 <= i < r.base_columns@.len() ==> (#[trigger] r.base_columns@[i]).physically_ordered
                == statistics::ordered_on_disk(table.column_specs@[i].stats),
        r.indexes() == identity(table.columns().len()),
        visible_views(r.visible_columns@, r.columns()) == table.columns(),
        r.predicates@.len() == 0,
{
    let specs = &table.column_specs;
    let mut base_columns: Vec<BaseColumnMeta> = Vec::with_capacity(specs.len());
    let mut visible_columns: Vec<VisibleColumn> = Vec::with_capacity(specs.len());
    let mut i: usize = 0;
    while i < specs.len()
        invariant
            i <= specs@.len(),
            specs@ == table.column_specs@,
            base_columns@.len() == i,
            visible_columns@.len() == i,
            forall|k: int|
                0 <= k < i ==> {
                    &&& (#[trigger] base_columns@[k]).name@ == specs@[k].column_name@
                    &&& base_columns@[k].data_type == specs@[k].data_type
                    &&& base_columns@[k].physically_ordered == statistics::ordered_on_disk(
                        specs@[k].stats,
                    )
                },
            forall|k: int|
                0 <= k < i ==> {
                    &&& (#[trigger] visible_columns@[k]).name@ == specs@[k].column_name@
                    &&& visible_columns@[k].base_index == k
                },
        decreases specs@.len() - i,
    {
        base_columns.push(
            BaseColumnMeta {
                name: specs[i].column_name.clone(),
                data_type: specs[i].data_type,
                physically_ordered: is_physically_ordered(&specs[i].stats),
            },
        );
        visible_columns.push(
            VisibleColumn { name: specs[i].column_name.clone(), base_index: i },
        );
        i = i + 1;
    }
    let r = LogicalScanPipeline {
        table: index,
        file_id: table.file_id.clone(),
        base_columns,
        visible_columns,
        predicates: Vec::new(),
    };
    proof {
        assert(r.columns() =~= table.columns());
        assert(r.indexes() =~= identity(table.columns().len()));
        assert(visible_views(r.visible_columns@, r.columns()) =~= table.columns());
    }
    r
}

/// The chain of operators, if it is one on a single table.
fn compile_logical_scan_pipeline(op: &QueryOp, ctx: &DbContext) -> (r: Result<
    Option<LogicalScanPipeline>,
    DbError,
>)
    ensures
        match r {
            Ok(Some(logical)) => {
                &&& semantics::is_pipeline(op@)
                &&& pipeline_error(op@, ctx.tables()) is None
                &&& logical.wf(op@, ctx.tables())
            },
            Ok(None) => !semantics::is_pipeline(op@),
            Err(e) => semantics::is_pipeline(op@) && pipeline_error(op@, ctx.tables()) == Some(e),
        },
    decreases *op,
{
    let ghost tables = ctx.tables();
    match op {
        QueryOp::Scan(scan) => {
            let table = find_table_spec(ctx, scan.table_id.as_str())?;
            let ghost t = db_context::table_index(tables, scan.table_id@)->0;
            let logical = scan_pipeline(table, Ghost(t));
            proof {
                let width = tables[t].columns().len();
                let none = executor::compiled_views(logical.predicates@);
                assert(none =~= Seq::<CompiledView>::empty());
                assert forall|layout: DiskLayout|
                    semantics::all_wide(
                        semantics::table_rows(tables[t], layout),
                        width,
                    ) implies #[trigger] semantics::rows_of(op@, Database { tables, layout })
                    == pipeline_rows(
                    semantics::table_rows(tables[t], layout),
                    none,
                    logical.indexes(),
                ) by {
                    let base = semantics::table_rows(tables[t], layout);
                    lemma_filter_nothing(base);
                    lemma_project_identity(base, width);
                }
                assert forall|layout: DiskLayout| #[trigger]
                    semantics::kinds(op@, Database { tables, layout }) == picked_kinds(
                        semantics::table_kinds(tables[t], layout),
                        logical.indexes(),
                    ) by {
                    assert(semantics::kinds(op@, Database { tables, layout }) =~= picked_kinds(
                        semantics::table_kinds(tables[t], layout),
                        logical.indexes(),
                    ));
                }
                assert(forall|kinds: Seq<Kind>| #[trigger] semantics::all_answerable(none, kinds));
            }
            Ok(Some(logical))
        },
        QueryOp::Filter(filter) => {
            let mut logical = match compile_logical_scan_pipeline(&filter.underlying, ctx)? {
                Some(logical) => logical,
                None => {
                    return Ok(None);
                },
            };
            let ghost before = logical;
            let ghost columns = before.columns();
            let ghost seen = visible_views(before.visible_columns@, columns);
            let ghost all = query::predicate_views(filter.predicates@);
            let ghost ps = executor::compiled_views(before.predicates@);
            let mut i: usize = 0;
            while i < filter.predicates.len()
                invariant
                    i <= filter.predicates@.len(),
                    tables == ctx.tables(),
                    op@ == OpView::Filter(all, Box::new(filter.underlying@)),
                    semantics::is_pipeline(filter.underlying@),
                    pipeline_error(filter.underlying@, tables) is None,
                    query_support::schema_of(filter.underlying@, tables) == Ok::<
                        Seq<ColumnView>,
                        DbError,
                    >(seen),
                    all == query::predicate_views(filter.predicates@),
                    columns == before.columns(),
                    seen == visible_views(before.visible_columns@, columns),
                    logical.visible_columns == before.visible_columns,
                    logical.base_columns == before.base_columns,
                    logical.file_id == before.file_id,
                    logical.table == before.table,
                    logical.predicates@.len() == before.predicates@.len() + i,
                    forall|k: int|
                        0 <= k < before.predicates@.len() ==> #[trigger] logical.predicates@[k]
                            == before.predicates@[k],
                    forall|k: int|
                        before.predicates@.len() <= k < logical.predicates@.len() ==> (
                        #[trigger] logical.predicates@[k])@ == lifted(
                            semantics::compiled(seen, all[k - before.predicates@.len()]),
                            before.indexes(),
                        ),
                    forall|k: int|
                        0 <= k < i ==> semantics::predicate_known(seen, #[trigger] all[k])
                            && places_below(
                            semantics::compiled(seen, all[k]),
                            before.visible_columns@.len() as int,
                        ),
                decreases filter.predicates@.len() - i,
            {
                assert(all[i as int] == filter.predicates@[i as int]@);
                match compile_pipeline_predicate(
                    &filter.predicates[i],
                    &logical.visible_columns,
                    Ghost(columns),
                ) {
                    Some(p) => {
                        logical.predicates.push(p);
                    },
                    None => {
                        return Err(DbError::UnknownColumn);
                    },
                }
                i = i + 1;
            }
            proof {
                let more = semantics::compiled_all(seen, all);
                let indexes = before.indexes();
                let t = before.table@;
                let width = columns.len();
                assert(executor::compiled_views(logical.predicates@) =~= ps + lifted_all(
                    more,
                    indexes,
                ));
                assert forall|k: int| 0 <= k < more.len() implies places_below(
                    #[trigger] more[k],
                    indexes.len() as int,
                ) by {
                    assert(semantics::predicate_known(seen, all[k]));
                }
                assert forall|layout: DiskLayout| #[trigger]
                    semantics::op_answerable(
                        op@,
                        Database { tables, layout },
                    ) implies semantics::all_answerable(
                    executor::compiled_views(logical.predicates@),
                    semantics::table_kinds(tables[t], layout),
                ) by {
                    let db = Database { tables, layout };
                    let kinds = semantics::table_kinds(tables[t], layout);
                    assert(semantics::kinds(filter.underlying@, db) == picked_kinds(
                        kinds,
                        indexes,
                    ));
                    lemma_lifted_answerable(more, indexes, picked_kinds(kinds, indexes), kinds);
                    assert(semantics::op_answerable(filter.underlying@, db));
                    assert forall|k: int|
                        0 <= k < logical.predicates@.len() implies semantics::answerable(
                        #[trigger] executor::compiled_views(logical.predicates@)[k],
                        kinds,
                    ) by {
                        if k < before.predicates@.len() {
                            assert(semantics::answerable(ps[k], kinds));
                        } else {
                            assert(semantics::answerable(
                                lifted_all(more, indexes)[k - before.predicates@.len()],
                                kinds,
                            ));
                        }
                    }
                }
                assert forall|layout: DiskLayout| #[trigger]
                    semantics::kinds(op@, Database { tables, layout }) == picked_kinds(
                        semantics::table_kinds(tables[t], layout),
                        logical.indexes(),
                    ) by {
                    assert(semantics::kinds(op@, Database { tables, layout }) == semantics::kinds(
                        filter.underlying@,
                        Database { tables, layout },
                    ));
                }
                assert forall|k: int|
                    0 <= k < logical.predicates@.len() implies places_below(
                    #[trigger] executor::compiled_views(logical.predicates@)[k],
                    width as int,
                ) by {
                    if k < before.predicates@.len() {
                        assert(places_below(ps[k], width as int));
                    } else {
                        let m = more[k - before.predicates@.len()];
                        assert(places_below(m, indexes.len() as int));
                        assert(0 <= indexes[m.left] < width);
                        match m.right {
                            RightView::Column(c) => {
                                assert(0 <= indexes[c] < width);
                            },
                            RightView::Literal(_) => {},
                        }
                    }
                }
                assert forall|layout: DiskLayout|
                    semantics::all_wide(
                        semantics::table_rows(tables[t], layout),
                        tables[t].columns().len(),
                    ) implies #[trigger] semantics::rows_of(op@, Database { tables, layout })
                    == pipeline_rows(
                    semantics::table_rows(tables[t], layout),
                    ps + lifted_all(more, indexes),
                    indexes,
                ) by {
                    let base = semantics::table_rows(tables[t], layout);
                    let db = Database { tables, layout };
                    assert(semantics::rows_of(filter.underlying@, db) == pipeline_rows(
                        base,
                        ps,
                        indexes,
                    ));
                    lemma_filter_pipeline(base, ps, indexes, more, width);
                }
            }
            Ok(Some(logical))
        },
        QueryOp::Project(project) => {
            let mut logical = match compile_logical_scan_pipeline(&project.underlying, ctx)? {
                Some(logical) => logical,
                None => {
                    return Ok(None);
                },
            };
            let ghost before = logical;
            let ghost columns = before.columns();
            let ghost seen = visible_views(before.visible_columns@, columns);
            let ghost map = query::map_views(project.column_name_map@);
            let mut visible: Vec<VisibleColumn> = Vec::with_capacity(project.column_name_map.len());
            let mut i: usize = 0;
            while i < project.column_name_map.len()
                invariant
                    i <= project.column_name_map@.len(),
                    tables == ctx.tables(),
                    op@ == OpView::Project(map, Box::new(project.underlying@)),
                    semantics::is_pipeline(project.underlying@),
                    pipeline_error(project.underlying@, tables) is None,
                    query_support::schema_of(project.underlying@, tables) == Ok::<
                        Seq<ColumnView>,
                        DbError,
                    >(seen),
                    map == query::map_views(project.column_name_map@),
                    columns == before.columns(),
                    seen == visible_views(before.visible_columns@, columns),
                    logical == before,
                    indexes_below(before.indexes(), columns.len() as int),
                    visible@.len() == i,
                    forall|k: int|
                        0 <= k < i ==> {
                            &&& row::column_index(seen, (#[trigger] map[k]).0) is Some
                            &&& 0 <= row::column_index(seen, map[k].0)->0
                                < before.visible_columns@.len()
                        },
                    forall|k: int|
                        0 <= k < i ==> {
                            &&& (#[trigger] visible@[k]).name@ == map[k].1
                            &&& visible@[k].base_index == before.indexes()[row::column_index(
                                seen,
                                map[k].0,
                            )->0]
                            &&& visible@[k].base_index < columns.len()
                        },
                decreases project.column_name_map@.len() - i,
            {
                assert(map[i as int].0 == project.column_name_map@[i as int].0@);
                match find_visible_column(
                    &logical.visible_columns,
                    Ghost(columns),
                    project.column_name_map[i].0.as_str(),
                ) {
                    Some(source) => {
                        assert(before.indexes()[source as int]
                            == before.visible_columns@[source as int].base_index);
                        visible.push(
                            VisibleColumn {
                                name: project.column_name_map[i].1.clone(),
                                base_index: logical.visible_columns[source].base_index,
                            },
                        );
                    },
                    None => {
                        return Err(DbError::UnknownColumn);
                    },
                }
                i = i + 1;
            }
            logical.visible_columns = visible;
            proof {
                let indexes = before.indexes();
                let picks = row::map_indexes(seen, map);
                let t = before.table@;
                let ps = executor::compiled_views(before.predicates@);
                assert(logical.indexes() =~= composed(indexes, picks));
                assert forall|layout: DiskLayout| #[trigger]
                    semantics::op_answerable(
                        op@,
                        Database { tables, layout },
                    ) implies semantics::all_answerable(
                    ps,
                    semantics::table_kinds(tables[t], layout),
                ) by {
                    assert(semantics::op_answerable(
                        project.underlying@,
                        Database { tables, layout },
                    ));
                }
                assert forall|k: int| 0 <= k < picks.len() implies 0 <= #[trigger] picks[k]
                    < indexes.len() by {
                    assert(row::column_index(seen, map[k].0) is Some);
                }
                assert forall|layout: DiskLayout| #[trigger]
                    semantics::kinds(op@, Database { tables, layout }) == picked_kinds(
                        semantics::table_kinds(tables[t], layout),
                        logical.indexes(),
                    ) by {
                    let below = semantics::kinds(
                        project.underlying@,
                        Database { tables, layout },
                    );
                    let kinds = semantics::table_kinds(tables[t], layout);
                    assert(below == picked_kinds(kinds, indexes));
                    let above = semantics::kinds(op@, Database { tables, layout });
                    assert forall|c: int| 0 <= c < above.len() implies above[c] == picked_kinds(
                        kinds,
                        logical.indexes(),
                    )[c] by {
                        assert(0 <= picks[c] < indexes.len());
                    }
                    assert(above =~= picked_kinds(kinds, logical.indexes()));
                }
                assert(visible_views(logical.visible_columns@, columns) =~= row::map_columns(
                    seen,
                    map,
                ));
                assert forall|k: int| 0 <= k < picks.len() implies 0 <= #[trigger] picks[k]
                    < indexes.len() by {
                    assert(row::column_index(seen, map[k].0) is Some);
                }
                assert forall|layout: DiskLayout|
                    semantics::all_wide(
                        semantics::table_rows(tables[t], layout),
                        tables[t].columns().len(),
                    ) implies #[trigger] semantics::rows_of(op@, Database { tables, layout })
                    == pipeline_rows(
                    semantics::table_rows(tables[t], layout),
                    ps,
                    logical.indexes(),
                ) by {
                    let base = semantics::table_rows(tables[t], layout);
                    let db = Database { tables, layout };
                    assert(semantics::rows_of(project.underlying@, db) == pipeline_rows(
                        base,
                        ps,
                        indexes,
                    ));
                    lemma_project_composed(semantics::filter_rows(base, ps), indexes, picks);
                }
            }
            Ok(Some(logical))
        },
        QueryOp::Sort(_) | QueryOp::Cross(_) => Ok(None),
    }
}

/// The places that are looked up, in their order.
pub open spec fn needed(lookup: Seq<Option<usize>>) -> Seq<int>
    decreases lookup.len(),
{
    if lookup.len() == 0 {
        Seq::empty()
    } else {
        let front = needed(lookup.drop_last());
        if lookup.last() is Some {
            front.push(lookup.len() - 1)
        } else {
            front
        }
    }
}

/// Each place is looked up where it stands among those that are.
pub open spec fn lookup_ok(lookup: Seq<Option<usize>>) -> bool {
    forall|b: int|
        0 <= b < lookup.len() ==> ((#[trigger] lookup[b]) matches Some(k) ==> k < needed(
            lookup,
        ).len() && needed(lookup)[k as int] == b)
}

/// The places that are looked up are places.
proof fn lemma_needed(lookup: Seq<Option<usize>>)
    ensures
        indexes_below(needed(lookup), lookup.len() as int),
        needed(lookup).len() <= lookup.len(),
        forall|k: int|
            0 <= k < needed(lookup).len() ==> lookup[#[trigger] needed(lookup)[k]] is Some,
    decreases lookup.len(),
{
    if lookup.len() > 0 {
        lemma_needed(lookup.drop_last());
        let front = needed(lookup.drop_last());
        let all = needed(lookup);
        assert forall|k: int| 0 <= k < all.len() implies 0 <= #[trigger] all[k] < lookup.len()
            && lookup[all[k]] is Some by {
            if k < front.len() {
                assert(0 <= front[k] < lookup.len() - 1);
                assert(lookup.drop_last()[front[k]] == lookup[front[k]]);
            }
        }
    }
}

/// The places that are looked up are the picked ones.
proof fn lemma_needed_picked(lookup: Seq<Option<usize>>)
    ensures
        forall|c: int|
            0 <= c < lookup.len() ==> ((#[trigger] lookup[c]) is Some) == row_codec::is_picked(
                needed(lookup),
                c,
            ),
    decreases lookup.len(),
{
    lemma_needed(lookup);
    if lookup.len() > 0 {
        let less = lookup.drop_last();
        lemma_needed_picked(less);
        let front = needed(less);
        let all = needed(lookup);
        assert forall|c: int| 0 <= c < lookup.len() implies ((#[trigger] lookup[c]) is Some)
            == row_codec::is_picked(all, c) by {
            if lookup[c] is Some {
                if c < less.len() {
                    assert(less[c] == lookup[c]);
                    let p = choose|p: int| 0 <= p < front.len() && #[trigger] front[p] == c;
                    assert(all[p] == c);
                } else {
                    assert(all[all.len() - 1] == c);
                }
            }
        }
    }
}

/// A plan of one pass over a table.
#[derive(Debug)]
pub struct ScanPipelinePlan {
    file_id: String,
    base_columns: Vec<BaseColumnMeta>,
    required_lookup: Vec<Option<usize>>,
    output_columns: Vec<OutputColumnMeta>,
    predicates: Vec<CompiledPredicate>,
    schema: Schema,
}

/// The places of the columns of the result.
pub open spec fn output_indexes(output: Seq<OutputColumnMeta>) -> Seq<int> {
    Seq::new(output.len(), |i: int| output[i].base_index as int)
}

impl ScanPipelinePlan {
    /// The file of the table.
    pub closed spec fn file(self) -> Seq<char> {
        self.file_id@
    }

    /// The columns of the table.
    pub closed spec fn columns(self) -> Seq<ColumnView> {
        base_views(self.base_columns@)
    }

    /// The types of the columns of the table.
    pub open spec fn types(self) -> Seq<DataType> {
        row::types_of(self.columns())
    }

    /// The columns of the result.
    pub closed spec fn output(self) -> Seq<ColumnView> {
        self.schema@
    }

    /// The columns of the table whose values are read.
    pub closed spec fn required(self) -> Seq<int> {
        needed(self.required_lookup@)
    }

    /// The predicates, on the columns of the table.
    pub closed spec fn tests(self) -> Seq<CompiledView> {
        lifted_all(executor::compiled_views(self.predicates@), self.required())
    }

    /// The places of the columns of the result.
    pub closed spec fn picks(self) -> Seq<int> {
        output_indexes(self.output_columns@)
    }

    /// Whether a column of the result is said to be in order on the device.
    pub closed spec fn ordered(self, output_index: int) -> bool {
        self.base_columns@[self.output_columns@[output_index].base_index as int].physically_ordered
    }

    /// The plan can be run.
    pub closed spec fn wf(self) -> bool {
        &&& self.required_lookup@.len() == self.base_columns@.len()
        &&& lookup_ok(self.required_lookup@)
        &&& all_places_below(
            executor::compiled_views(self.predicates@),
            self.required().len() as int,
        )
        &&& forall|i: int|
            0 <= i < self.output_columns@.len() ==> {
                &&& (#[trigger] self.output_columns@[i]).required_index < self.required().len()
                &&& self.required()[self.output_columns@[i].required_index as int]
                    == self.output_columns@[i].base_index
                &&& self.output_columns@[i].base_index < self.base_columns@.len()
            }
        &&& self.schema@.len() == self.output_columns@.len()
        &&& forall|i: int|
            0 <= i < self.output_columns@.len() ==> (#[trigger] self.schema@[i]).data_type
                == self.base_columns@[self.output_columns@[i].base_index as int].data_type
    }

    /// The plan is one of the operator over the table.
    pub closed spec fn plans(self, op: OpView, tables: Seq<TableSpec>, table: int) -> bool {
        &&& self.wf()
        &&& semantics::is_pipeline(op)
        &&& table == pipeline_table(op, tables)
        &&& self.picks() == source_columns(op, tables)
        &&& 0 <= table < tables.len()
        &&& self.file_id@ == tables[table].file_id@
        &&& self.columns() == tables[table].columns()
        &&& forall|i: int|
            0 <= i < self.base_columns@.len() ==> (#[trigger] self.base_columns@[i]).physically_ordered
                == statistics::ordered_on_disk(tables[table].column_specs@[i].stats)
        &&& query_support::schema_of(op, tables) == Ok::<Seq<ColumnView>, DbError>(self.schema@)
        &&& pipeline_is(op, tables, table, self.tests(), self.picks())
        &&& self.tests() == pipeline_tests(op, tables)
        &&& forall|layout: DiskLayout| #[trigger]
            semantics::op_answerable(op, Database { tables, layout }) ==> semantics::all_answerable(
                self.tests(),
                semantics::table_kinds(tables[table], layout),
            )
    }

    /// The predicates fail with the error on some row of the table.
    pub open spec fn stops(self, layout: DiskLayout, e: DbError) -> bool {
        semantics::fails(
            semantics::file_rows(layout.file_blocks(self.file()), self.types())->Ok_0,
            self.tests(),
            e,
        )
    }

    /// Where the predicates of a plan fail on a row of the table, a comparison of
    /// the operator may have no outcome.
    pub proof fn lemma_unanswered(self, op: OpView, db: Database, table: int, e: DbError)
        requires
            self.wf(),
            self.plans(op, db.tables, table),
            semantics::sound(op, db),
            self.stops(db.layout, e),
        ensures
            e == DbError::Incomparable,
            !semantics::op_answerable(op, db),
    {
        let t = db.tables[table];
        let kinds = semantics::table_kinds(t, db.layout);
        lemma_pipeline_sound(op, db);
        assert(semantics::table_sound(t, db.layout));
        let base = semantics::table_rows(t, db.layout);
        lemma_file_rows_conform(db.layout.file_blocks(t.file_id@), self.types());
        semantics::lemma_table_kinds(t, db.layout);
        let ps = executor::compiled_views(self.predicates@);
        lemma_needed(self.required_lookup@);
        assert forall|i: int| 0 <= i < self.tests().len() implies semantics::placed(
            #[trigger] self.tests()[i],
            kinds.len() as int,
        ) by {
            assert(places_below(ps[i], self.required().len() as int));
        }
        semantics::lemma_fails_unanswered(base, self.tests(), kinds, e);
        assert(db == Database { tables: db.tables, layout: db.layout });
    }

    /// The rows that the plan makes of the device's.
    pub open spec fn rows(self, layout: DiskLayout) -> Seq<RowView> {
        pipeline_rows(
            semantics::file_rows(layout.file_blocks(self.file()), self.types())->Ok_0,
            self.tests(),
            self.picks(),
        )
    }

    /// The file of the table lies below the scratch area.
    pub open spec fn below(self, layout: DiskLayout) -> bool {
        let (start, count) = layout.files[self.file()];
        start + count <= layout.anon_start
    }

    /// The values of the columns that are read can be read, in every row of the
    /// file.
    pub open spec fn legible(self, layout: DiskLayout) -> bool {
        let blocks = layout.file_blocks(self.file());
        forall|b: int|
            0 <= b < blocks.len() ==> row_codec::picked_block_rows(
                #[trigger] blocks[b],
                self.types(),
                self.required(),
            ) is Ok
    }

    /// Where the values that a plan reads can be read, so can those of the
    /// operator's columns and of those that it compares.
    pub proof fn lemma_legible(self, op: OpView, db: Database, table: int)
        requires
            self.plans(op, db.tables, table),
            self.legible(db.layout),
        ensures
            table_legible(op, db),
    {
        let columns = read_columns(op, db.tables);
        let sources = source_columns(op, db.tables);
        let tests = pipeline_tests(op, db.tables);
        let ps = executor::compiled_views(self.predicates@);
        assert forall|c: int| row_codec::is_picked(columns, c) implies #[trigger] row_codec::is_picked(
            self.required(),
            c,
        ) by {
            let p = choose|p: int| 0 <= p < columns.len() && #[trigger] columns[p] == c;
            if p < sources.len() {
                let o = self.output_columns@[p];
                assert(self.picks()[p] == o.base_index);
                assert(self.required()[o.required_index as int] == c);
            } else {
                let i = if p < sources.len() + tests.len() {
                    p - sources.len()
                } else {
                    p - sources.len() - tests.len()
                };
                assert(places_below(ps[i], self.required().len() as int));
                assert(tests[i] == lifted(ps[i], self.required()));
                assert(self.required()[ps[i].left] == tests[i].left);
                if let RightView::Column(k) = ps[i].right {
                    assert(tests[i].right == RightView::Column(self.required()[k]));
                }
            }
        }
        let blocks = db.layout.file_blocks(self.file());
        assert forall|b: int| 0 <= b < blocks.len() implies row_codec::picked_block_rows(
            #[trigger] blocks[b],
            self.types(),
            columns,
        ) is Ok by {
            row_codec::lemma_fewer_picked(blocks[b], self.types(), columns, self.required());
        }
    }

    /// The file of a plan is that of the operator's table.
    pub proof fn lemma_plan(self, op: OpView, db: Database, table: int)
        requires
            self.plans(op, db.tables, table),
        ensures
            self.below(db.layout) == table_below(op, db),
    {
    }

    /// The file of the table lies below the scratch area and holds rows.
    pub open spec fn file_ok(self, layout: DiskLayout) -> bool {
        let (start, count) = layout.files[self.file()];
        &&& start + count <= layout.anon_start
        &&& semantics::file_rows(layout.file_blocks(self.file()), self.types()) is Ok
    }

    /// The rows of the plan are those of the operator, where the tables are
    /// sound.
    pub proof fn lemma_plans(self, op: OpView, db: Database, table: int)
        requires
            self.plans(op, db.tables, table),
            semantics::sound(op, db),
        ensures
            self.file_ok(db.layout),
            self.rows(db.layout) == semantics::rows_of(op, db),
            self.output() == query_support::schema_of(op, db.tables)->Ok_0,
            query_support::schema_of(op, db.tables) is Ok,
            row_codec::all_conform(self.rows(db.layout), row::types_of(self.output())),
    {
        let t = db.tables[table];
        lemma_pipeline_sound(op, db);
        assert(semantics::table_sound(db.tables[table], db.layout));
        let base = semantics::table_rows(t, db.layout);
        lemma_file_rows_conform(db.layout.file_blocks(t.file_id@), self.types());
        assert(semantics::all_wide(base, t.columns().len())) by {
            assert forall|i: int| 0 <= i < base.len() implies (#[trigger] base[i]).len()
                == t.columns().len() by {
                assert(data::conforms(base[i], self.types()));
            }
        }
        assert(db == Database { tables: db.tables, layout: db.layout });
        assert(semantics::rows_of(op, db) == pipeline_rows(base, self.tests(), self.picks()));
        self.lemma_rows_conform(base);
    }

    /// What the plan makes of rows of the table has the types of the result.
    proof fn lemma_rows_conform(self, base: Seq<RowView>)
        requires
            self.wf(),
            row_codec::all_conform(base, self.types()),
        ensures
            row_codec::all_conform(
                pipeline_rows(base, self.tests(), self.picks()),
                row::types_of(self.output()),
            ),
    {
        let kept = semantics::filter_rows(base, self.tests());
        let out = pipeline_rows(base, self.tests(), self.picks());
        semantics::lemma_filter_members(base, self.tests());
        assert forall|i: int| 0 <= i < out.len() implies data::conforms(
            #[trigger] out[i],
            row::types_of(self.output()),
        ) by {
            assert(base.contains(kept[i]));
            let k = choose|k: int| 0 <= k < base.len() && base[k] == kept[i];
            assert(data::conforms(base[k], self.types()));
            assert forall|c: int| 0 <= c < out[i].len() implies (#[trigger] out[i][c]).data_type()
                == row::types_of(self.output())[c] && out[i][c].storable() by {
                let b = self.output_columns@[c].base_index as int;
                assert(self.picks()[c] == b);
                assert(base[k][b].data_type() == self.types()[b]);
                assert(self.schema@[c].data_type == self.base_columns@[b].data_type);
            }
        }
    }

    /// Where a column of the table is in order on the device, the column of the
    /// result that it is picked as is in order too.
    pub proof fn lemma_ordered(self, op: OpView, db: Database, table: int, output_index: int)
        requires
            self.plans(op, db.tables, table),
            semantics::sound(op, db),
            0 <= output_index < self.output().len(),
            self.ordered(output_index),
        ensures
            semantics::ascending(semantics::rows_of(op, db), output_index),
    {
        self.lemma_plans(op, db, table);
        let t = db.tables[table];
        lemma_pipeline_sound(op, db);
        assert(semantics::table_sound(db.tables[table], db.layout));
        let base = semantics::table_rows(t, db.layout);
        let b = self.output_columns@[output_index].base_index as int;
        assert(self.base_columns@[b].physically_ordered);
        assert(self.columns().len() == t.columns().len());
        assert(semantics::ascending(base, b)) by {
            assert(statistics::ordered_on_disk(t.column_specs@[b].stats));
        }
        lemma_filter_ascending(base, self.tests(), b);
        let kept = semantics::filter_rows(base, self.tests());
        let out = semantics::rows_of(op, db);
        assert forall|i: int, j: int| 0 <= i < j < out.len() implies crate::executor::value::at_most(
            (#[trigger] out[i])[output_index],
            (#[trigger] out[j])[output_index],
        ) by {
            assert(self.picks()[output_index] == b);
            assert(out[i][output_index] == kept[i][b]);
            assert(out[j][output_index] == kept[j][b]);
        }
    }

    /// Values picked from needed ones have the types of the result.
    proof fn lemma_picked(self, compact: RowView, out: RowView)
        requires
            self.wf(),
            compact.len() == self.required().len(),
            forall|k: int|
                0 <= k < compact.len() ==> {
                    &&& (#[trigger] compact[k]).data_type() == self.types()[self.required()[k]]
                    &&& compact[k].storable()
                },
            out.len() == self.output_columns@.len(),
            forall|i: int|
                0 <= i < out.len() ==> #[trigger] out[i]
                    == compact[self.output_columns@[i].required_index as int],
        ensures
            data::conforms(out, row::types_of(self.output())),
    {
        assert forall|c: int| 0 <= c < out.len() implies (#[trigger] out[c]).data_type()
            == row::types_of(self.output())[c] && out[c].storable() by {
            let o = self.output_columns@[c];
            assert(out[c] == compact[o.required_index as int]);
            assert(self.required()[o.required_index as int] == o.base_index);
            assert(self.schema@[c].data_type
                == self.base_columns@[o.base_index as int].data_type);
        }
    }

    /// Values picked from needed ones are those picked from all.
    proof fn lemma_picked_from(self, full: RowView, out: RowView)
        requires
            self.wf(),
            out.len() == self.output_columns@.len(),
            forall|i: int|
                0 <= i < out.len() ==> #[trigger] out[i] == row::project_row(
                    full,
                    self.required(),
                )[self.output_columns@[i].required_index as int],
        ensures
            out == row::project_row(full, self.picks()),
    {
        assert forall|c: int| 0 <= c < out.len() implies out[c] == row::project_row(
            full,
            self.picks(),
        )[c] by {
            let o = self.output_columns@[c];
            assert(self.required()[o.required_index as int] == o.base_index);
        }
        assert(out =~= row::project_row(full, self.picks()));
    }

    /// The columns of the result.
    pub fn schema(&self) -> (r: &Schema)
        ensures
            r@ == self.output(),
    {
        &self.schema
    }

    /// Whether a column of the result is said to be in order on the device.
    pub fn output_physically_ordered(&self, output_index: usize) -> (r: bool)
        requires
            self.wf(),
        ensures
            r == (output_index < self.output().len() && self.ordered(output_index as int)),
    {
        if output_index < self.output_columns.len() {
            let base_index: usize = self.output_columns[output_index].base_index;
            self.base_columns[base_index].physically_ordered
        } else {
            false
        }
    }
}

/// Rows that are left by a filter stay in order.
pub proof fn lemma_filter_ascending(rows: Seq<RowView>, ps: Seq<CompiledView>, column: int)
    requires
        semantics::ascending(rows, column),
    ensures
        semantics::ascending(semantics::filter_rows(rows, ps), column),
    decreases rows.len(),
{
    if rows.len() > 0 {
        let front = rows.drop_last();
        assert(semantics::ascending(front, column)) by {
            assert forall|i: int, j: int|
                0 <= i < j < front.len() implies crate::executor::value::at_most(
                (#[trigger] front[i])[column],
                (#[trigger] front[j])[column],
            ) by {
                assert(front[i] == rows[i] && front[j] == rows[j]);
            }
        }
        lemma_filter_ascending(front, ps, column);
        semantics::lemma_filter_members(front, ps);
        let f = semantics::filter_rows(front, ps);
        let out = semantics::filter_rows(rows, ps);
        assert forall|i: int, j: int| 0 <= i < j < out.len() implies crate::executor::value::at_most(
            (#[trigger] out[i])[column],
            (#[trigger] out[j])[column],
        ) by {
            if j < f.len() {
                assert(out[i] == f[i] && out[j] == f[j]);
            } else {
                assert(front.contains(f[i]));
                let k = choose|k: int| 0 <= k < front.len() && front[k] == f[i];
                assert(rows[k] == out[i]);
                assert(rows[rows.len() - 1] == out[j]);
            }
        }
    }
}

/// Every row of a file has the types.
pub proof fn lemma_file_rows_conform(blocks: Seq<Seq<u8>>, types: Seq<DataType>)
    ensures
        semantics::file_rows(blocks, types) matches Ok(rows) ==> row_codec::all_conform(
            rows,
            types,
        ),
    decreases blocks.len(),
{
    if blocks.len() > 0 {
        lemma_file_rows_conform(blocks.drop_last(), types);
        let block = blocks.last();
        row_codec::lemma_decoded_rows(
            row_codec::payload(block),
            types,
            row_codec::row_count(block) as int,
        );
    }
}

/// Which columns of the table are needed.
fn mark_needed(logical: &LogicalScanPipeline) -> (r: Vec<bool>)
    requires
        indexes_below(logical.indexes(), logical.columns().len() as int),
        all_places_below(
            executor::compiled_views(logical.predicates@),
            logical.columns().len() as int,
        ),
    ensures
        r@.len() == logical.columns().len(),
        forall|i: int| 0 <= i < logical.indexes().len() ==> r@[#[trigger] logical.indexes()[i]],
        forall|i: int|
            0 <= i < logical.predicates@.len() ==> {
                &&& r@[(#[trigger] logical.predicates@[i]).left_index as int]
                &&& logical.predicates@[i].right matches PredicateOperand::Column(c)
                    ==> r@[c as int]
            },
{
    let width: usize = logical.base_columns.len();
    let mut flags: Vec<bool> = vec![false; width];
    let mut i: usize = 0;
    while i < logical.visible_columns.len()
        invariant
            i <= logical.visible_columns@.len(),
            flags@.len() == width,
            width == logical.columns().len(),
            indexes_below(logical.indexes(), width as int),
            forall|k: int| 0 <= k < i ==> flags@[#[trigger] logical.indexes()[k]],
        decreases logical.visible_columns@.len() - i,
    {
        assert(0 <= logical.indexes()[i as int] < width);
        flags.set(logical.visible_columns[i].base_index, true);
        i = i + 1;
    }
    let mut j: usize = 0;
    proof {
        assert forall|k: int| 0 <= k < logical.predicates@.len() implies {
            &&& (#[trigger] logical.predicates@[k]).left_index < width
            &&& logical.predicates@[k].right matches PredicateOperand::Column(c) ==> c < width
        } by {
            assert(places_below(executor::compiled_views(logical.predicates@)[k], width as int));
        }
    }
    while j < logical.predicates.len()
        invariant
            j <= logical.predicates@.len(),
            flags@.len() == width,
            width == logical.columns().len(),
            indexes_below(logical.indexes(), width as int),
            forall|k: int|
                0 <= k < logical.predicates@.len() ==> {
                    &&& (#[trigger] logical.predicates@[k]).left_index < width
                    &&& logical.predicates@[k].right matches PredicateOperand::Column(c) ==> c
                        < width
                },
            forall|k: int|
                0 <= k < logical.indexes().len() ==> flags@[#[trigger] logical.indexes()[k]],
            forall|k: int|
                0 <= k < j ==> {
                    &&& flags@[(#[trigger] logical.predicates@[k]).left_index as int]
                    &&& logical.predicates@[k].right matches PredicateOperand::Column(c)
                        ==> flags@[c as int]
                },
        decreases logical.predicates@.len() - j,
    {
        flags.set(logical.predicates[j].left_index, true);
        match &logical.predicates[j].right {
            PredicateOperand::Column(c) => {
                flags.set(*c, true);
            },
            PredicateOperand::Literal(_) => {},
        }
        j = j + 1;
    }
    flags
}

/// Each needed column with its place among the needed ones.
fn number_needed(flags: &Vec<bool>) -> (r: Vec<Option<usize>>)
    ensures
        r@.len() == flags@.len(),
        lookup_ok(r@),
        forall|b: int| 0 <= b < r@.len() ==> ((#[trigger] r@[b]) is Some <==> flags@[b]),
{
    let mut lookup: Vec<Option<usize>> = Vec::with_capacity(flags.len());
    let mut count: usize = 0;
    let mut i: usize = 0;
    while i < flags.len()
        invariant
            i <= flags@.len(),
            lookup@.len() == i,
            count == needed(lookup@).len(),
            count <= i,
            lookup_ok(lookup@),
            forall|b: int| 0 <= b < i ==> ((#[trigger] lookup@[b]) is Some <==> flags@[b]),
        decreases flags@.len() - i,
    {
        let ghost before = lookup@;
        if flags[i] {
            lookup.push(Some(count));
            count = count + 1;
        } else {
            lookup.push(None);
        }
        proof {
            assert(lookup@.drop_last() =~= before);
            assert forall|b: int| 0 <= b < lookup@.len() implies ((
            #[trigger] lookup@[b]) matches Some(k) ==> k < needed(lookup@).len() && needed(
                lookup@,
            )[k as int] == b) by {
                if b < before.len() {
                    assert(lookup@[b] == before[b]);
                }
            }
        }
        i = i + 1;
    }
    lookup
}

/// The plan of a chain of operators on one table; none for other operators.
pub fn try_compile_scan_pipeline(op: &QueryOp, ctx: &DbContext) -> (r: Result<
    Option<ScanPipelinePlan>,
    DbError,
>)
    ensures
        match r {
            Ok(Some(plan)) => {
                &&& semantics::is_pipeline(op@)
                &&& pipeline_error(op@, ctx.tables()) is None
                &&& exists|table: int| plan.plans(op@, ctx.tables(), table)
                &&& plan.wf()
                &&& query_support::schema_of(op@, ctx.tables()) == Ok::<Seq<ColumnView>, DbError>(
                    plan.output(),
                )
                &&& forall|i: int|
                    (0 <= i < plan.output().len() && #[trigger] plan.ordered(i)) == output_ordered(
                        op@,
                        ctx.tables(),
                        i,
                    )
            },
            Ok(None) => !semantics::is_pipeline(op@),
            Err(e) => semantics::is_pipeline(op@) && pipeline_error(op@, ctx.tables()) == Some(e),
        },
{
    let logical = match compile_logical_scan_pipeline(op, ctx)? {
        Some(logical) => logical,
        None => {
            return Ok(None);
        },
    };
    let flags = mark_needed(&logical);
    let lookup = number_needed(&flags);
    let ghost required = needed(lookup@);
    let ghost width = logical.columns().len() as int;
    proof {
        lemma_needed(lookup@);
    }
    let mut output_columns: Vec<OutputColumnMeta> = Vec::with_capacity(
        logical.visible_columns.len(),
    );
    let mut columns: Vec<SchemaColumn> = Vec::with_capacity(logical.visible_columns.len());
    let mut i: usize = 0;
    while i < logical.visible_columns.len()
        invariant
            i <= logical.visible_columns@.len(),
            required == needed(lookup@),
            width == logical.columns().len(),
            lookup@.len() == width,
            lookup_ok(lookup@),
            indexes_below(logical.indexes(), width),
            flags@.len() == width,
            forall|b: int| 0 <= b < lookup@.len() ==> ((#[trigger] lookup@[b]) is Some
                <==> flags@[b]),
            forall|k: int|
                0 <= k < logical.indexes().len() ==> flags@[#[trigger] logical.indexes()[k]],
            output_columns@.len() == i,
            columns@.len() == i,
            forall|k: int|
                0 <= k < i ==> {
                    &&& (#[trigger] output_columns@[k]).required_index < required.len()
                    &&& required[output_columns@[k].required_index as int]
                        == output_columns@[k].base_index
                    &&& output_columns@[k].base_index == logical.indexes()[k]
                },
            forall|k: int|
                0 <= k < i ==> (#[trigger] columns@[k])@ == visible_views(
                    logical.visible_columns@,
                    logical.columns(),
                )[k],
        decreases logical.visible_columns@.len() - i,
    {
        let visible = &logical.visible_columns[i];
        let base_index: usize = visible.base_index;
        assert(logical.indexes()[i as int] == base_index);
        assert(flags@[logical.indexes()[i as int]]);
        match lookup[base_index] {
            Some(required_index) => {
                output_columns.push(
                    OutputColumnMeta { name: visible.name.clone(), base_index, required_index },
                );
            },
            None => {
                assert(false);
            },
        }
        columns.push(
            SchemaColumn {
                name: visible.name.clone(),
                data_type: logical.base_columns[base_index].data_type,
            },
        );
        i = i + 1;
    }
    let mut predicates: Vec<CompiledPredicate> = Vec::with_capacity(logical.predicates.len());
    let mut j: usize = 0;
    while j < logical.predicates.len()
        invariant
            j <= logical.predicates@.len(),
            required == needed(lookup@),
            width == logical.columns().len(),
            lookup@.len() == width,
            lookup_ok(lookup@),
            all_places_below(executor::compiled_views(logical.predicates@), width),
            flags@.len() == width,
            forall|b: int| 0 <= b < lookup@.len() ==> ((#[trigger] lookup@[b]) is Some
                <==> flags@[b]),
            forall|k: int|
                0 <= k < logical.predicates@.len() ==> {
                    &&& flags@[(#[trigger] logical.predicates@[k]).left_index as int]
                    &&& logical.predicates@[k].right matches PredicateOperand::Column(c)
                        ==> flags@[c as int]
                },
            predicates@.len() == j,
            forall|k: int|
                0 <= k < j ==> {
                    &&& lifted((#[trigger] predicates@[k])@, required) == logical.predicates@[k]@
                    &&& places_below(predicates@[k]@, required.len() as int)
                },
        decreases logical.predicates@.len() - j,
    {
        let p = &logical.predicates[j];
        assert(places_below(executor::compiled_views(logical.predicates@)[j as int], width));
        assert(flags@[logical.predicates@[j as int].left_index as int]);
        let left_index: usize = match lookup[p.left_index] {
            Some(k) => k,
            None => {
                assert(false);
                0
            },
        };
        let right = match &p.right {
            PredicateOperand::Column(c) => match lookup[*c] {
                Some(k) => PredicateOperand::Column(k),
                None => {
                    assert(false);
                    PredicateOperand::Column(0)
                },
            },
            PredicateOperand::Literal(v) => PredicateOperand::Literal(v.clone()),
        };
        predicates.push(CompiledPredicate { left_index, operator: p.operator, right });
        j = j + 1;
    }
    let ghost table = logical.table@;
    let plan = ScanPipelinePlan {
        file_id: logical.file_id,
        base_columns: logical.base_columns,
        required_lookup: lookup,
        output_columns,
        predicates,
        schema: Schema::from_columns(columns),
    };
    proof {
        assert(plan.schema@ =~= visible_views(logical.visible_columns@, logical.columns()));
        assert(plan.tests() =~= executor::compiled_views(logical.predicates@));
        assert(plan.picks() =~= logical.indexes());
        assert forall|k: int| 0 <= k < plan.predicates@.len() implies places_below(
            #[trigger] executor::compiled_views(plan.predicates@)[k],
            required.len() as int,
        ) by {
            assert(places_below(plan.predicates@[k]@, required.len() as int));
        }
        assert forall|k: int| 0 <= k < plan.output_columns@.len() implies (
        #[trigger] plan.schema@[k]).data_type
            == plan.base_columns@[plan.output_columns@[k].base_index as int].data_type by {
            assert(plan.output_columns@[k].base_index == logical.indexes()[k]);
        }
        assert(plan.wf());
        assert(plan.plans(op@, ctx.tables(), table));
        assert forall|i: int|
            (0 <= i < plan.output().len() && #[trigger] plan.ordered(i)) == output_ordered(
                op@,
                ctx.tables(),
                i,
            ) by {
            if 0 <= i < plan.output().len() {
                let b = plan.output_columns@[i].base_index as int;
                assert(plan.picks()[i] == b);
                assert(plan.base_columns@[b].physically_ordered == statistics::ordered_on_disk(
                    ctx.tables()[table].column_specs@[b].stats,
                ));
            }
        }
    }
    Ok(Some(plan))
}

/// Reads the row at the start of `buf`, of which only the columns that are
/// looked up are decoded, and tells how many bytes it takes.
fn decode_required(
    buf: &[u8],
    columns: &Vec<BaseColumnMeta>,
    lookup: &Vec<Option<usize>>,
    out: &mut Vec<Data>,
) -> (r: Result<usize, DbError>)
    requires
        old(out)@.len() == 0,
        lookup@.len() == columns@.len(),
    ensures
        match r {
            Ok(used) => {
                let types = row::types_of(base_views(columns@));
                &&& used <= buf@.len()
                &&& final(out)@.len() == needed(lookup@).len()
                &&& forall|k: int|
                    0 <= k < final(out)@.len() ==> {
                        &&& (#[trigger] final(out)@[k])@.data_type() == types[needed(lookup@)[k]]
                        &&& final(out)@[k]@.storable()
                    }
                &&& row_codec::decoded_row(buf@, types) matches Ok((row, n)) ==> {
                    &&& used == n
                    &&& data::views(final(out)@) == row::project_row(row, needed(lookup@))
                }
                &&& row_codec::picked_values(
                    buf@,
                    types,
                    needed(lookup@),
                    types.len() as int,
                ) matches Ok((values, n)) && n == used && data::views(final(out)@)
                    == row_codec::in_picked_order(values, needed(lookup@))
            },
            Err(e) => {
                &&& row_codec::decoded_row(buf@, row::types_of(base_views(columns@))) is Err
                &&& row_codec::is_format_error(e)
                &&& row_codec::picked_values(
                    buf@,
                    row::types_of(base_views(columns@)),
                    needed(lookup@),
                    columns@.len() as int,
                ) == Err::<(Seq<Option<DataValue>>, int), DbError>(e)
            },
        },
{
    let ghost types = row::types_of(base_views(columns@));
    let mut offset: usize = 0;
    let mut i: usize = 0;
    proof {
        assert(lookup@.take(0) =~= Seq::<Option<usize>>::empty());
        assert(data::views(out@) =~= row::project_row(Seq::<DataValue>::empty(), Seq::<int>::empty()));
        lemma_needed_picked(lookup@);
    }
    let ghost need = needed(lookup@);
    let ghost mut picked: Seq<Option<DataValue>> = Seq::empty();
    while i < columns.len()
        invariant
            i <= columns@.len(),
            lookup@.len() == columns@.len(),
            types == row::types_of(base_views(columns@)),
            offset <= buf@.len(),
            out@.len() == needed(lookup@.take(i as int)).len(),
            forall|k: int|
                0 <= k < out@.len() ==> {
                    &&& (#[trigger] out@[k])@.data_type() == types[needed(
                        lookup@.take(i as int),
                    )[k]]
                    &&& out@[k]@.storable()
                },
            row_codec::decoded_values(buf@, types, i as int) matches Ok((row, n)) ==> {
                &&& offset == n
                &&& row.len() == i
                &&& data::views(out@) == row::project_row(row, needed(lookup@.take(i as int)))
            },
            need == needed(lookup@),
            forall|c: int|
                0 <= c < lookup@.len() ==> ((#[trigger] lookup@[c]) is Some) == row_codec::is_picked(
                    need,
                    c,
                ),
            picked.len() == i,
            row_codec::picked_values(buf@, types, need, i as int) == Ok::<
                (Seq<Option<DataValue>>, int),
                DbError,
            >((picked, offset as int)),
            forall|k: int|
                0 <= k < out@.len() ==> picked[#[trigger] needed(lookup@.take(i as int))[k]]
                    == Some(out@[k]@),
        decreases columns@.len() - i,
    {
        let ghost before = out@;
        let ghost front = needed(lookup@.take(i as int));
        proof {
            assert(lookup@.take(i + 1).drop_last() =~= lookup@.take(i as int));
            assert(buf@.subrange(offset as int, buf@.len() as int) =~= buf@.skip(offset as int));
            row_codec::lemma_decoded(buf@.skip(offset as int), types[i as int]);
            row_codec::lemma_decoded_values_prefix(buf@, types, i as int, types.len() as int);
            row_codec::lemma_decoded_values_prefix(buf@, types, i + 1, types.len() as int);
            lemma_needed(lookup@.take(i as int));
        }
        let slice = part(buf, offset, buf.len());
        let data_type = columns[i].data_type;
        let ghost less_picked = picked;
        assert((lookup@[i as int] is Some) == row_codec::is_picked(need, i as int));
        if lookup[i].is_some() {
            match decode_value_from_bytes(slice, data_type) {
                Ok((value, used)) => {
                    proof {
                        picked = picked.push(Some(value@));
                    }
                    offset = offset + used;
                    out.push(value);
                },
                Err(e) => {
                    proof {
                        row_codec::lemma_picked_values_error(
                            buf@,
                            types,
                            need,
                            i + 1,
                            types.len() as int,
                        );
                    }
                    return Err(e);
                },
            }
        } else {
            match skip_value_from_bytes(slice, data_type) {
                Ok(used) => {
                    proof {
                        picked = picked.push(None);
                    }
                    offset = offset + used;
                },
                Err(e) => {
                    proof {
                        row_codec::lemma_picked_values_error(
                            buf@,
                            types,
                            need,
                            i + 1,
                            types.len() as int,
                        );
                    }
                    return Err(e);
                },
            }
        }
        proof {
            let now = needed(lookup@.take(i + 1));
            assert forall|k: int| 0 <= k < out@.len() implies picked[#[trigger] now[k]] == Some(
                out@[k]@,
            ) by {
                if k < front.len() {
                    assert(now[k] == front[k]);
                    assert(0 <= front[k] < i);
                    assert(less_picked[front[k]] == Some(before[k]@));
                    assert(out@[k] == before[k]);
                }
            }
            match row_codec::decoded_values(buf@, types, i + 1) {
                Ok((row, n)) => {
                    match row_codec::decoded_values(buf@, types, i as int) {
                        Ok((less, m)) => {
                            assert forall|k: int| 0 <= k < now.len() implies data::views(out@)[k]
                                == row::project_row(row, now)[k] by {
                                if k < front.len() {
                                    assert(now[k] == front[k]);
                                    assert(data::views(before)[k] == row::project_row(
                                        less,
                                        front,
                                    )[k]);
                                    assert(out@[k] == before[k]);
                                    assert(0 <= front[k] < i);
                                }
                            }
                            assert(data::views(out@) =~= row::project_row(row, now));
                        },
                        Err(_) => {},
                    }
                },
                Err(_) => {},
            }
        }
        i = i + 1;
    }
    assert(lookup@.take(i as int) =~= lookup@);
    assert(data::views(out@) =~= row_codec::in_picked_order(picked, need));
    Ok(offset)
}

/// A pass over a table.
pub struct ScanPipelineCursor {
    plan: ScanPipelinePlan,
    block_size: usize,
    start_block: u64,
    total_blocks: u64,
    batch_blocks: u64,
    next_block_offset: u64,
    batch_data: Vec<u8>,
    batch_block_count: usize,
    next_batch_block_index: usize,
    current_block_row_count: usize,
    current_block_row_index: usize,
    current_block_offset: usize,
    seen: Ghost<Seq<RowView>>,
}

/// The predicates say no to each of the first `k` rows.
pub open spec fn passed_over(rows: Seq<RowView>, k: int, tests: Seq<CompiledView>) -> bool {
    forall|j: int|
        0 <= j < k ==> semantics::predicates_result(#[trigger] rows[j], tests) == Ok::<
            bool,
            DbError,
        >(false)
}

/// What a pass comes to on the rows ahead of it, the first to which the
/// predicates do not say no: the values of that row, where they say yes; their
/// error; the end, where there is no such row.
pub open spec fn comes_to(
    ahead: Seq<RowView>,
    plan: ScanPipelinePlan,
    r: Result<Option<Row>, DbError>,
    after: Seq<RowView>,
) -> bool {
    let tests = plan.tests();
    match r {
        Ok(Some(row)) => exists|k: int|
            {
                &&& 0 <= k < ahead.len()
                &&& passed_over(ahead, k, tests)
                &&& semantics::predicates_result(#[trigger] ahead[k], tests) == Ok::<
                    bool,
                    DbError,
                >(true)
                &&& row@ == row::project_row(ahead[k], plan.picks())
                &&& after == ahead.skip(k + 1)
            },
        Ok(None) => passed_over(ahead, ahead.len() as int, tests),
        Err(e) => exists|k: int|
            {
                &&& 0 <= k < ahead.len()
                &&& passed_over(ahead, k, tests)
                &&& semantics::predicates_result(#[trigger] ahead[k], tests) == Err::<
                    bool,
                    DbError,
                >(e)
            },
    }
}

impl ScanPipelineCursor {
    /// The plan of the pass.
    pub closed spec fn plan(self) -> ScanPipelinePlan {
        self.plan
    }

    /// The rows of the table that were not looked at yet.
    pub closed spec fn ahead(self, layout: DiskLayout) -> Seq<RowView> {
        semantics::file_rows(
            layout.file_blocks(self.plan.file()),
            self.plan.types(),
        )->Ok_0.skip(self.seen@.len() as int)
    }

    /// The rows that were handed out.
    pub closed spec fn emitted(self) -> Seq<RowView> {
        pipeline_rows(self.seen@, self.plan.tests(), self.plan.picks())
    }

    /// A bound on the blocks that are still to be read.
    pub closed spec fn blocks_left(self) -> nat {
        (self.total_blocks - self.next_block_offset + self.batch_block_count
            - self.next_batch_block_index) as nat
    }

    /// The rows that are left in the block.
    pub closed spec fn rows_left(self) -> nat {
        (self.current_block_row_count - self.current_block_row_index) as nat
    }

    /// The number of blocks that were begun.
    spec fn begun(self) -> int {
        self.next_block_offset - self.batch_block_count + self.next_batch_block_index
    }

    /// The cursor can go on.
    pub closed spec fn wf(self) -> bool {
        &&& self.plan.wf()
        &&& 1 <= self.batch_blocks <= usize::MAX
        &&& self.block_size * self.batch_blocks <= usize::MAX
        &&& self.next_block_offset <= self.total_blocks
        &&& self.next_batch_block_index <= self.batch_block_count <= self.next_block_offset
        &&& self.batch_data@.len() == self.block_size * self.batch_block_count
        &&& self.current_block_row_index <= self.current_block_row_count
        &&& self.current_block_row_count > 0 ==> {
            &&& self.next_batch_block_index > 0
            &&& self.block_size >= 2
            &&& self.current_block_offset + 2 <= self.block_size
        }
    }

    /// The blocks that were read are those of the file.
    spec fn aligned(self, layout: DiskLayout) -> bool {
        let blocks = layout.file_blocks(self.plan.file());
        &&& self.block_size == layout.block_size
        &&& self.total_blocks == blocks.len()
        &&& self.start_block == layout.files[self.plan.file()].0
        &&& forall|j: int|
            0 <= j < self.batch_block_count ==> #[trigger] disk_client::chunk(
                self.batch_data@,
                self.block_size as int,
                j,
            ) == blocks[self.next_block_offset - self.batch_block_count + j]
    }

    /// The values of the columns that are read could be read so far.
    pub closed spec fn reading(self, layout: DiskLayout) -> bool {
        let blocks = layout.file_blocks(self.plan.file());
        let types = self.plan.types();
        let columns = self.plan.required();
        &&& self.aligned(layout)
        &&& forall|b: int|
            0 <= b < self.begun() - 1 ==> row_codec::picked_block_rows(
                #[trigger] blocks[b],
                types,
                columns,
            ) is Ok
        &&& if self.begun() == 0 {
            self.current_block_row_count == 0
        } else {
            let block = blocks[self.begun() - 1];
            &&& block.len() >= 2
            &&& self.current_block_row_count == row_codec::row_count(block)
            &&& row_codec::picked_rows(
                row_codec::payload(block),
                types,
                columns,
                self.current_block_row_index as int,
            ) matches Ok((_, used)) && used == self.current_block_offset
        }
    }

    /// What was read is what the file holds.
    pub closed spec fn in_step(self, layout: DiskLayout) -> bool {
        let blocks = layout.file_blocks(self.plan.file());
        let types = self.plan.types();
        &&& self.aligned(layout)
        &&& if self.begun() == 0 {
            self.seen@ == Seq::<RowView>::empty() && self.current_block_row_count == 0
        } else {
            let block = blocks[self.begun() - 1];
            &&& self.current_block_row_count == row_codec::row_count(block)
            &&& semantics::file_rows(blocks.take(self.begun() - 1), types) matches Ok(front)
            &&& row_codec::decoded_rows(
                row_codec::payload(block),
                types,
                self.current_block_row_index as int,
            ) matches Ok((rows, used))
            &&& self.seen@ == front + rows
            &&& self.current_block_offset == used
        }
    }

    /// The rows that were seen are the first of the file.
    proof fn lemma_seen(self, layout: DiskLayout) -> (rest: Seq<RowView>)
        requires
            self.in_step(layout),
            self.plan.file_ok(layout),
            0 <= self.begun() <= self.total_blocks,
            self.current_block_row_index <= self.current_block_row_count,
        ensures
            semantics::file_rows(
                layout.file_blocks(self.plan.file()),
                self.plan.types(),
            )->Ok_0 == self.seen@ + rest,
    {
        let blocks = layout.file_blocks(self.plan.file());
        let types = self.plan.types();
        let all = semantics::file_rows(blocks, types)->Ok_0;
        let b = self.begun();
        let seen = self.seen@;
        if b == 0 {
            assert(all =~= seen + all);
            all
        } else {
            lemma_file_rows_prefix(blocks, types, b);
            lemma_file_rows_step(blocks, types, b);
            let block = blocks[b - 1];
            let rows = row_codec::block_rows(block, types)->Ok_0;
            let i = self.current_block_row_index as int;
            row_codec::lemma_decoded_rows_prefix(
                row_codec::payload(block),
                types,
                i,
                row_codec::row_count(block) as int,
            );
            row_codec::lemma_decoded_rows(
                row_codec::payload(block),
                types,
                row_codec::row_count(block) as int,
            );
            let more = lemma_file_rows_more(blocks, types, b);
            assert(all =~= seen + (rows.skip(i) + more));
            rows.skip(i) + more
        }
    }

    /// The rows that were handed out are the first of those that the plan makes.
    pub proof fn lemma_prefix(self, layout: DiskLayout)
        requires
            self.wf(),
            self.in_step(layout),
            self.plan().file_ok(layout),
        ensures
            self.emitted().len() <= self.plan().rows(layout).len(),
            self.emitted() == self.plan().rows(layout).take(self.emitted().len() as int),
    {
        let blocks = layout.file_blocks(self.plan.file());
        let types = self.plan.types();
        let all = semantics::file_rows(blocks, types)->Ok_0;
        let seen = self.seen@;
        let rest = self.lemma_seen(layout);
        semantics::lemma_filter_concat(seen, rest, self.plan.tests());
        let a = semantics::filter_rows(seen, self.plan.tests());
        let c = semantics::filter_rows(rest, self.plan.tests());
        assert(semantics::project_rows(a, self.plan.picks()) =~= semantics::project_rows(
            a + c,
            self.plan.picks(),
        ).take(a.len() as int));
    }

    /// The start of a pass.
    pub fn new<R: Input, W: Output>(
        plan: ScanPipelinePlan,
        disk: &mut DiskClient<R, W>,
        memory_limit: usize,
    ) -> (r: Result<ScanPipelineCursor, DbError>)
        requires
            plan.wf(),
        ensures
            final(disk).unwritten_since(*old(disk)),
            r matches Ok(cursor) ==> {
                &&& cursor.plan() == plan
                &&& cursor.wf()
                &&& cursor.emitted() == Seq::<RowView>::empty()
                &&& final(disk).honest() ==> cursor.in_step(final(disk).layout())
                &&& final(disk).honest() ==> cursor.reading(final(disk).layout())
                &&& cursor.ahead(final(disk).layout()) == semantics::file_rows(
                    final(disk).layout().file_blocks(plan.file()),
                    plan.types(),
                )->Ok_0
            },
            r is Err ==> !final(disk).honest() || final(disk).layout().block_size > usize::MAX,
            !(r matches Err(DbError::BudgetExceeded)),
    {
        let size: u64 = disk.get_block_size()?;
        let start_block: u64 = disk.get_file_start_block(plan.file_id.as_str())?;
        let total_blocks: u64 = disk.get_file_num_blocks(plan.file_id.as_str())?;
        if size > usize::MAX as u64 {
            return Err(DbError::TransferSize);
        }
        let block_size: usize = size as usize;
        let batch_blocks: u64 = scan_batch_blocks(
            block_size,
            memory_limit,
            STREAM_SCAN_MIN_BATCH_BLOCKS,
            STREAM_SCAN_MAX_BATCH_BLOCKS,
        );
        let cursor = ScanPipelineCursor {
            plan,
            block_size,
            start_block,
            total_blocks,
            batch_blocks,
            next_block_offset: 0,
            batch_data: Vec::new(),
            batch_block_count: 0,
            next_batch_block_index: 0,
            current_block_row_count: 0,
            current_block_row_index: 0,
            current_block_offset: 0,
            seen: Ghost(Seq::empty()),
        };
        proof {
            assert(block_size * 0 == 0);
            assert(cursor.emitted() =~= Seq::<RowView>::empty());
            let all = semantics::file_rows(
                disk.layout().file_blocks(cursor.plan.file()),
                cursor.plan.types(),
            )->Ok_0;
            assert(all.skip(0) =~= all);
        }
        Ok(cursor)
    }

    /// The next row of the result, if there is one: that of the first row ahead
    /// to which the predicates do not say no.
    pub fn next_row<R: Input, W: Output>(&mut self, disk: &mut DiskClient<R, W>) -> (r: Result<
        Option<Row>,
        DbError,
    >)
        requires
            old(self).wf(),
        ensures
            final(disk).unwritten_since(*old(disk)),
            final(self).plan() == old(self).plan(),
            r is Ok ==> final(self).wf(),
            r matches Ok(Some(row)) ==> {
                &&& data::conforms(row@, row::types_of(old(self).plan().output()))
                &&& final(self).blocks_left() < old(self).blocks_left() || (final(
                    self).blocks_left() == old(self).blocks_left() && final(self).rows_left()
                    < old(self).rows_left())
                &&& final(disk).honest() && old(self).in_step(old(disk).layout()) && old(
                    self).plan().file_ok(old(disk).layout()) ==> {
                    &&& final(self).in_step(old(disk).layout())
                    &&& final(self).emitted() == old(self).emitted().push(row@)
                }
            },
            r matches Ok(None) ==> (final(disk).honest() && old(self).in_step(old(disk).layout())
                && old(self).plan().file_ok(old(disk).layout()) ==> old(self).emitted() == old(
                self).plan().rows(old(disk).layout())),
            r matches Err(e) ==> (final(disk).honest() && old(self).in_step(old(disk).layout())
                && old(self).plan().file_ok(old(disk).layout()) ==> old(self).plan().stops(
                old(disk).layout(),
                e,
            )),
            final(disk).honest() && old(self).in_step(old(disk).layout()) && old(
                self).plan().file_ok(old(disk).layout()) ==> comes_to(
                old(self).ahead(old(disk).layout()),
                old(self).plan(),
                r,
                final(self).ahead(old(disk).layout()),
            ),
            final(disk).honest() && old(self).reading(old(disk).layout()) && old(
                self).plan().below(old(disk).layout()) ==> {
                &&& r matches Ok(Some(_)) ==> final(self).reading(old(disk).layout())
                &&& r matches Ok(None) ==> old(self).plan().legible(old(disk).layout())
            },
            !(r matches Err(DbError::BudgetExceeded)),
    {
        let ghost layout = disk.layout();
        let ghost start = *disk;
        let ghost plan = self.plan;
        let ghost emitted = self.emitted();
        let ghost ahead = self.ahead(layout);
        let ghost from = self.seen@.len() as int;
        let ghost all = semantics::file_rows(
            layout.file_blocks(plan.file()),
            plan.types(),
        )->Ok_0;
        let ghost good = self.in_step(layout) && plan.file_ok(layout);
        let ghost fine = self.reading(layout) && plan.below(layout);
        let ghost (blocks0, rows0) = (self.blocks_left(), self.rows_left());
        loop
            invariant
                self.wf(),
                plan.wf(),
                self.plan == plan,
                start == *old(disk),
                layout == start.layout(),
                disk.unwritten_since(start),
                plan == old(self).plan(),
                emitted == old(self).emitted(),
                good == (old(self).in_step(layout) && plan.file_ok(layout)),
                blocks0 == old(self).blocks_left(),
                rows0 == old(self).rows_left(),
                self.blocks_left() < blocks0 || (self.blocks_left() == blocks0
                    && self.rows_left() <= rows0),
                disk.honest() && good ==> self.in_step(layout) && plan.file_ok(layout)
                    && self.emitted() == emitted,
                fine == (old(self).reading(layout) && plan.below(layout)),
                disk.honest() && fine ==> self.reading(layout),
                ahead == old(self).ahead(layout),
                from == old(self).seen@.len(),
                all == semantics::file_rows(layout.file_blocks(plan.file()), plan.types())->Ok_0,
                ahead == all.skip(from),
                disk.honest() && good ==> from <= self.seen@.len() && passed_over(
                    ahead,
                    self.seen@.len() - from,
                    plan.tests(),
                ),
            decreases self.blocks_left(), self.rows_left(),
        {
            if self.current_block_row_index >= self.current_block_row_count {
                let ghost before = *self;
                if !self.advance_block(disk)? {
                    return Ok(None);
                }
                if self.current_block_row_count == 0 {
                    continue;
                }
            }
            proof {
                if disk.honest() && good {
                    self.lemma_current(layout);
                }
            }
            let ghost k = self.seen@.len() - from;
            assert(disk.honest() && good ==> ahead[k] == all[from + k]);
            let row = self.decode_current_row()?;
            assert(disk.honest() && good ==> self.in_step(layout));
            assert(disk.honest() && fine ==> self.reading(layout));
            proof {
                if disk.honest() && good {
                    assert(self.seen@.len() == from + k + 1);
                    assert(all.skip(from + k + 1) =~= ahead.skip(k + 1));
                }
            }
            if let Some(row) = row {
                return Ok(Some(row));
            }
        }
    }

    #[verifier::rlimit(60)]
    fn advance_block<R: Input, W: Output>(&mut self, disk: &mut DiskClient<R, W>) -> (r: Result<
        bool,
        DbError,
    >)
        requires
            old(self).wf(),
            old(self).current_block_row_index == old(self).current_block_row_count,
        ensures
            final(disk).unwritten_since(*old(disk)),
            final(self).plan == old(self).plan,
            r is Ok ==> final(self).wf(),
            r matches Ok(true) ==> {
                &&& final(self).blocks_left() < old(self).blocks_left()
                &&& final(self).current_block_row_index == 0
                &&& final(disk).honest() && old(self).in_step(old(disk).layout()) && old(
                    self).plan.file_ok(old(disk).layout()) ==> {
                    &&& final(self).in_step(old(disk).layout())
                    &&& final(self).seen@ == old(self).seen@
                }
            },
            r matches Ok(false) ==> (final(disk).honest() && old(self).in_step(old(disk).layout())
                && old(self).plan.file_ok(old(disk).layout()) ==> semantics::file_rows(
                old(disk).layout().file_blocks(old(self).plan.file()),
                old(self).plan.types(),
            ) == Ok::<Seq<RowView>, DbError>(old(self).seen@)),
            final(disk).honest() && old(self).reading(old(disk).layout()) && old(
                self).plan.below(old(disk).layout()) ==> {
                &&& r matches Ok(true) ==> final(self).reading(old(disk).layout())
                &&& r matches Ok(false) ==> old(self).plan.legible(old(disk).layout())
            },
            r is Err ==> !(final(disk).honest() && old(self).in_step(old(disk).layout()) && old(
                self).plan.file_ok(old(disk).layout())),
            !(r matches Err(DbError::BudgetExceeded)),
    {
        let ghost layout = disk.layout();
        let ghost blocks = layout.file_blocks(self.plan.file());
        let ghost types = self.plan.types();
        let ghost begun = self.begun();
        let ghost done = *self;
        proof {
            if self.reading(layout) {
                lemma_needed(self.plan.required_lookup@);
                assert forall|b: int| 0 <= b < begun implies row_codec::picked_block_rows(
                    #[trigger] blocks[b],
                    types,
                    self.plan.required(),
                ) is Ok by {
                    assert forall|p: int| 0 <= p < self.plan.required().len() implies 0
                        <= #[trigger] self.plan.required()[p] < types.len() by {}
                }
            }
            if self.in_step(layout) && self.plan.file_ok(layout) {
                lemma_file_rows_step(blocks, types, begun);
                if begun > 0 {
                    lemma_file_rows_prefix(blocks, types, begun);
                }
                if begun == 0 {
                    assert(blocks.take(0) =~= Seq::<Seq<u8>>::empty());
                }
            }
        }
        if self.next_batch_block_index >= self.batch_block_count {
            if !self.load_next_batch(disk)? {
                proof {
                    if self.in_step(layout) && self.plan.file_ok(layout) {
                        assert(blocks.take(blocks.len() as int) =~= blocks);
                    }
                }
                return Ok(false);
            }
        }
        let ghost middle = *self;
        let index: usize = self.next_batch_block_index;
        let total: usize = self.batch_data.len();
        proof {
            disk_client::lemma_chunk(
                self.batch_data@,
                self.block_size as int,
                self.batch_block_count as int,
                index as int,
            );
        }
        let start: usize = index * self.block_size;
        let block = part(self.batch_data.as_slice(), start, start + self.block_size);
        assert(block@ == disk_client::chunk(
            self.batch_data@,
            self.block_size as int,
            index as int,
        ));
        proof {
            if disk.honest() && done.in_step(layout) && self.plan.file_ok(layout) {
                assert(middle.begun() == begun);
                assert(block@ == blocks[begun]);
                lemma_file_rows_prefix(blocks, types, begun + 1);
                lemma_file_rows_step(blocks, types, begun + 1);
                assert(row_codec::block_rows(block@, types) is Ok);
            }
        }
        if block.len() < 2 {
            return Err(DbError::BlockTooShort);
        }
        let count: usize = row_codec::stored_row_count(block);
        self.next_batch_block_index = index + 1;
        self.current_block_row_count = count;
        self.current_block_row_index = 0;
        self.current_block_offset = 0;
        proof {
            if disk.honest() && middle.in_step(layout) && self.plan.file_ok(layout) {
                assert(self.begun() == begun + 1);
                assert(block@ == blocks[begun]);
                lemma_file_rows_prefix(blocks, types, begun);
                assert(self.seen@ + Seq::<RowView>::empty() =~= self.seen@);
            }
        }
        Ok(true)
    }

    fn load_next_batch<R: Input, W: Output>(&mut self, disk: &mut DiskClient<R, W>) -> (r: Result<
        bool,
        DbError,
    >)
        requires
            old(self).wf(),
            old(self).next_batch_block_index == old(self).batch_block_count,
            old(self).current_block_row_index == old(self).current_block_row_count,
        ensures
            final(disk).unwritten_since(*old(disk)),
            final(self).plan == old(self).plan,
            r matches Ok(false) ==> *final(self) == *old(self) && old(self).next_block_offset
                == old(self).total_blocks,
            r matches Ok(true) ==> {
                &&& final(self).plan == old(self).plan
                &&& final(self).block_size == old(self).block_size
                &&& final(self).seen == old(self).seen
                &&& final(self).total_blocks == old(self).total_blocks
                &&& final(self).start_block == old(self).start_block
                &&& final(self).batch_blocks == old(self).batch_blocks
                &&& final(self).next_batch_block_index == 0
                &&& final(self).batch_block_count > 0
                &&& final(self).batch_block_count <= final(self).next_block_offset
                    <= final(self).total_blocks
                &&& final(self).next_block_offset - final(self).batch_block_count == old(
                    self).next_block_offset
                &&& final(self).batch_data@.len() == final(self).block_size * final(
                    self).batch_block_count
                &&& final(disk).honest() && old(self).aligned(old(disk).layout()) && old(
                    self).plan.below(old(disk).layout()) ==> {
                    let layout = old(disk).layout();
                    let blocks = layout.file_blocks(old(self).plan.file());
                    forall|j: int|
                        0 <= j < final(self).batch_block_count ==> #[trigger] disk_client::chunk(
                            final(self).batch_data@,
                            final(self).block_size as int,
                            j,
                        ) == blocks[old(self).next_block_offset + j]
                }
            },
            r is Err ==> !(final(disk).honest() && old(self).aligned(old(disk).layout()) && old(
                self).plan.below(old(disk).layout())),
            !(r matches Err(DbError::BudgetExceeded)),
    {
        if self.next_block_offset >= self.total_blocks {
            return Ok(false);
        }
        let left: u64 = self.total_blocks - self.next_block_offset;
        let batch: u64 = if left < self.batch_blocks {
            left
        } else {
            self.batch_blocks
        };
        if self.start_block > u64::MAX - self.next_block_offset || batch > usize::MAX as u64 {
            return Err(DbError::OutOfBlocks);
        }
        let first: u64 = self.start_block + self.next_block_offset;
        let size: u64 = disk.get_block_size()?;
        proof {
            assert(self.block_size * batch <= self.block_size * self.batch_blocks)
                by (nonlinear_arith)
                requires
                    batch <= self.batch_blocks,
                    0 <= self.block_size,
            ;
        }
        let data = disk.read_blocks(first, batch)?;
        if size != self.block_size as u64 {
            return Err(DbError::TransferSize);
        }
        let ghost before = *self;
        self.batch_data = data;
        self.batch_block_count = batch as usize;
        self.next_batch_block_index = 0;
        self.next_block_offset = self.next_block_offset + batch;
        proof {
            let layout = disk.layout();
            if disk.honest() && before.aligned(layout) && before.plan.below(layout) {
                let blocks = layout.file_blocks(before.plan.file());
                assert forall|j: int|
                    0 <= j < self.batch_block_count implies #[trigger] disk_client::chunk(
                    self.batch_data@,
                    self.block_size as int,
                    j,
                ) == blocks[before.next_block_offset + j] by {
                    assert(disk_client::chunk(data@, size as int, j) == disk.content(first + j));
                    assert(first + j < layout.anon_start);
                    assert(layout.base[first + j] == blocks[before.next_block_offset + j]);
                }
            }
        }
        Ok(true)
    }

    /// The bytes of the block from the current row on.
    spec fn current_slice(self) -> Seq<u8> {
        row_codec::payload(
            disk_client::chunk(
                self.batch_data@,
                self.block_size as int,
                self.next_batch_block_index - 1,
            ),
        ).skip(self.current_block_offset as int)
    }

    /// What becomes of the current row of the table, and the bytes that it
    /// takes.
    fn read_current_row(&self) -> (r: Result<(Option<Row>, usize), DbError>)
        requires
            self.wf(),
            self.current_block_row_index < self.current_block_row_count,
        ensures
            match row_codec::picked_values(
                self.current_slice(),
                self.plan.types(),
                self.plan.required(),
                self.plan.types().len() as int,
            ) {
                Ok((values, n)) => {
                    let ps = executor::compiled_views(self.plan.predicates@);
                    let needs = row_codec::in_picked_order(values, self.plan.required());
                    match semantics::predicates_result(needs, ps) {
                        Ok(yes) => r matches Ok((out, used)) && used == n && out is Some == yes,
                        Err(e) => r == Err::<(Option<Row>, usize), DbError>(e),
                    }
                },
                Err(e) => r == Err::<(Option<Row>, usize), DbError>(e),
            },
            match r {
                Ok((out, used)) => {
                    &&& self.current_block_offset + used + 2 <= self.block_size
                    &&& out matches Some(row) ==> data::conforms(
                        row@,
                        row::types_of(self.plan.output()),
                    )
                    &&& row_codec::decoded_row(self.current_slice(), self.plan.types()) matches Ok(
                        (full, n),
                    ) ==> {
                        &&& used == n
                        &&& out is Some <==> semantics::holds(
                            row::project_row(full, self.plan.required()),
                            executor::compiled_views(self.plan.predicates@),
                        )
                        &&& out matches Some(row) ==> row@ == row::project_row(
                            full,
                            self.plan.picks(),
                        )
                        &&& semantics::predicates_result(full, self.plan.tests()) == Ok::<
                            bool,
                            DbError,
                        >(out is Some)
                    }
                },
                Err(e) => {
                    &&& e != DbError::BudgetExceeded
                    &&& row_codec::decoded_row(self.current_slice(), self.plan.types()) matches Ok(
                        (full, _),
                    ) ==> semantics::predicates_result(full, self.plan.tests()) == Err::<
                        bool,
                        DbError,
                    >(e)
                },
            },
    {
        let index: usize = self.next_batch_block_index - 1;
        let total: usize = self.batch_data.len();
        proof {
            disk_client::lemma_chunk(
                self.batch_data@,
                self.block_size as int,
                self.batch_block_count as int,
                index as int,
            );
        }
        let start: usize = index * self.block_size;
        let from: usize = start + self.current_block_offset;
        let to: usize = start + (self.block_size - 2);
        let slice = part(self.batch_data.as_slice(), from, to);
        assert(slice@ =~= self.current_slice());
        let mut values: Vec<Data> = Vec::with_capacity(self.plan.output_columns.len());
        let used: usize = decode_required(
            slice,
            &self.plan.base_columns,
            &self.plan.required_lookup,
            &mut values,
        )?;
        let ghost compact = data::views(values@);
        let decoded = Row::new(values);
        proof {
            match row_codec::decoded_row(self.current_slice(), self.plan.types()) {
                Ok((full, _)) => {
                    row_codec::lemma_decoded_values(
                        slice@,
                        self.plan.types(),
                        self.plan.types().len() as int,
                    );
                    lemma_needed(self.plan.required_lookup@);
                    lemma_lifted_result(
                        full,
                        self.plan.required(),
                        executor::compiled_views(self.plan.predicates@),
                    );
                },
                Err(_) => {},
            }
        }
        let keep: bool = executor::row_satisfies_predicates(&decoded, &self.plan.predicates)?;
        if !keep {
            return Ok((None, used));
        }
        let row = pick_values(&decoded, &self.plan.output_columns);
        proof {
            self.plan.lemma_picked(compact, row@);
            match row_codec::decoded_row(self.current_slice(), self.plan.types()) {
                Ok((full, n)) => {
                    self.plan.lemma_picked_from(full, row@);
                },
                Err(_) => {},
            }
        }
        Ok((Some(row), used))
    }

    /// Of two states of a pass: the second has seen one row of the table more,
    /// of which `out` became.
    spec fn stepped(self, before: ScanPipelineCursor, out: Option<Row>) -> bool {
        forall|layout: DiskLayout|
            #![trigger self.in_step(layout)]
            before.in_step(layout) && before.plan.file_ok(layout) ==> {
                &&& self.in_step(layout)
                &&& self.emitted() == match out {
                    Some(row) => before.emitted().push(row@),
                    None => before.emitted(),
                }
            }
    }

    fn decode_current_row(&mut self) -> (r: Result<Option<Row>, DbError>)
        requires
            old(self).wf(),
            old(self).current_block_row_index < old(self).current_block_row_count,
        ensures
            final(self).plan == old(self).plan,
            r is Ok ==> {
                &&& final(self).wf()
                &&& final(self).blocks_left() == old(self).blocks_left()
                &&& final(self).rows_left() < old(self).rows_left()
            },
            r matches Ok(out) ==> {
                &&& out matches Some(row) ==> data::conforms(
                    row@,
                    row::types_of(old(self).plan.output()),
                )
                &&& final(self).stepped(*old(self), out)
                &&& forall|layout: DiskLayout|
                    old(self).reading(layout) ==> #[trigger] final(self).reading(layout)
                &&& row_codec::decoded_row(
                    old(self).current_slice(),
                    old(self).plan.types(),
                ) matches Ok((full, _)) ==> {
                    &&& final(self).seen@ == old(self).seen@.push(full)
                    &&& semantics::predicates_result(full, old(self).plan.tests()) == Ok::<
                        bool,
                        DbError,
                    >(out is Some)
                    &&& out matches Some(row) ==> row@ == row::project_row(
                        full,
                        old(self).plan.picks(),
                    )
                }
            },
            r matches Err(e) ==> (row_codec::decoded_row(
                old(self).current_slice(),
                old(self).plan.types(),
            ) matches Ok((full, _)) ==> semantics::predicates_result(
                full,
                old(self).plan.tests(),
            ) == Err::<bool, DbError>(e)),
            !(r matches Err(DbError::BudgetExceeded)),
    {
        let (out, used) = self.read_current_row()?;
        let ghost slice = self.current_slice();
        let ghost before = *self;
        self.current_block_offset = self.current_block_offset + used;
        self.current_block_row_index = self.current_block_row_index + 1;
        proof {
            self.seen@ = self.seen@.push(
                row_codec::decoded_row(slice, self.plan.types())->Ok_0.0,
            );
            assert forall|layout: DiskLayout|
                #![trigger self.in_step(layout)]
                before.in_step(layout) && before.plan.file_ok(layout) implies {
                &&& self.in_step(layout)
                &&& self.emitted() == match out {
                    Some(row) => before.emitted().push(row@),
                    None => before.emitted(),
                }
            } by {
                self.lemma_step(before, layout);
            }
            assert forall|layout: DiskLayout| before.reading(layout) implies #[trigger] self.reading(
                layout,
            ) by {
                disk_client::lemma_chunk(
                    before.batch_data@,
                    before.block_size as int,
                    before.batch_block_count as int,
                    before.next_batch_block_index - 1,
                );
                let blocks = layout.file_blocks(self.plan.file());
                let block = disk_client::chunk(
                    before.batch_data@,
                    before.block_size as int,
                    before.next_batch_block_index - 1,
                );
                assert(block == blocks[before.begun() - 1]);
                assert(self.begun() == before.begun());
            }
        }
        Ok(out)
    }

    /// The current row of a file that holds rows can be read.
    proof fn lemma_current(self, layout: DiskLayout)
        requires
            self.wf(),
            self.in_step(layout),
            self.plan.file_ok(layout),
            self.current_block_row_index < self.current_block_row_count,
        ensures
            row_codec::decoded_row(self.current_slice(), self.plan.types()) is Ok,
            self.seen@.len() < semantics::file_rows(
                layout.file_blocks(self.plan.file()),
                self.plan.types(),
            )->Ok_0.len(),
            row_codec::decoded_row(self.current_slice(), self.plan.types())->Ok_0.0
                == semantics::file_rows(
                layout.file_blocks(self.plan.file()),
                self.plan.types(),
            )->Ok_0[self.seen@.len() as int],
    {
        let types = self.plan.types();
        let row = row_codec::decoded_row(self.current_slice(), types);
        row_codec::lemma_decoded_values(self.current_slice(), types, types.len() as int);
        disk_client::lemma_chunk(
            self.batch_data@,
            self.block_size as int,
            self.batch_block_count as int,
            self.next_batch_block_index - 1,
        );
        let next = ScanPipelineCursor {
            current_block_row_index: (self.current_block_row_index + 1) as usize,
            current_block_offset: (self.current_block_offset + row->Ok_0.1) as usize,
            seen: Ghost(self.seen@.push(row->Ok_0.0)),
            ..self
        };
        next.lemma_step(self, layout);
        let rest = next.lemma_seen(layout);
        assert((next.seen@ + rest)[self.seen@.len() as int] == row->Ok_0.0);
    }

    proof fn lemma_step(self, before: ScanPipelineCursor, layout: DiskLayout)
        requires
            before.wf(),
            before.in_step(layout),
            before.plan.file_ok(layout),
            before.current_block_row_index < before.current_block_row_count,
            self.plan == before.plan,
            self.block_size == before.block_size,
            self.start_block == before.start_block,
            self.total_blocks == before.total_blocks,
            self.next_block_offset == before.next_block_offset,
            self.batch_data == before.batch_data,
            self.batch_block_count == before.batch_block_count,
            self.next_batch_block_index == before.next_batch_block_index,
            self.current_block_row_count == before.current_block_row_count,
            self.current_block_row_index == before.current_block_row_index + 1,
            row_codec::decoded_row(before.current_slice(), self.plan.types()) matches Ok((row, n))
                ==> self.current_block_offset == before.current_block_offset + n,
            self.seen@ == before.seen@.push(
                row_codec::decoded_row(before.current_slice(), self.plan.types())->Ok_0.0,
            ),
        ensures
            row_codec::decoded_row(before.current_slice(), self.plan.types()) is Ok,
            data::conforms(
                row_codec::decoded_row(before.current_slice(), self.plan.types())->Ok_0.0,
                self.plan.types(),
            ),
            self.in_step(layout),
            self.emitted() == if semantics::holds(
                row::project_row(
                    row_codec::decoded_row(before.current_slice(), self.plan.types())->Ok_0.0,
                    self.plan.required(),
                ),
                executor::compiled_views(self.plan.predicates@),
            ) {
                before.emitted().push(
                    row::project_row(
                        row_codec::decoded_row(before.current_slice(), self.plan.types())->Ok_0.0,
                        self.plan.picks(),
                    ),
                )
            } else {
                before.emitted()
            },
    {
        let blocks = layout.file_blocks(self.plan.file());
        let types = self.plan.types();
        let begun = self.begun();
        let slice = before.current_slice();
        let block = disk_client::chunk(
            before.batch_data@,
            before.block_size as int,
            before.next_batch_block_index - 1,
        );
        let i = before.current_block_row_index as int;
        let count = before.current_block_row_count as int;
        assert(block == blocks[begun - 1]);
        lemma_file_rows_prefix(blocks, types, begun);
        lemma_file_rows_step(blocks, types, begun);
        let data = row_codec::payload(block);
        row_codec::lemma_decoded_rows_prefix(data, types, i + 1, count);
        row_codec::lemma_decoded_rows(data, types, i);
        row_codec::lemma_decoded_values(slice, types, types.len() as int);
        assert(types.take(types.len() as int) =~= types);
        let (rows, used) = row_codec::decoded_rows(data, types, i)->Ok_0;
        let front = semantics::file_rows(blocks.take(begun - 1), types)->Ok_0;
        let full = row_codec::decoded_row(slice, types)->Ok_0.0;
        assert((front + rows).push(full) =~= front + rows.push(full));
        lemma_needed(self.plan.required_lookup@);
        lemma_pipeline_push(
            before.seen@,
            full,
            executor::compiled_views(self.plan.predicates@),
            self.plan.required(),
            self.plan.picks(),
        );
    }
}

/// One row more of the table, of which the needed columns were tested.
proof fn lemma_pipeline_push(
    seen: Seq<RowView>,
    full: RowView,
    ps: Seq<CompiledView>,
    needs: Seq<int>,
    picks: Seq<int>,
)
    requires
        indexes_below(needs, full.len() as int),
        all_places_below(ps, needs.len() as int),
    ensures
        pipeline_rows(seen.push(full), lifted_all(ps, needs), picks) == if semantics::holds(
            row::project_row(full, needs),
            ps,
        ) {
            pipeline_rows(seen, lifted_all(ps, needs), picks).push(row::project_row(full, picks))
        } else {
            pipeline_rows(seen, lifted_all(ps, needs), picks)
        },
{
    let tests = lifted_all(ps, needs);
    lemma_lifted_holds(full, needs, ps);
    semantics::lemma_filter_push(seen, full, tests);
    let kept = semantics::filter_rows(seen, tests);
    assert(semantics::project_rows(kept.push(full), picks) =~= semantics::project_rows(
        kept,
        picks,
    ).push(row::project_row(full, picks)));
}

/// The values of the columns of the result.
fn pick_values(decoded: &Row, output: &Vec<OutputColumnMeta>) -> (r: Row)
    requires
        forall|i: int|
            0 <= i < output@.len() ==> (#[trigger] output@[i]).required_index < decoded@.len(),
    ensures
        r@.len() == output@.len(),
        forall|i: int|
            0 <= i < r@.len() ==> #[trigger] r@[i] == decoded@[output@[i].required_index as int],
{
    let mut values: Vec<Data> = Vec::with_capacity(output.len());
    let mut i: usize = 0;
    while i < output.len()
        invariant
            i <= output@.len(),
            values@.len() == i,
            forall|k: int|
                0 <= k < output@.len() ==> (#[trigger] output@[k]).required_index < decoded@.len(),
            forall|k: int|
                0 <= k < i ==> (#[trigger] values@[k])@
                    == decoded@[output@[k].required_index as int],
        decreases output@.len() - i,
    {
        values.push(decoded.values()[output[i].required_index].clone());
        i = i + 1;
    }
    Row::new(values)
}

/// The rows of the first blocks of a file are read before those of the others.
pub proof fn lemma_file_rows_prefix(blocks: Seq<Seq<u8>>, types: Seq<DataType>, i: int)
    requires
        0 <= i <= blocks.len(),
        semantics::file_rows(blocks, types) is Ok,
    ensures
        semantics::file_rows(blocks.take(i), types) is Ok,
    decreases blocks.len() - i,
{
    if i == blocks.len() {
        assert(blocks.take(i) =~= blocks);
    } else {
        lemma_file_rows_prefix(blocks, types, i + 1);
        assert(blocks.take(i + 1).drop_last() =~= blocks.take(i));
    }
}

/// The rows of all blocks are those of the first and others behind them.
proof fn lemma_file_rows_more(blocks: Seq<Seq<u8>>, types: Seq<DataType>, i: int) -> (more: Seq<
    RowView,
>)
    requires
        0 <= i <= blocks.len(),
        semantics::file_rows(blocks, types) is Ok,
    ensures
        semantics::file_rows(blocks, types)->Ok_0 == semantics::file_rows(
            blocks.take(i),
            types,
        )->Ok_0 + more,
    decreases blocks.len() - i,
{
    let front = semantics::file_rows(blocks.take(i), types)->Ok_0;
    if i == blocks.len() {
        assert(blocks.take(i) =~= blocks);
        assert(front + Seq::<RowView>::empty() =~= front);
        Seq::empty()
    } else {
        lemma_file_rows_prefix(blocks, types, i + 1);
        lemma_file_rows_step(blocks, types, i + 1);
        let more = lemma_file_rows_more(blocks, types, i + 1);
        let rows = row_codec::block_rows(blocks[i], types)->Ok_0;
        assert(front + rows + more =~= front + (rows + more));
        rows + more
    }
}

/// The rows of one block more.
pub proof fn lemma_file_rows_step(blocks: Seq<Seq<u8>>, types: Seq<DataType>, i: int)
    requires
        0 <= i <= blocks.len(),
    ensures
        i > 0 ==> semantics::file_rows(blocks.take(i), types) == match semantics::file_rows(
            blocks.take(i - 1),
            types,
        ) {
            Err(e) => Err(e),
            Ok(front) => match row_codec::block_rows(blocks[i - 1], types) {
                Err(e) => Err(e),
                Ok(rows) => Ok::<Seq<RowView>, DbError>(front + rows),
            },
        },
{
    if i > 0 {
        assert(blocks.take(i).drop_last() =~= blocks.take(i - 1));
    }
}

} // verus!
