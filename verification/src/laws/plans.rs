//! What becomes of queries before they are run.

use vstd::prelude::*;

use crate::catalog::db_context;
use crate::catalog::statistics;
use crate::catalog::statistics::ColumnStat;
use crate::catalog::table::TableSpec;
use crate::data::DataValue;
use crate::error::DbError;
use crate::estimation;
use crate::executor::rewrite;
use crate::executor::value;
use crate::laws::answers;
use crate::laws::catalog;
use crate::laws::catalog::{first_named, means, of_values};
use crate::laws::values;
use crate::optimizer::duplicates;
use crate::optimizer::equivalence;
use crate::optimizer::laws;
use crate::optimizer::reading;
use crate::optimizer::rules;
use crate::query::{ComparisionOperator, OpView, PredicateView, SortSpecView};
use crate::query_support;
use crate::row;
use crate::semantics;
use crate::semantics::{Database, RowView};
use crate::storage::disk_client::DiskLayout;

verus! {

/// The column has no statistics but those of its values.
pub open spec fn no_mark(stats: Option<Vec<ColumnStat>>) -> bool {
    stats matches Some(list) ==> forall|i: int|
        0 <= i < list@.len() ==> of_values(#[trigger] list@[i])
}

/// One of the statistics of the column is the mark.
pub open spec fn has_mark(stats: Option<Vec<ColumnStat>>) -> bool {
    stats matches Some(list) && exists|i: int|
        0 <= i < list@.len() && (#[trigger] list@[i]) is IsPhysicallyOrdered
}

/// A column has the mark, or it has none but statistics of its values.
pub proof fn law_marks(stats: Option<Vec<ColumnStat>>)
    ensures
        has_mark(stats) <==> !no_mark(stats),
        has_mark(stats) <==> statistics::ordered_on_disk(stats),
{
    if let Some(list) = stats {
        if !no_mark(stats) {
            let i = choose|i: int| 0 <= i < list@.len() && !of_values(#[trigger] list@[i]);
            assert(list@[i] is IsPhysicallyOrdered);
        }
    }
}

/// No column of the tables has the mark.
pub open spec fn no_marks(tables: Seq<TableSpec>) -> bool {
    forall|t: int, c: int|
        0 <= t < tables.len() && 0 <= c < (#[trigger] tables[t]).column_specs@.len() ==> no_mark(
            (#[trigger] tables[t].column_specs@[c]).stats,
        )
}

/// A table can be relied on where its file lies below the scratch area, its blocks
/// hold rows, and the values of each column with the mark do not fall from one row
/// to a later one. Columns without the mark may be in any order.
pub proof fn law_tables_to_rely_on(table: TableSpec, layout: DiskLayout)
    ensures
        semantics::table_sound(table, layout) <==> {
            let (start, count) = layout.files[table.file_id@];
            &&& start + count <= layout.anon_start
            &&& semantics::file_rows(
                layout.file_blocks(table.file_id@),
                row::types_of(table.columns()),
            ) is Ok
            &&& forall|c: int, i: int, j: int|
                #![trigger table.column_specs@[c], semantics::table_rows(table, layout)[i],
                    semantics::table_rows(table, layout)[j]]
                0 <= c < table.column_specs@.len() && has_mark(table.column_specs@[c].stats) && 0
                    <= i < j < semantics::table_rows(table, layout).len() ==> values::answers(
                    semantics::table_rows(table, layout)[i][c],
                    ComparisionOperator::LTE,
                    semantics::table_rows(table, layout)[j][c],
                    true,
                )
        },
{
    let rows = semantics::table_rows(table, layout);
    assert forall|a: DataValue, b: DataValue| #[trigger]
        value::at_most(a, b) == values::answers(a, ComparisionOperator::LTE, b, true) by {
        values::law_operators_agree(a, b);
    }
    assert forall|c: int| 0 <= c < table.column_specs@.len() implies (has_mark(
        (#[trigger] table.column_specs@[c]).stats,
    ) <==> statistics::ordered_on_disk(table.column_specs@[c].stats)) by {
        law_marks(table.column_specs@[c].stats);
    }
    if semantics::table_sound(table, layout) {
        assert forall|c: int, i: int, j: int|
            #![trigger table.column_specs@[c], rows[i], rows[j]]
            0 <= c < table.column_specs@.len() && has_mark(table.column_specs@[c].stats) && 0 <= i
                < j < rows.len() implies values::answers(
            rows[i][c],
            ComparisionOperator::LTE,
            rows[j][c],
            true,
        ) by {
            assert(semantics::ascending(rows, c));
            assert(value::at_most(rows[i][c], rows[j][c]));
        }
    } else if forall|c: int, i: int, j: int|
        #![trigger table.column_specs@[c], rows[i], rows[j]]
        0 <= c < table.column_specs@.len() && has_mark(table.column_specs@[c].stats) && 0 <= i < j
            < rows.len() ==> values::answers(
            rows[i][c],
            ComparisionOperator::LTE,
            rows[j][c],
            true,
        ) {
        assert forall|c: int|
            0 <= c < table.column_specs@.len() && statistics::ordered_on_disk(
                (#[trigger] table.column_specs@[c]).stats,
            ) implies semantics::ascending(rows, c) by {
            assert forall|i: int, j: int| 0 <= i < j < rows.len() implies value::at_most(
                (#[trigger] rows[i])[c],
                (#[trigger] rows[j])[c],
            ) by {
                assert(values::answers(rows[i][c], ComparisionOperator::LTE, rows[j][c], true));
            }
        }
    }
}

/// What a query reads can be relied on where every table of the database can.
pub proof fn law_databases_to_rely_on(op: OpView, db: Database)
    requires
        forall|t: int|
            0 <= t < db.tables.len() ==> semantics::table_sound(#[trigger] db.tables[t], db.layout),
    ensures
        semantics::sound(op, db),
{
    semantics::lemma_all_sound(op, db);
}

/// The column of an operator's rows is a column of a table, which filters leave
/// as it is and projections rename.
pub open spec fn comes_from(
    op: OpView,
    name: Seq<char>,
    id: Seq<char>,
    column: Seq<char>,
) -> bool
    decreases op,
{
    match op {
        OpView::Scan(table) => table == id && name == column,
        OpView::Filter(_, u) => comes_from(*u, name, id, column),
        OpView::Project(map, u) => exists|k: int|
            {
                &&& 0 <= k < map.len()
                &&& (#[trigger] map[k]).1 == name
                &&& forall|j: int| 0 <= j < k ==> (#[trigger] map[j]).1 != name
                &&& comes_from(*u, map[k].0, id, column)
            },
        _ => false,
    }
}

/// The pair of a map that makes a column is the first with the name.
pub proof fn law_renamed_columns(map: Seq<(Seq<char>, Seq<char>)>, name: Seq<char>, k: int)
    ensures
        0 <= k < map.len() && map[k].1 == name && (forall|j: int|
            0 <= j < k ==> (#[trigger] map[j]).1 != name) ==> rewrite::source_of(map, name) == Some(
            map[k].0,
        ),
        (forall|j: int| 0 <= j < map.len() ==> (#[trigger] map[j]).1 != name)
            <==> rewrite::source_of(map, name) is None,
    decreases map.len(),
{
    if map.len() > 0 {
        let rest = map.skip(1);
        law_renamed_columns(rest, name, k - 1);
        assert forall|j: int| 0 <= j < rest.len() implies #[trigger] rest[j] == map[j + 1] by {}
        if map[0].1 != name {
            if 0 <= k < map.len() && map[k].1 == name && (forall|j: int|
                0 <= j < k ==> (#[trigger] map[j]).1 != name) {
                assert forall|j: int| 0 <= j < k - 1 implies (#[trigger] rest[j]).1 != name by {
                    assert(map[j + 1].1 != name);
                }
                assert(rest[k - 1].1 == name);
            }
            if forall|j: int| 0 <= j < map.len() ==> (#[trigger] map[j]).1 != name {
                assert forall|j: int| 0 <= j < rest.len() implies (#[trigger] rest[j]).1 != name by {
                    assert(map[j + 1].1 != name);
                }
            }
            if forall|j: int| 0 <= j < rest.len() ==> (#[trigger] rest[j]).1 != name {
                assert forall|j: int| 0 <= j < map.len() implies (#[trigger] map[j]).1 != name by {
                    if j > 0 {
                        assert(rest[j - 1].1 != name);
                    }
                }
            }
        } else {
            if 0 < k < map.len() && (forall|j: int| 0 <= j < k ==> (#[trigger] map[j]).1 != name) {
                assert(map[0].1 != name);
            }
        }
    }
}

/// A column is traced to the table that it comes from, and to none otherwise.
pub proof fn law_columns_are_traced(
    op: OpView,
    name: Seq<char>,
    id: Seq<char>,
    column: Seq<char>,
)
    ensures
        rules::traced(op, name) == Some((id, column)) <==> comes_from(op, name, id, column),
    decreases op,
{
    match op {
        OpView::Filter(_, u) => law_columns_are_traced(*u, name, id, column),
        OpView::Project(map, u) => {
            rewrite::lemma_source(map, name);
            if comes_from(op, name, id, column) {
                let k = choose|k: int|
                    {
                        &&& 0 <= k < map.len()
                        &&& (#[trigger] map[k]).1 == name
                        &&& forall|j: int| 0 <= j < k ==> (#[trigger] map[j]).1 != name
                        &&& comes_from(*u, map[k].0, id, column)
                    };
                law_renamed_columns(map, name, k);
                law_columns_are_traced(*u, map[k].0, id, column);
            }
            if rules::traced(op, name) == Some((id, column)) {
                law_renamed_columns(map, name, 0);
                let k = lemma_first_pair(map, name);
                law_renamed_columns(map, name, k);
                law_columns_are_traced(*u, map[k].0, id, column);
                assert(map[k].1 == name);
            }
        },
        _ => {},
    }
}

proof fn lemma_first_pair(map: Seq<(Seq<char>, Seq<char>)>, name: Seq<char>) -> (k: int)
    requires
        exists|j: int| 0 <= j < map.len() && (#[trigger] map[j]).1 == name,
    ensures
        0 <= k < map.len(),
        map[k].1 == name,
        forall|j: int| 0 <= j < k ==> (#[trigger] map[j]).1 != name,
    decreases map.len(),
{
    let last = map.len() - 1;
    let front = map.drop_last();
    if exists|j: int| 0 <= j < front.len() && (#[trigger] front[j]).1 == name {
        let k = lemma_first_pair(front, name);
        assert forall|j: int| 0 <= j < k implies (#[trigger] map[j]).1 != name by {
            assert(front[j].1 != name);
        }
        assert(map[k] == front[k]);
        k
    } else {
        let j = choose|j: int| 0 <= j < map.len() && (#[trigger] map[j]).1 == name;
        if j < last {
            assert(front[j].1 == name);
        }
        assert forall|j: int| 0 <= j < last implies (#[trigger] map[j]).1 != name by {
            assert(front[j].1 != name);
        }
        last as int
    }
}

/// A sort by several columns, or by a descending one, is never held to be done
/// already.
pub proof fn law_sorts_that_stay(
    specs: Seq<SortSpecView>,
    op: OpView,
    tables: Seq<TableSpec>,
)
    requires
        specs.len() != 1 || !specs[0].ascending,
    ensures
        rules::in_order(specs, op, tables) == Ok::<bool, DbError>(false),
{
}

/// A sort by one ascending column of a table is held to be done already where the
/// column has the mark, and only there: other statistics do not matter.
pub proof fn law_sorts_by_a_marked_column(
    name: Seq<char>,
    op: OpView,
    tables: Seq<TableSpec>,
    id: Seq<char>,
    column: Seq<char>,
    t: int,
    c: int,
)
    requires
        comes_from(op, name, id, column),
        0 <= t < tables.len(),
        means(tables[t], id),
        forall|j: int| 0 <= j < t ==> !means(#[trigger] tables[j], id),
        0 <= c < tables[t].column_specs@.len(),
        tables[t].column_specs@[c].column_name@ == column,
        forall|j: int|
            0 <= j < c ==> (#[trigger] tables[t].column_specs@[j]).column_name@ != column,
    ensures
        ({
            let specs = seq![SortSpecView { column: name, ascending: true }];
            let stats = tables[t].column_specs@[c].stats;
            &&& no_mark(stats) ==> rules::in_order(specs, op, tables) == Ok::<bool, DbError>(false)
            &&& has_mark(stats) ==> rules::in_order(specs, op, tables) == Ok::<bool, DbError>(true)
        }),
{
    law_columns_are_traced(op, name, id, column);
    catalog::law_names_of_tables(tables, id, t);
    let columns = tables[t].columns();
    assert(first_named(columns, column, c)) by {
        assert forall|j: int| 0 <= j < c implies (#[trigger] columns[j]).name != column by {
            assert(tables[t].column_specs@[j].column_name@ != column);
        }
    }
    catalog::law_names_of_columns(columns, column, c);
    law_marks(tables[t].column_specs@[c].stats);
}

/// Where no column has the mark, no sort is held to be done already.
pub proof fn law_sorts_without_marks(
    specs: Seq<SortSpecView>,
    op: OpView,
    tables: Seq<TableSpec>,
)
    requires
        no_marks(tables),
    ensures
        rules::in_order(specs, op, tables) != Ok::<bool, DbError>(true),
{
    if specs.len() == 1 {
        if let Some((id, name)) = rules::traced(op, specs[0].column) {
            if let Some(t) = db_context::table_index(tables, id) {
                catalog::law_names_of_tables(tables, id, t);
                if let Some(c) = row::column_index(tables[t].columns(), name) {
                    catalog::law_names_of_columns(tables[t].columns(), name, c);
                    assert(no_mark(tables[t].column_specs@[c].stats));
                    law_marks(tables[t].column_specs@[c].stats);
                }
            }
        }
    }
}

/// Where no column has the mark, a sort stays a sort, by the same first column.
pub proof fn law_sorts_are_kept(
    specs: Seq<SortSpecView>,
    u: OpView,
    tables: Seq<TableSpec>,
    depth: nat,
)
    requires
        no_marks(tables),
        specs.len() > 0,
        rules::optimized(OpView::Sort(specs, Box::new(u)), tables, depth) is Ok,
    ensures
        rules::optimized(OpView::Sort(specs, Box::new(u)), tables, depth)->Ok_0 matches OpView::Sort(
            kept,
            _,
        ) && kept.len() > 0 && kept[0] == specs[0],
{
    let kept = duplicates::distinct_sort_columns(specs);
    law_sort_columns_once(specs, 0);
    if depth > 0 {
        let d = (depth - 1) as nat;
        let v = rules::optimized(u, tables, d)->Ok_0;
        law_sorts_without_marks(kept, v, tables);
    }
}

/// Of the columns of a sort, those stay that came not before, in their order and
/// with their directions.
pub proof fn law_sort_columns_once(specs: Seq<SortSpecView>, i: int)
    ensures
        ({
            let kept = duplicates::distinct_sort_columns(specs);
            &&& kept.len() <= specs.len()
            &&& specs.len() > 0 ==> kept.len() > 0 && kept[0] == specs[0]
            &&& forall|x: int, y: int|
                0 <= x < y < kept.len() ==> (#[trigger] kept[x]).column != (
                #[trigger] kept[y]).column
            &&& forall|x: int|
                0 <= x < kept.len() ==> exists|k: int|
                    {
                        &&& 0 <= k < specs.len()
                        &&& #[trigger] specs[k] == #[trigger] kept[x]
                        &&& forall|j: int|
                            0 <= j < k ==> (#[trigger] specs[j]).column != specs[k].column
                    }
            &&& 0 <= i < specs.len() ==> exists|x: int|
                0 <= x < kept.len() && (#[trigger] kept[x]).column == specs[i].column
        }),
    decreases specs.len(),
{
    if specs.len() > 0 {
        let front = specs.drop_last();
        let before = duplicates::distinct_sort_columns(front);
        let kept = duplicates::distinct_sort_columns(specs);
        law_sort_columns_once(front, i);
        assert forall|x: int| 0 <= x < before.len() implies exists|k: int|
            {
                &&& 0 <= k < specs.len()
                &&& #[trigger] specs[k] == #[trigger] before[x]
                &&& forall|j: int| 0 <= j < k ==> (#[trigger] specs[j]).column != specs[k].column
            } by {
            let k = choose|k: int|
                {
                    &&& 0 <= k < front.len()
                    &&& #[trigger] front[k] == before[x]
                    &&& forall|j: int|
                        0 <= j < k ==> (#[trigger] front[j]).column != front[k].column
                };
            assert(specs[k] == before[x]);
            assert forall|j: int| 0 <= j < k implies (#[trigger] specs[j]).column
                != specs[k].column by {
                assert(front[j].column != front[k].column);
            }
        }
        let last = specs.len() - 1;
        if duplicates::has_sort_column(before, specs.last().column) {
            let x = choose|x: int|
                0 <= x < before.len() && (#[trigger] before[x]).column == specs.last().column;
            assert(kept[x].column == specs[last as int].column);
        } else {
            assert(kept[before.len() as int] == specs[last as int]);
            assert forall|j: int| 0 <= j < last implies (#[trigger] specs[j]).column
                != specs[last as int].column by {
                law_sort_columns_once(front, j);
                let x = choose|x: int|
                    0 <= x < before.len() && (#[trigger] before[x]).column == front[j].column;
                assert(front[j] == specs[j]);
                assert(before[x].column == specs[j].column);
            }
            assert forall|x: int| 0 <= x < kept.len() implies exists|k: int|
                {
                    &&& 0 <= k < specs.len()
                    &&& #[trigger] specs[k] == #[trigger] kept[x]
                    &&& forall|j: int|
                        0 <= j < k ==> (#[trigger] specs[j]).column != specs[k].column
                } by {
                if x < before.len() {
                    assert(kept[x] == before[x]);
                } else {
                    assert(specs[last as int] == kept[x]);
                }
            }
        }
        if 0 <= i < front.len() {
            let x = choose|x: int|
                0 <= x < before.len() && (#[trigger] before[x]).column == front[i].column;
            assert(kept[x] == before[x]);
            assert(kept[x].column == specs[i].column);
        }
    }
}

/// Where no column has the mark and every file can be read, the rewritten query of
/// a sort by one column gives rows that, with the columns in their places, never
/// fall or rise against the direction of the sort, whatever the statistics of the
/// columns say.
pub proof fn law_sorts_without_marks_are_answered(
    name: Seq<char>,
    ascending: bool,
    u: OpView,
    db: Database,
    depth: nat,
    g: Set<PredicateView>,
    out: Seq<RowView>,
    c: int,
    i: int,
    j: int,
)
    requires
        no_marks(db.tables),
        reading::own_files(db.tables),
        forall|t: int|
            0 <= t < db.tables.len() ==> {
                let (start, count) = db.layout.files[(#[trigger] db.tables[t]).file_id@];
                &&& start + count <= db.layout.anon_start
                &&& semantics::file_rows(
                    db.layout.file_blocks(db.tables[t].file_id@),
                    row::types_of(db.tables[t].columns()),
                ) is Ok
            },
        equivalence::clear(
            OpView::Sort(seq![SortSpecView { column: name, ascending }], Box::new(u)),
            db.tables,
            g,
        ),
        semantics::delivers(
            rules::optimized(
                OpView::Sort(seq![SortSpecView { column: name, ascending }], Box::new(u)),
                db.tables,
                depth,
            )->Ok_0,
            db,
            out,
        ),
        first_named(query_support::schema_of(u, db.tables)->Ok_0, name, c),
        answers::orderly(semantics::rows_of(u, db), c),
        0 <= i < j < out.len(),
    ensures
        ({
            let op = OpView::Sort(seq![SortSpecView { column: name, ascending }], Box::new(u));
            let b = rules::optimized(op, db.tables, depth)->Ok_0;
            let rows = equivalence::turned(out, b, op, db.tables);
            &&& rows.len() == out.len()
            &&& rows.to_multiset() == semantics::rows_of(u, db).to_multiset()
            &&& ascending ==> values::answers(
                rows[i][c],
                ComparisionOperator::GT,
                rows[j][c],
                false,
            )
            &&& !ascending ==> values::answers(
                rows[i][c],
                ComparisionOperator::LT,
                rows[j][c],
                false,
            )
        }),
{
    let op = OpView::Sort(seq![SortSpecView { column: name, ascending }], Box::new(u));
    assert forall|t: int| 0 <= t < db.tables.len() implies semantics::table_sound(
        #[trigger] db.tables[t],
        db.layout,
    ) by {
        let table = db.tables[t];
        assert forall|k: int| 0 <= k < table.column_specs@.len() implies !has_mark(
            (#[trigger] table.column_specs@[k]).stats,
        ) by {
            assert(no_mark(db.tables[t].column_specs@[k].stats));
            law_marks(table.column_specs@[k].stats);
        }
        law_tables_to_rely_on(table, db.layout);
    }
    law_databases_to_rely_on(op, db);
    laws::law_optimized_answers(op, db, depth, out, g);
    let b = rules::optimized(op, db.tables, depth)->Ok_0;
    let rows = equivalence::turned(out, b, op, db.tables);
    answers::law_answers(op, db, rows);
    answers::law_sort_by_one_column(name, ascending, u, db, rows, c, i, j);
}

/// A cross product is taken of the side that is held to have more rows with the
/// other, and of the sides as they stand where they are held to have as many.
pub proof fn law_larger_side_first(l: OpView, r: OpView, tables: Seq<TableSpec>)
    ensures
        rules::larger_first(l, r, tables) matches OpView::Cross(a, b) && {
            &&& (*a == l && *b == r) || (*a == r && *b == l)
            &&& estimation::rows_estimate(*a, tables) >= estimation::rows_estimate(*b, tables)
            &&& estimation::rows_estimate(l, tables) == estimation::rows_estimate(r, tables)
                ==> *a == l && *b == r
        },
{
}

} // verus!
