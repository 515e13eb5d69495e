//! Rewriting a sort leaves its answers right.

use vstd::prelude::*;

use crate::catalog::db_context;
use crate::catalog::statistics;
use crate::catalog::table::ColumnView;
use crate::executor::outcome;
use crate::executor::rewrite;
use crate::executor::value;
use crate::optimizer::duplicates;
use crate::optimizer::equivalence;
use crate::optimizer::filter_laws;
use crate::optimizer::rules;
use crate::query::{OpView, PredicateView, SortSpecView};
use crate::query_support;
use crate::row;
use crate::scan_pipeline;
use crate::semantics;
use crate::semantics::{Database, RowView, SortKey};

verus! {

broadcast use semantics::lemma_all_sound;

/// Two rows that are equal on some columns are ordered by the next.
proof fn lemma_row_order_push(a: RowView, b: RowView, keys: Seq<SortKey>, k: SortKey)
    ensures
        semantics::row_order(a, b, keys.push(k)) == if semantics::row_order(a, b, keys) is Equal {
            semantics::key_order(a[k.index], b[k.index], k.ascending)
        } else {
            semantics::row_order(a, b, keys)
        },
    decreases keys.len(),
{
    let all = keys.push(k);
    if keys.len() == 0 {
        assert(all.skip(1) =~= Seq::<SortKey>::empty());
        assert(semantics::row_order(a, b, all.skip(1)) is Equal);
    } else {
        lemma_row_order_push(a, b, keys.skip(1), k);
        assert(all.skip(1) =~= keys.skip(1).push(k));
    }
}

/// Rows that are equal on columns are equal on each of them, in either
/// direction.
proof fn lemma_equal_on(a: RowView, b: RowView, keys: Seq<SortKey>, i: int, ascending: bool)
    requires
        semantics::row_order(a, b, keys) is Equal,
        0 <= i < keys.len(),
    ensures
        semantics::key_order(a[keys[i].index], b[keys[i].index], ascending) is Equal,
    decreases keys.len(),
{
    if i > 0 {
        lemma_equal_on(a, b, keys.skip(1), i - 1, ascending);
        assert(keys.skip(1)[i - 1] == keys[i]);
    }
}

/// A column that came before does not change the order of rows.
proof fn lemma_distinct_order(
    columns: Seq<ColumnView>,
    specs: Seq<SortSpecView>,
    a: RowView,
    b: RowView,
)
    ensures
        semantics::row_order(
            a,
            b,
            semantics::sort_keys(columns, duplicates::distinct_sort_columns(specs)),
        ) == semantics::row_order(a, b, semantics::sort_keys(columns, specs)),
    decreases specs.len(),
{
    let all = semantics::sort_keys(columns, specs);
    let kept = semantics::sort_keys(columns, duplicates::distinct_sort_columns(specs));
    if specs.len() == 0 {
        assert(all =~= kept);
    } else {
        let front = specs.drop_last();
        let last = specs.last();
        let before = duplicates::distinct_sort_columns(front);
        let k = SortKey {
            index: row::column_index(columns, last.column)->0,
            ascending: last.ascending,
        };
        lemma_distinct_order(columns, front, a, b);
        let all_front = semantics::sort_keys(columns, front);
        let kept_front = semantics::sort_keys(columns, before);
        assert(all =~= all_front.push(k));
        lemma_row_order_push(a, b, all_front, k);
        if duplicates::has_sort_column(before, last.column) {
            let i = choose|i: int|
                0 <= i < before.len() && (#[trigger] before[i]).column == last.column;
            if semantics::row_order(a, b, kept_front) is Equal {
                lemma_equal_on(a, b, kept_front, i, last.ascending);
            }
        } else {
            assert(kept =~= kept_front.push(k));
            lemma_row_order_push(a, b, kept_front, k);
        }
    }
}

/// The kept sort columns are among all of them.
proof fn lemma_distinct_members(specs: Seq<SortSpecView>)
    ensures
        forall|i: int|
            0 <= i < duplicates::distinct_sort_columns(specs).len() ==> specs.contains(
                #[trigger] duplicates::distinct_sort_columns(specs)[i],
            ),
    decreases specs.len(),
{
    if specs.len() > 0 {
        let front = specs.drop_last();
        lemma_distinct_members(front);
        let before = duplicates::distinct_sort_columns(front);
        let kept = duplicates::distinct_sort_columns(specs);
        assert forall|i: int| 0 <= i < kept.len() implies specs.contains(#[trigger] kept[i]) by {
            if i < before.len() {
                assert(kept[i] == before[i]);
                assert(front.contains(before[i]));
                let k = choose|k: int| 0 <= k < front.len() && front[k] == before[i];
                assert(specs[k] == kept[i]);
            } else {
                assert(specs[specs.len() - 1] == kept[i]);
            }
        }
    }
}

/// Rows that can be compared by all sort columns can be by those that are kept.
proof fn lemma_distinct_comparable(
    columns: Seq<ColumnView>,
    specs: Seq<SortSpecView>,
    rows: Seq<RowView>,
)
    requires
        semantics::comparable(rows, semantics::sort_keys(columns, specs)),
    ensures
        semantics::comparable(
            rows,
            semantics::sort_keys(columns, duplicates::distinct_sort_columns(specs)),
        ),
{
    let all = semantics::sort_keys(columns, specs);
    let kept_specs = duplicates::distinct_sort_columns(specs);
    let kept = semantics::sort_keys(columns, kept_specs);
    lemma_distinct_members(specs);
    assert forall|i: int, j: int|
        0 <= i < rows.len() && 0 <= j < rows.len() implies semantics::comparable_rows(
        #[trigger] rows[i],
        #[trigger] rows[j],
        kept,
    ) by {
        assert(semantics::comparable_rows(rows[i], rows[j], all));
        assert forall|k: int| 0 <= k < kept.len() implies value::order(
            rows[i][(#[trigger] kept[k]).index],
            rows[j][kept[k].index],
        ) is Some by {
            assert(specs.contains(kept_specs[k]));
            let m = choose|m: int| 0 <= m < specs.len() && specs[m] == kept_specs[k];
            assert(all[m] == kept[k]);
        }
    }
}

/// A sort without columns that came before stands for the sort.
pub proof fn lemma_sort_distinct(specs: Seq<SortSpecView>, u: OpView, db: Database, g: Set<PredicateView>)
    requires
        semantics::all_sound(db),
        equivalence::clear(OpView::Sort(specs, Box::new(u)), db.tables, g),
    ensures
        equivalence::stands_for(
            OpView::Sort(duplicates::distinct_sort_columns(specs), Box::new(u)),
            OpView::Sort(specs, Box::new(u)),
            db,
            g,
        ),
{
    let kept = duplicates::distinct_sort_columns(specs);
    let a = OpView::Sort(specs, Box::new(u));
    let b = OpView::Sort(kept, Box::new(u));
    let c = equivalence::cols(u, db.tables);
    let (ka, kb) = (semantics::sort_keys(c, specs), semantics::sort_keys(c, kept));
    lemma_distinct_members(specs);
    assert forall|i: int| 0 <= i < kept.len() implies query_support::has_column(
        c,
        (#[trigger] kept[i]).column,
    ) by {
        assert(specs.contains(kept[i]));
        let k = choose|k: int| 0 <= k < specs.len() && specs[k] == kept[i];
        assert(query_support::has_column(c, specs[k].column));
    }
    assert(equivalence::answers_too(b, a, db)) by {
        assert forall|out: Seq<RowView>| #[trigger]
            semantics::delivers(b, db, out) implies semantics::delivers(a, db, out) by {
            if semantics::comparable(semantics::rows_of(u, db), ka) {
                lemma_distinct_comparable(c, specs, semantics::rows_of(u, db));
                assert forall|i: int, j: int| 0 <= i < j < out.len() implies !(
                semantics::row_order(#[trigger] out[i], #[trigger] out[j], ka) is Greater) by {
                    lemma_distinct_order(c, specs, out[i], out[j]);
                }
            }
        }
    }
    equivalence::lemma_stands_same(b, a, db, g);
}

/// An operator stands for a sort of it by nothing.
pub proof fn lemma_sort_none(specs: Seq<SortSpecView>, u: OpView, db: Database, g: Set<PredicateView>)
    requires
        semantics::all_sound(db),
        equivalence::clear(OpView::Sort(specs, Box::new(u)), db.tables, g),
        specs.len() == 0,
    ensures
        equivalence::stands_for(u, OpView::Sort(specs, Box::new(u)), db, g),
{
    let a = OpView::Sort(specs, Box::new(u));
    let keys = semantics::sort_keys(equivalence::cols(u, db.tables), specs);
    assert(equivalence::answers_too(u, a, db)) by {
        assert forall|out: Seq<RowView>| #[trigger]
            semantics::delivers(u, db, out) implies semantics::delivers(a, db, out) by {
            assert(semantics::sorted(out, keys));
        }
    }
    equivalence::lemma_stands_same(u, a, db, g);
}

/// A column that is one of a table in order on the device is in order.
proof fn lemma_traced(op: OpView, name: Seq<char>, db: Database)
    requires
        semantics::all_sound(db),
        semantics::op_known(op, db.tables),
        query_support::has_column(equivalence::cols(op, db.tables), name),
        rules::traced(op, name) is Some,
        ({
            let (id, base) = rules::traced(op, name)->0;
            let t = db_context::table_index(db.tables, id)->0;
            &&& db_context::table_index(db.tables, id) is Some
            &&& row::column_index(db.tables[t].columns(), base) is Some
            &&& statistics::ordered_on_disk(
                db.tables[t].column_specs@[row::column_index(
                    db.tables[t].columns(),
                    base,
                )->0].stats,
            )
        }),
    ensures
        semantics::is_pipeline(op),
        semantics::ascending(
            semantics::rows_of(op, db),
            row::column_index(equivalence::cols(op, db.tables), name)->0,
        ),
    decreases op,
{
    match op {
        OpView::Scan(id) => {
            let t = db_context::table_index(db.tables, id)->0;
            db_context::lemma_table_index(db.tables, id);
            let c = row::column_index(db.tables[t].columns(), name)->0;
            row::lemma_column_index(db.tables[t].columns(), name);
            assert(semantics::table_sound(db.tables[t], db.layout));
            assert(statistics::ordered_on_disk(db.tables[t].column_specs@[c].stats));
        },
        OpView::Filter(ps, u) => {
            lemma_traced(*u, name, db);
            let c = equivalence::cols(*u, db.tables);
            scan_pipeline::lemma_filter_ascending(
                semantics::rows_of(*u, db),
                semantics::compiled_all(c, ps),
                row::column_index(c, name)->0,
            );
        },
        OpView::Project(map, u) => {
            let c = equivalence::cols(*u, db.tables);
            semantics::lemma_known_schema(*u, db.tables);
            let from = rewrite::source_of(map, name)->0;
            filter_laws::lemma_source_known(c, map, name);
            lemma_traced(*u, from, db);
            let k = outcome::lemma_renamed_index(c, map, name, from);
            let rows = semantics::rows_of(*u, db);
            let out = semantics::rows_of(op, db);
            let picks = row::map_indexes(c, map);
            assert(out == semantics::project_rows(rows, picks));
            assert forall|i: int, j: int| 0 <= i < j < out.len() implies value::at_most(
                (#[trigger] out[i])[k],
                (#[trigger] out[j])[k],
            ) by {
                assert(out[i][k] == rows[i][picks[k]]);
                assert(out[j][k] == rows[j][picks[k]]);
            }
        },
        _ => {},
    }
}

/// An operator whose rows come in the order of a sort stands for the sort.
pub proof fn lemma_sort_in_order(specs: Seq<SortSpecView>, u: OpView, db: Database, g: Set<PredicateView>)
    requires
        semantics::all_sound(db),
        equivalence::clear(OpView::Sort(specs, Box::new(u)), db.tables, g),
        rules::in_order(specs, u, db.tables) == Ok::<bool, crate::error::DbError>(true),
    ensures
        equivalence::stands_for(u, OpView::Sort(specs, Box::new(u)), db, g),
{
    let a = OpView::Sort(specs, Box::new(u));
    let c = equivalence::cols(u, db.tables);
    let keys = semantics::sort_keys(c, specs);
    let rows = semantics::rows_of(u, db);
    assert(query_support::has_column(c, specs[0].column));
    lemma_traced(u, specs[0].column, db);
    assert(semantics::sorted(rows, keys)) by {
        assert forall|i: int, j: int| 0 <= i < j < rows.len() implies !(semantics::row_order(
            #[trigger] rows[i],
            #[trigger] rows[j],
            keys,
        ) is Greater) by {
            assert(keys.skip(1).len() == 0);
            let n = keys[0].index;
            assert(value::at_most(rows[i][n], rows[j][n]));
            assert(semantics::row_order(rows[i], rows[j], keys.skip(1)) is Equal);
        }
    }
    assert(equivalence::answers_too(u, a, db)) by {
        assert forall|out: Seq<RowView>| #[trigger]
            semantics::delivers(u, db, out) implies semantics::delivers(a, db, out) by {
            assert(out == rows);
        }
    }
    equivalence::lemma_stands_same(u, a, db, g);
}

/// Whether rows come in the order of sort columns can be told of a clear sort.
pub proof fn lemma_in_order_known(specs: Seq<SortSpecView>, u: OpView, db: Database)
    requires
        semantics::op_known(u, db.tables),
    ensures
        rules::in_order(specs, u, db.tables) is Ok,
{
    if specs.len() == 1 {
        lemma_traced_table(u, specs[0].column, db);
    }
}

/// A column of a known operator is one of a known table, if of any.
proof fn lemma_traced_table(op: OpView, name: Seq<char>, db: Database)
    requires
        semantics::op_known(op, db.tables),
    ensures
        rules::traced(op, name) matches Some((id, _)) ==> db_context::table_index(
            db.tables,
            id,
        ) is Some,
    decreases op,
{
    match op {
        OpView::Filter(_, u) => lemma_traced_table(*u, name, db),
        OpView::Project(map, u) => {
            if let Some(from) = rewrite::source_of(map, name) {
                lemma_traced_table(*u, from, db);
            }
        },
        _ => {},
    }
}

} // verus!
