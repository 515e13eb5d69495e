//! When queries fail, and with what.

use vstd::prelude::*;

use crate::catalog::db_context;
use crate::catalog::table::{ColumnView, TableSpec};
use crate::error::DbError;
use crate::executor::outcome;
use crate::executor::value;
use crate::io;
use crate::io::{Input, Output};
use crate::laws::answers::over_a_table;
use crate::laws::catalog;
use crate::laws::catalog::{first_named, means};
use crate::laws::storage;
use crate::laws::values;
use crate::number::Num;
use crate::query::{OpView, OperandView, PredicateView, SortSpecView};
use crate::query_support;
use crate::row;
use crate::scan_pipeline;
use crate::semantics;
use crate::semantics::{Database, Kind, RowView};
use crate::storage::disk_client::DiskClient;
use crate::storage::row_codec;
use crate::storage::scratch_run;
use crate::text;

verus! {

/// A column of a table holds texts where that is its type. It holds numbers
/// otherwise, which all have an order where no row of the table has a NaN in it.
pub proof fn law_kinds_of_a_table(id: Seq<char>, db: Database, t: int, c: int, i: int)
    requires
        0 <= t < db.tables.len(),
        means(db.tables[t], id),
        forall|j: int| 0 <= j < t ==> !means(#[trigger] db.tables[j], id),
        0 <= c < db.tables[t].column_specs@.len(),
    ensures
        ({
            let kinds = semantics::kinds(OpView::Scan(id), db);
            let rows = semantics::table_rows(db.tables[t], db.layout);
            let texts = db.tables[t].column_specs@[c].data_type is String;
            &&& kinds.len() == db.tables[t].column_specs@.len()
            &&& kinds[c] is Text <==> texts
            &&& !texts && (forall|k: int|
                0 <= k < rows.len() ==> !values::nan((#[trigger] rows[k])[c])) ==> kinds[c] is Number
            &&& !texts && 0 <= i < rows.len() && values::nan(rows[i][c]) ==> kinds[c] is Unordered
        }),
{
    catalog::law_names_of_tables(db.tables, id, t);
    let rows = semantics::table_rows(db.tables[t], db.layout);
    assert forall|k: int| 0 <= k < rows.len() implies (value::number_of(#[trigger] rows[k][c])
        == Some(Num::NaN) <==> values::nan(rows[k][c])) by {
        values::law_nan_values(rows[k][c]);
    }
    if 0 <= i < rows.len() && values::nan(rows[i][c]) {
        assert(value::number_of(rows[i][c]) == Some(Num::NaN));
    }
}

/// Filters and sorts leave what columns hold, projections move it with the
/// columns, and a cross product has what both of its sides have.
pub proof fn law_kinds_of_operators(
    ps: Seq<PredicateView>,
    map: Seq<(Seq<char>, Seq<char>)>,
    specs: Seq<SortSpecView>,
    u: OpView,
    v: OpView,
    db: Database,
    c: int,
    k: int,
)
    ensures
        semantics::kinds(OpView::Filter(ps, Box::new(u)), db) == semantics::kinds(u, db),
        semantics::kinds(OpView::Sort(specs, Box::new(u)), db) == semantics::kinds(u, db),
        semantics::kinds(OpView::Cross(Box::new(u), Box::new(v)), db) == semantics::kinds(u, db)
            + semantics::kinds(v, db),
        semantics::kinds(OpView::Project(map, Box::new(u)), db).len() == map.len(),
        0 <= c < map.len() && first_named(
            query_support::schema_of(u, db.tables)->Ok_0,
            map[c].0,
            k,
        ) ==> semantics::kinds(OpView::Project(map, Box::new(u)), db)[c] == semantics::kinds(
            u,
            db,
        )[k],
{
    if 0 <= c < map.len() {
        catalog::law_names_of_columns(query_support::schema_of(u, db.tables)->Ok_0, map[c].0, k);
    }
}

/// A comparison has an answer on all rows where it is one of texts with texts or
/// one of numbers with numbers, none of them a NaN.
pub open spec fn settled(columns: Seq<ColumnView>, kinds: Seq<Kind>, p: PredicateView) -> bool {
    exists|l: int|
        {
            &&& #[trigger] first_named(columns, p.column, l)
            &&& l < kinds.len()
            &&& match p.value {
                OperandView::Literal(v) => if v is Text {
                    kinds[l] is Text
                } else {
                    kinds[l] is Number && !values::nan(v)
                },
                OperandView::Column(other) => exists|r: int|
                    {
                        &&& #[trigger] first_named(columns, other, r)
                        &&& r < kinds.len()
                        &&& (kinds[l] is Text && kinds[r] is Text) || (kinds[l] is Number
                            && kinds[r] is Number)
                    },
            }
        }
}

proof fn lemma_settled(columns: Seq<ColumnView>, kinds: Seq<Kind>, p: PredicateView)
    requires
        semantics::predicate_known(columns, p),
    ensures
        settled(columns, kinds, p) <==> semantics::answerable(
            semantics::compiled(columns, p),
            kinds,
        ),
{
    let l = row::column_index(columns, p.column)->0;
    catalog::law_names_of_columns(columns, p.column, l);
    assert(first_named(columns, p.column, l));
    match p.value {
        OperandView::Literal(v) => {
            values::law_nan_values(v);
        },
        OperandView::Column(other) => {
            let r = row::column_index(columns, other)->0;
            catalog::law_names_of_columns(columns, other, r);
            assert(first_named(columns, other, r));
        },
    }
    if settled(columns, kinds, p) {
        let k = choose|k: int|
            {
                &&& #[trigger] first_named(columns, p.column, k)
                &&& k < kinds.len()
                &&& match p.value {
                    OperandView::Literal(v) => if v is Text {
                        kinds[k] is Text
                    } else {
                        kinds[k] is Number && !values::nan(v)
                    },
                    OperandView::Column(other) => exists|r: int|
                        {
                            &&& #[trigger] first_named(columns, other, r)
                            &&& r < kinds.len()
                            &&& (kinds[k] is Text && kinds[r] is Text) || (kinds[k] is Number
                                && kinds[r] is Number)
                        },
                }
            };
        catalog::law_names_of_columns(columns, p.column, k);
        if let OperandView::Column(other) = p.value {
            let r = choose|r: int|
                {
                    &&& #[trigger] first_named(columns, other, r)
                    &&& r < kinds.len()
                    &&& (kinds[k] is Text && kinds[r] is Text) || (kinds[k] is Number && kinds[r]
                        is Number)
                };
            catalog::law_names_of_columns(columns, other, r);
        }
    }
}

/// The comparisons of a query all have answers where those of each of its filters
/// do.
pub proof fn law_queries_with_answers(
    id: Seq<char>,
    ps: Seq<PredicateView>,
    map: Seq<(Seq<char>, Seq<char>)>,
    specs: Seq<SortSpecView>,
    u: OpView,
    v: OpView,
    db: Database,
)
    ensures
        semantics::op_answerable(OpView::Scan(id), db),
        semantics::op_known(OpView::Filter(ps, Box::new(u)), db.tables) ==> (
        semantics::op_answerable(OpView::Filter(ps, Box::new(u)), db) <==> {
            &&& semantics::op_answerable(u, db)
            &&& forall|i: int|
                0 <= i < ps.len() ==> settled(
                    query_support::schema_of(u, db.tables)->Ok_0,
                    semantics::kinds(u, db),
                    #[trigger] ps[i],
                )
        }),
        semantics::op_answerable(OpView::Project(map, Box::new(u)), db)
            == semantics::op_answerable(u, db),
        semantics::op_answerable(OpView::Sort(specs, Box::new(u)), db) == semantics::op_answerable(
            u,
            db,
        ),
        semantics::op_answerable(OpView::Cross(Box::new(u), Box::new(v)), db) == (
        semantics::op_answerable(u, db) && semantics::op_answerable(v, db)),
{
    let columns = query_support::schema_of(u, db.tables)->Ok_0;
    let kinds = semantics::kinds(u, db);
    let cs = semantics::compiled_all(columns, ps);
    if semantics::op_known(OpView::Filter(ps, Box::new(u)), db.tables) {
        assert forall|i: int| 0 <= i < ps.len() implies (settled(columns, kinds, #[trigger] ps[i])
            <==> semantics::answerable(cs[i], kinds)) by {
            assert(semantics::predicate_known(columns, ps[i]));
            lemma_settled(columns, kinds, ps[i]);
        }
        if semantics::all_answerable(cs, kinds) {
            assert forall|i: int| 0 <= i < ps.len() implies settled(
                columns,
                kinds,
                #[trigger] ps[i],
            ) by {
                assert(semantics::answerable(cs[i], kinds));
            }
        }
        if forall|i: int| 0 <= i < ps.len() ==> settled(columns, kinds, #[trigger] ps[i]) {
            assert forall|i: int| 0 <= i < cs.len() implies semantics::answerable(
                #[trigger] cs[i],
                kinds,
            ) by {
                assert(settled(columns, kinds, ps[i]));
            }
        }
    }
}

/// A query whose names are there, whose comparisons have answers and whose rows
/// fit blocks has no reason to fail. Each of the other ones has its own error.
pub proof fn law_reasons_to_fail(op: OpView, db: Database, size: int, e: DbError)
    requires
        outcome::excuses(op, db, size, e),
    ensures
        ({
            ||| (e == DbError::UnknownTable || e == DbError::UnknownColumn) && !semantics::op_known(
                op,
                db.tables,
            )
            ||| e == DbError::Incomparable && !semantics::op_answerable(op, db)
            ||| e == DbError::RowTooLarge && outcome::outgrowing(op, db, size)
        }),
{
}

/// Every row, stored, fits a block of the size, with its last two bytes free.
pub open spec fn short(rows: Seq<RowView>, size: int) -> bool {
    forall|i: int|
        0 <= i < rows.len() ==> storage::stored_row(#[trigger] rows[i]).len() + 2 <= size
}

/// Rows are stored that are sorted, or are of the sides of a cross product. Where
/// they are short, nothing is too long for a block.
pub proof fn law_rows_that_fit(
    id: Seq<char>,
    ps: Seq<PredicateView>,
    map: Seq<(Seq<char>, Seq<char>)>,
    specs: Seq<SortSpecView>,
    u: OpView,
    v: OpView,
    db: Database,
    size: int,
)
    ensures
        !outcome::outgrowing(OpView::Scan(id), db, size),
        outcome::outgrowing(OpView::Filter(ps, Box::new(u)), db, size) == outcome::outgrowing(
            u,
            db,
            size,
        ),
        !(u is Sort) ==> outcome::outgrowing(OpView::Project(map, Box::new(u)), db, size)
            == outcome::outgrowing(u, db, size),
        outcome::outgrowing(OpView::Sort(specs, Box::new(u)), db, size) <==> {
            ||| !short(semantics::rows_of(u, db), size)
            ||| outcome::outgrowing(u, db, size)
        },
        outcome::outgrowing(OpView::Cross(Box::new(u), Box::new(v)), db, size) <==> {
            ||| !short(semantics::rows_of(u, db), size)
            ||| !short(semantics::rows_of(v, db), size)
            ||| outcome::outgrowing(u, db, size)
            ||| outcome::outgrowing(v, db, size)
        },
{
    lemma_short(semantics::rows_of(u, db), size);
    lemma_short(semantics::rows_of(v, db), size);
}

proof fn lemma_short(rows: Seq<RowView>, size: int)
    ensures
        short(rows, size) <==> !scratch_run::oversized(rows, size),
{
    assert forall|i: int| 0 <= i < rows.len() implies row::encoded_row(#[trigger] rows[i])
        == storage::stored_row(rows[i]) by {
        storage::law_rows_are_written(rows[i]);
    }
    if !short(rows, size) {
        let i = choose|i: int|
            0 <= i < rows.len() && storage::stored_row(#[trigger] rows[i]).len() + 2 > size;
        assert(row::encoded_row(rows[i]).len() + 2 > size);
    }
}

/// The table that all rows of an operator come from, if it is one.
pub open spec fn the_table(op: OpView) -> Option<Seq<char>>
    decreases op,
{
    match op {
        OpView::Scan(id) => Some(id),
        OpView::Filter(_, u) => the_table(*u),
        OpView::Project(_, u) => the_table(*u),
        OpView::Sort(_, u) => the_table(*u),
        OpView::Cross(_, _) => None,
    }
}

proof fn lemma_the_table(op: OpView)
    ensures
        the_table(op) == outcome::table_of(op),
    decreases op,
{
    match op {
        OpView::Filter(_, u) => lemma_the_table(*u),
        OpView::Project(_, u) => lemma_the_table(*u),
        OpView::Sort(_, u) => lemma_the_table(*u),
        _ => {},
    }
}

/// A query on one table is refused with one error where the table is not there,
/// with another where the table is and something else that it names is not, and
/// with none where everything is.
pub proof fn law_refused_queries(op: OpView, tables: Seq<TableSpec>, id: Seq<char>)
    requires
        the_table(op) == Some(id),
    ensures
        (forall|t: int| 0 <= t < tables.len() ==> !means(#[trigger] tables[t], id))
            ==> outcome::refusal(op, tables) == Some(DbError::UnknownTable),
        (exists|t: int| 0 <= t < tables.len() && means(#[trigger] tables[t], id))
            && !semantics::op_known(op, tables) ==> outcome::refusal(op, tables) == Some(
            DbError::UnknownColumn,
        ),
        semantics::op_known(op, tables) ==> outcome::refusal(op, tables) is None,
{
    lemma_the_table(op);
    catalog::law_names_of_tables(tables, id, 0);
    if semantics::op_known(op, tables) {
        lemma_known_table(op, tables, id);
    }
}

proof fn lemma_known_table(op: OpView, tables: Seq<TableSpec>, id: Seq<char>)
    requires
        the_table(op) == Some(id),
        semantics::op_known(op, tables),
    ensures
        db_context::table_index(tables, id) is Some,
    decreases op,
{
    match op {
        OpView::Filter(_, u) => lemma_known_table(*u, tables, id),
        OpView::Project(_, u) => lemma_known_table(*u, tables, id),
        OpView::Sort(_, u) => lemma_known_table(*u, tables, id),
        _ => {},
    }
}

/// What columns an operator has cannot be said where a table or an old name of a
/// projection is not there, and the error says which.
pub proof fn law_missing_columns(
    id: Seq<char>,
    map: Seq<(Seq<char>, Seq<char>)>,
    u: OpView,
    v: OpView,
    tables: Seq<TableSpec>,
    c: int,
)
    ensures
        (forall|t: int| 0 <= t < tables.len() ==> !means(#[trigger] tables[t], id))
            ==> query_support::schema_of(OpView::Scan(id), tables) == Err::<
            Seq<ColumnView>,
            DbError,
        >(DbError::UnknownTable),
        query_support::schema_of(u, tables) matches Ok(columns) ==> (0 <= c < map.len() && (forall|
            k: int,
        |
            0 <= k < columns.len() ==> (#[trigger] columns[k]).name != map[c].0)
            ==> query_support::schema_of(OpView::Project(map, Box::new(u)), tables) == Err::<
            Seq<ColumnView>,
            DbError,
        >(DbError::UnknownColumn)),
        query_support::schema_of(u, tables) matches Err(e) ==> {
            &&& query_support::schema_of(OpView::Project(map, Box::new(u)), tables) == Err::<
                Seq<ColumnView>,
                DbError,
            >(e)
            &&& query_support::schema_of(OpView::Cross(Box::new(u), Box::new(v)), tables) == Err::<
                Seq<ColumnView>,
                DbError,
            >(e)
        },
        query_support::schema_of(u, tables) is Ok ==> (query_support::schema_of(v, tables)
            matches Err(e) ==> query_support::schema_of(
            OpView::Cross(Box::new(u), Box::new(v)),
            tables,
        ) == Err::<Seq<ColumnView>, DbError>(e)),
{
    catalog::law_names_of_tables(tables, id, 0);
    if let Ok(columns) = query_support::schema_of(u, tables) {
        if 0 <= c < map.len() {
            catalog::law_names_of_columns(columns, map[c].0, 0);
            assert(row::map_known(columns, map) ==> row::column_index(columns, map[c].0) is Some);
        }
    }
}

/// A scan has read all that it needs where every block of the table holds rows, if
/// the file lies below the scratch area.
pub proof fn law_readable_tables(id: Seq<char>, db: Database, t: int)
    requires
        0 <= t < db.tables.len(),
        means(db.tables[t], id),
        forall|j: int| 0 <= j < t ==> !means(#[trigger] db.tables[j], id),
    ensures
        outcome::legible(OpView::Scan(id), db) <==> {
            let table = db.tables[t];
            let (start, count) = db.layout.files[table.file_id@];
            start + count <= db.layout.anon_start ==> forall|b: int|
                0 <= b < count ==> row_codec::block_rows(
                    #[trigger] db.layout.file_blocks(table.file_id@)[b],
                    row::types_of(table.columns()),
                ) is Ok
        },
{
    catalog::law_names_of_tables(db.tables, id, t);
    let op = OpView::Scan(id);
    let table = db.tables[t];
    let types = row::types_of(table.columns());
    let blocks = db.layout.file_blocks(table.file_id@);
    let indexes = scan_pipeline::read_columns(op, db.tables);
    assert(semantics::is_pipeline(op));
    assert(indexes =~= scan_pipeline::identity(types.len()));
    assert forall|c: int| 0 <= c < types.len() implies #[trigger] row_codec::is_picked(
        indexes,
        c,
    ) by {
        assert(indexes[c] == c);
    }
    assert forall|b: int| 0 <= b < blocks.len() implies (row_codec::block_rows(
        #[trigger] blocks[b],
        types,
    ) is Ok <==> row_codec::picked_block_rows(blocks[b], types, indexes) is Ok) by {
        storage::law_picked_columns(blocks[b], types, indexes);
    }
}

/// What is read by a sort is what is read below it, and by a cross product what is
/// read on both sides. A filter over a sort reads what the sort does.
pub proof fn law_readable_queries(
    ps: Seq<PredicateView>,
    specs: Seq<SortSpecView>,
    u: OpView,
    v: OpView,
    db: Database,
)
    ensures
        outcome::legible(OpView::Sort(specs, Box::new(u)), db) == outcome::legible(u, db),
        outcome::legible(OpView::Cross(Box::new(u), Box::new(v)), db) == (outcome::legible(u, db)
            && outcome::legible(v, db)),
        outcome::legible(OpView::Filter(ps, Box::new(OpView::Sort(specs, Box::new(u)))), db)
            == outcome::legible(u, db),
{
    let sort = OpView::Sort(specs, Box::new(u));
    assert(!semantics::is_pipeline(sort));
    assert(!semantics::is_pipeline(OpView::Filter(ps, Box::new(sort))));
    assert(!semantics::is_pipeline(OpView::Cross(Box::new(u), Box::new(v))));
}

/// Blocks are given back by every query but one that filters the join of something
/// else than tables.
pub proof fn law_blocks_are_given_back(
    id: Seq<char>,
    ps: Seq<PredicateView>,
    map: Seq<(Seq<char>, Seq<char>)>,
    specs: Seq<SortSpecView>,
    u: OpView,
    v: OpView,
)
    ensures
        outcome::gives_back(OpView::Scan(id)),
        outcome::gives_back(OpView::Project(map, Box::new(u))) == outcome::gives_back(u),
        outcome::gives_back(OpView::Sort(specs, Box::new(u))) == outcome::gives_back(u),
        outcome::gives_back(OpView::Cross(Box::new(u), Box::new(v))) == (outcome::gives_back(u)
            && outcome::gives_back(v)),
        outcome::gives_back(OpView::Filter(ps, Box::new(OpView::Scan(id)))),
        outcome::gives_back(OpView::Filter(ps, Box::new(OpView::Sort(specs, Box::new(u)))))
            == outcome::gives_back(u),
        over_a_table(u) && over_a_table(v) ==> outcome::gives_back(
            OpView::Filter(ps, Box::new(OpView::Cross(Box::new(u), Box::new(v)))),
        ),
{
    reveal_with_fuel(outcome::gives_back, 3);
    reveal_with_fuel(outcome::gives_back_filtered, 3);
    if over_a_table(u) && over_a_table(v) {
        crate::laws::answers::law_over_a_table(u);
        crate::laws::answers::law_over_a_table(v);
    }
}

/// The size of a block is what the device told, or what the line says that it is
/// about to tell, if that is a number of 64 bits.
pub proof fn law_told_sizes<R: Input, W: Output>(disk: DiskClient<R, W>, n: nat)
    ensures
        disk.known_block_size() matches Some(size) ==> disk.told_size() == Some(size),
        disk.known_block_size() is None ==> {
            let line = io::first_line(disk.pending());
            &&& vstd::utf8::valid_utf8(line) && text::reply_number(vstd::utf8::decode_utf8(line))
                == Some(n) && n <= u64::MAX ==> disk.told_size() == Some(n as u64)
            &&& !vstd::utf8::valid_utf8(line) ==> disk.told_size() is None
            &&& text::reply_number(vstd::utf8::decode_utf8(line)) is None ==> disk.told_size() is None
            &&& text::reply_number(vstd::utf8::decode_utf8(line)) == Some(n) && n > u64::MAX
                ==> disk.told_size() is None
        },
{
}

} // verus!
