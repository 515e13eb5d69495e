//! What queries answer.

use vstd::prelude::*;

use crate::bag;
use crate::catalog::table::{ColumnView, TableSpec};
use crate::data::DataValue;
use crate::error::DbError;
use crate::executor::outcome;
use crate::executor::value;
use crate::laws::catalog;
use crate::laws::catalog::{first_named, means};
use crate::laws::values;
use crate::laws::values::{answers, goes_first};
use crate::query::{ComparisionOperator, ComparisionValue, OpView, OperandView, PredicateView, QueryOp, SortSpecView};
use crate::query_support;
use crate::row;
use crate::semantics;
use crate::semantics::{Database, RowView};

verus! {

/// A literal stands for the value that it is written as, of the type that it is
/// written as, and a name for a column.
pub proof fn law_literals(v: ComparisionValue)
    ensures
        v matches ComparisionValue::I32(x) ==> v@ == OperandView::Literal(DataValue::Int32(x)),
        v matches ComparisionValue::I64(x) ==> v@ == OperandView::Literal(DataValue::Int64(x)),
        v matches ComparisionValue::F32(b, _) ==> v@ == OperandView::Literal(
            DataValue::Float32(b),
        ),
        v matches ComparisionValue::F64(b, _) ==> v@ == OperandView::Literal(
            DataValue::Float64(b),
        ),
        v matches ComparisionValue::String(s) ==> v@ == OperandView::Literal(DataValue::Text(s@)),
        v matches ComparisionValue::Column(c) ==> v@ == OperandView::Column(c@),
{
}

/// What a query is made of: its predicates with their columns, operators and right
/// sides, its sort columns with their directions, its old and new names, in the
/// order in which they stand, and the queries below.
pub proof fn law_queries(op: QueryOp, i: int)
    ensures
        op matches QueryOp::Scan(s) ==> op@ == OpView::Scan(s.table_id@),
        op matches QueryOp::Filter(f) ==> (op@ matches OpView::Filter(ps, u) && {
            &&& *u == f.underlying@
            &&& ps.len() == f.predicates@.len()
            &&& 0 <= i < ps.len() ==> {
                &&& ps[i].column == f.predicates@[i].column_name@
                &&& ps[i].operator == f.predicates@[i].operator
                &&& ps[i].value == f.predicates@[i].value@
            }
        }),
        op matches QueryOp::Project(p) ==> (op@ matches OpView::Project(map, u) && {
            &&& *u == p.underlying@
            &&& map.len() == p.column_name_map@.len()
            &&& 0 <= i < map.len() ==> map[i] == (
                p.column_name_map@[i].0@,
                p.column_name_map@[i].1@,
            )
        }),
        op matches QueryOp::Cross(c) ==> (op@ matches OpView::Cross(l, r) && *l == c.left@ && *r
            == c.right@),
        op matches QueryOp::Sort(s) ==> (op@ matches OpView::Sort(specs, u) && {
            &&& *u == s.underlying@
            &&& specs.len() == s.sort_specs@.len()
            &&& 0 <= i < specs.len() ==> {
                &&& specs[i].column == s.sort_specs@[i].column_name@
                &&& specs[i].ascending == s.sort_specs@[i].ascending
            }
        }),
{
}

/// A row meets a predicate on named columns: the comparison of the value that it
/// has in the first column of the name with the literal, or with the value in the
/// first column of the other name, answers yes.
pub open spec fn row_meets(row: RowView, columns: Seq<ColumnView>, p: PredicateView) -> bool {
    exists|l: int|
        {
            &&& #[trigger] first_named(columns, p.column, l)
            &&& l < row.len()
            &&& match p.value {
                OperandView::Literal(v) => answers(row[l], p.operator, v, true),
                OperandView::Column(other) => exists|r: int|
                    {
                        &&& #[trigger] first_named(columns, other, r)
                        &&& r < row.len()
                        &&& answers(row[l], p.operator, row[r], true)
                    },
            }
        }
}

/// A row meets every one of the predicates.
pub open spec fn row_meets_all(
    row: RowView,
    columns: Seq<ColumnView>,
    ps: Seq<PredicateView>,
) -> bool {
    forall|i: int| 0 <= i < ps.len() ==> row_meets(row, columns, #[trigger] ps[i])
}

proof fn lemma_row_meets(row: RowView, columns: Seq<ColumnView>, p: PredicateView)
    requires
        semantics::predicate_known(columns, p),
    ensures
        row_meets(row, columns, p) <==> semantics::meets(row, semantics::compiled(columns, p)),
{
    let l = row::column_index(columns, p.column)->0;
    catalog::law_names_of_columns(columns, p.column, l);
    assert(first_named(columns, p.column, l));
    if let OperandView::Column(other) = p.value {
        let r = row::column_index(columns, other)->0;
        catalog::law_names_of_columns(columns, other, r);
        assert(first_named(columns, other, r));
    }
    if row_meets(row, columns, p) {
        let k = choose|k: int|
            {
                &&& #[trigger] first_named(columns, p.column, k)
                &&& k < row.len()
                &&& match p.value {
                    OperandView::Literal(v) => answers(row[k], p.operator, v, true),
                    OperandView::Column(other) => exists|r: int|
                        {
                            &&& #[trigger] first_named(columns, other, r)
                            &&& r < row.len()
                            &&& answers(row[k], p.operator, row[r], true)
                        },
                }
            };
        catalog::law_names_of_columns(columns, p.column, k);
        if let OperandView::Column(other) = p.value {
            let r = choose|r: int|
                {
                    &&& #[trigger] first_named(columns, other, r)
                    &&& r < row.len()
                    &&& answers(row[k], p.operator, row[r], true)
                };
            catalog::law_names_of_columns(columns, other, r);
        }
    }
}

proof fn lemma_row_meets_all(row: RowView, columns: Seq<ColumnView>, ps: Seq<PredicateView>)
    requires
        semantics::all_known(columns, ps),
    ensures
        row_meets_all(row, columns, ps) <==> semantics::holds(
            row,
            semantics::compiled_all(columns, ps),
        ),
{
    let cs = semantics::compiled_all(columns, ps);
    assert forall|i: int| 0 <= i < ps.len() implies (row_meets(row, columns, #[trigger] ps[i])
        <==> semantics::meets(row, cs[i])) by {
        lemma_row_meets(row, columns, ps[i]);
    }
    if row_meets_all(row, columns, ps) {
        assert forall|i: int| 0 <= i < cs.len() implies semantics::meets(row, #[trigger] cs[i]) by {
            assert(row_meets(row, columns, ps[i]));
        }
    }
    if semantics::holds(row, cs) {
        assert forall|i: int| 0 <= i < ps.len() implies row_meets(
            row,
            columns,
            #[trigger] ps[i],
        ) by {
            assert(semantics::meets(row, cs[i]));
        }
    }
}

proof fn lemma_filter(rows: Seq<RowView>, columns: Seq<ColumnView>, ps: Seq<PredicateView>)
    requires
        semantics::all_known(columns, ps),
    ensures
        semantics::filter_rows(rows, semantics::compiled_all(columns, ps)) == rows.filter(
            |row: RowView| row_meets_all(row, columns, ps),
        ),
    decreases rows.len(),
{
    reveal(Seq::filter);
    if rows.len() > 0 {
        lemma_filter(rows.drop_last(), columns, ps);
        lemma_row_meets_all(rows.last(), columns, ps);
    }
}

/// The name is that of a column.
pub open spec fn is_name(columns: Seq<ColumnView>, name: Seq<char>) -> bool {
    exists|c: int| 0 <= c < columns.len() && (#[trigger] columns[c]).name == name
}

/// Every name is that of a column.
pub open spec fn named(columns: Seq<ColumnView>, names: Seq<Seq<char>>) -> bool {
    forall|i: int| 0 <= i < names.len() ==> is_name(columns, #[trigger] names[i])
}

/// A scan gives the rows of the first table that the id means: those that its
/// blocks hold.
pub proof fn law_scan(id: Seq<char>, db: Database, k: int, rows: Seq<RowView>)
    requires
        0 <= k < db.tables.len(),
        means(db.tables[k], id),
        forall|j: int| 0 <= j < k ==> !means(#[trigger] db.tables[j], id),
        semantics::file_rows(
            db.layout.file_blocks(db.tables[k].file_id@),
            row::types_of(db.tables[k].columns()),
        ) == Ok::<Seq<RowView>, DbError>(rows),
    ensures
        semantics::rows_of(OpView::Scan(id), db) == rows,
        query_support::schema_of(OpView::Scan(id), db.tables) == Ok::<Seq<ColumnView>, DbError>(
            db.tables[k].columns(),
        ),
        semantics::op_known(OpView::Scan(id), db.tables),
{
    catalog::law_names_of_tables(db.tables, id, k);
}

/// A filter leaves the rows that meet all of its predicates, in their order and
/// each as often as it was there, and their columns as they are.
pub proof fn law_filter(ps: Seq<PredicateView>, u: OpView, db: Database)
    requires
        semantics::op_known(OpView::Filter(ps, Box::new(u)), db.tables),
    ensures
        ({
            let columns = query_support::schema_of(u, db.tables)->Ok_0;
            let op = OpView::Filter(ps, Box::new(u));
            &&& semantics::rows_of(op, db) == semantics::rows_of(u, db).filter(
                |row: RowView| row_meets_all(row, columns, ps),
            )
            &&& query_support::schema_of(op, db.tables) == query_support::schema_of(u, db.tables)
        }),
{
    lemma_filter(
        semantics::rows_of(u, db),
        query_support::schema_of(u, db.tables)->Ok_0,
        ps,
    );
}

/// A projection makes one row of each, with the values of the first columns that
/// have the old names, and calls them by the new ones.
pub proof fn law_project(
    map: Seq<(Seq<char>, Seq<char>)>,
    u: OpView,
    db: Database,
    i: int,
    c: int,
    k: int,
)
    requires
        semantics::op_known(OpView::Project(map, Box::new(u)), db.tables),
        0 <= i < semantics::rows_of(u, db).len(),
        0 <= c < map.len(),
        first_named(query_support::schema_of(u, db.tables)->Ok_0, map[c].0, k),
    ensures
        ({
            let op = OpView::Project(map, Box::new(u));
            let out = semantics::rows_of(op, db);
            let columns = query_support::schema_of(op, db.tables)->Ok_0;
            &&& out.len() == semantics::rows_of(u, db).len()
            &&& out[i].len() == map.len()
            &&& out[i][c] == semantics::rows_of(u, db)[i][k]
            &&& query_support::schema_of(op, db.tables) is Ok
            &&& columns.len() == map.len()
            &&& columns[c].name == map[c].1
            &&& columns[c].data_type == (query_support::schema_of(
                u,
                db.tables,
            )->Ok_0)[k].data_type
        }),
{
    semantics::lemma_known_schema(u, db.tables);
    catalog::law_names_of_columns(query_support::schema_of(u, db.tables)->Ok_0, map[c].0, k);
}

proof fn lemma_cross(lefts: Seq<RowView>, rights: Seq<RowView>, i: int, j: int)
    requires
        0 <= i < lefts.len(),
        0 <= j < rights.len(),
    ensures
        semantics::cross_rows(lefts, rights).len() == lefts.len() * rights.len(),
        0 <= i * rights.len() + j < lefts.len() * rights.len(),
        semantics::cross_rows(lefts, rights)[i * rights.len() + j] == lefts[i] + rights[j],
    decreases lefts.len(),
{
    let n = rights.len() as int;
    let front = lefts.drop_last();
    let before = semantics::cross_rows(front, rights);
    lemma_cross_len(front, rights);
    assert(lefts.len() * n == front.len() * n + n) by (nonlinear_arith)
        requires
            lefts.len() == front.len() + 1,
    ;
    if i < lefts.len() - 1 {
        lemma_cross(front, rights, i, j);
        assert(front[i] == lefts[i]);
    } else {
        assert(i == front.len());
        assert(0 <= i * n) by (nonlinear_arith)
            requires
                0 <= i,
                0 <= n,
        ;
    }
}

proof fn lemma_cross_len(lefts: Seq<RowView>, rights: Seq<RowView>)
    ensures
        semantics::cross_rows(lefts, rights).len() == lefts.len() * rights.len(),
    decreases lefts.len(),
{
    if lefts.len() > 0 {
        let front = lefts.drop_last();
        lemma_cross_len(front, rights);
        assert(lefts.len() * rights.len() == front.len() * rights.len() + rights.len())
            by (nonlinear_arith)
            requires
                lefts.len() == front.len() + 1,
        ;
    } else {
        assert(lefts.len() * rights.len() == 0) by (nonlinear_arith)
            requires
                lefts.len() == 0,
        ;
    }
}

/// A cross product puts each row of the left side before each of the right, and
/// has the columns of the left and then those of the right.
pub proof fn law_cross(l: OpView, r: OpView, db: Database, i: int, j: int)
    requires
        semantics::op_known(OpView::Cross(Box::new(l), Box::new(r)), db.tables),
    ensures
        ({
            let op = OpView::Cross(Box::new(l), Box::new(r));
            let (a, b) = (semantics::rows_of(l, db), semantics::rows_of(r, db));
            &&& semantics::rows_of(op, db).len() == a.len() * b.len()
            &&& 0 <= i < a.len() && 0 <= j < b.len() ==> semantics::rows_of(op, db)[i * b.len()
                + j] == a[i] + b[j]
            &&& query_support::schema_of(op, db.tables) == Ok::<Seq<ColumnView>, DbError>(
                (query_support::schema_of(l, db.tables)->Ok_0) + (query_support::schema_of(
                    r,
                    db.tables,
                )->Ok_0),
            )
        }),
{
    semantics::lemma_known_schema(l, db.tables);
    semantics::lemma_known_schema(r, db.tables);
    let (a, b) = (semantics::rows_of(l, db), semantics::rows_of(r, db));
    lemma_cross_len(a, b);
    if 0 <= i < a.len() && 0 <= j < b.len() {
        lemma_cross(a, b, i, j);
    }
}

/// A sort neither adds rows nor takes any away, and leaves their columns as they
/// are.
pub proof fn law_sort(specs: Seq<SortSpecView>, u: OpView, db: Database)
    ensures
        semantics::rows_of(OpView::Sort(specs, Box::new(u)), db) == semantics::rows_of(u, db),
        query_support::schema_of(OpView::Sort(specs, Box::new(u)), db.tables)
            == query_support::schema_of(u, db.tables),
{
}

/// What an operator names is there just where what it is made on names it: a table,
/// the columns of predicates, the old names of a projection, and sort columns.
pub proof fn law_known_names(
    tables: Seq<TableSpec>,
    id: Seq<char>,
    ps: Seq<PredicateView>,
    map: Seq<(Seq<char>, Seq<char>)>,
    specs: Seq<SortSpecView>,
    u: OpView,
    v: OpView,
)
    ensures
        semantics::op_known(OpView::Scan(id), tables) <==> exists|k: int|
            0 <= k < tables.len() && means(#[trigger] tables[k], id),
        semantics::op_known(OpView::Filter(ps, Box::new(u)), tables) <==> {
            let columns = query_support::schema_of(u, tables)->Ok_0;
            &&& semantics::op_known(u, tables)
            &&& named(columns, Seq::new(ps.len(), |i: int| ps[i].column))
            &&& forall|i: int|
                0 <= i < ps.len() ==> ((#[trigger] ps[i]).value matches OperandView::Column(other)
                    ==> named(columns, seq![other]))
        },
        semantics::op_known(OpView::Project(map, Box::new(u)), tables) <==> {
            &&& semantics::op_known(u, tables)
            &&& named(
                query_support::schema_of(u, tables)->Ok_0,
                Seq::new(map.len(), |i: int| map[i].0),
            )
        },
        semantics::op_known(OpView::Cross(Box::new(u), Box::new(v)), tables) <==> {
            semantics::op_known(u, tables) && semantics::op_known(v, tables)
        },
        semantics::op_known(OpView::Sort(specs, Box::new(u)), tables) <==> {
            &&& semantics::op_known(u, tables)
            &&& named(
                query_support::schema_of(u, tables)->Ok_0,
                Seq::new(specs.len(), |i: int| specs[i].column),
            )
        },
{
    catalog::law_names_of_tables(tables, id, 0);
    let columns = query_support::schema_of(u, tables)->Ok_0;
    let pnames = Seq::new(ps.len(), |i: int| ps[i].column);
    let mnames = Seq::new(map.len(), |i: int| map[i].0);
    let snames = Seq::new(specs.len(), |i: int| specs[i].column);
    lemma_named(columns, pnames);
    lemma_named(columns, mnames);
    lemma_named(columns, snames);
    assert forall|i: int| 0 <= i < ps.len() implies ((#[trigger] ps[i]).value
        matches OperandView::Column(other) ==> (named(columns, seq![other])
        <==> query_support::has_column(columns, other))) by {
        if let OperandView::Column(other) = ps[i].value {
            lemma_named(columns, seq![other]);
            assert(seq![other][0] == other);
        }
    }
    if semantics::all_known(columns, ps) {
        assert forall|i: int| 0 <= i < pnames.len() implies query_support::has_column(
            columns,
            #[trigger] pnames[i],
        ) by {
            assert(semantics::predicate_known(columns, ps[i]));
        }
        assert forall|i: int| 0 <= i < ps.len() implies ((#[trigger] ps[i]).value
            matches OperandView::Column(other) ==> named(columns, seq![other])) by {
            assert(semantics::predicate_known(columns, ps[i]));
        }
    }
    if named(columns, pnames) && (forall|i: int|
        0 <= i < ps.len() ==> ((#[trigger] ps[i]).value matches OperandView::Column(other)
            ==> named(columns, seq![other]))) {
        assert forall|i: int| 0 <= i < ps.len() implies semantics::predicate_known(
            columns,
            #[trigger] ps[i],
        ) by {
            assert(query_support::has_column(columns, pnames[i]));
        }
    }
    if row::map_known(columns, map) {
        assert forall|i: int| 0 <= i < mnames.len() implies query_support::has_column(
            columns,
            #[trigger] mnames[i],
        ) by {
            assert(map[i].0 == mnames[i]);
        }
    }
    if named(columns, mnames) {
        assert forall|i: int| 0 <= i < map.len() implies row::column_index(
            columns,
            (#[trigger] map[i]).0,
        ) is Some by {
            assert(query_support::has_column(columns, mnames[i]));
        }
    }
    if semantics::sort_known(columns, specs) {
        assert forall|i: int| 0 <= i < snames.len() implies query_support::has_column(
            columns,
            #[trigger] snames[i],
        ) by {
            assert(specs[i].column == snames[i]);
        }
    }
    if named(columns, snames) {
        assert forall|i: int| 0 <= i < specs.len() implies query_support::has_column(
            columns,
            (#[trigger] specs[i]).column,
        ) by {
            assert(query_support::has_column(columns, snames[i]));
        }
    }
}

proof fn lemma_named(columns: Seq<ColumnView>, names: Seq<Seq<char>>)
    ensures
        named(columns, names) <==> forall|i: int|
            0 <= i < names.len() ==> query_support::has_column(columns, #[trigger] names[i]),
{
    assert forall|i: int| 0 <= i < names.len() implies (query_support::has_column(
        columns,
        #[trigger] names[i],
    ) <==> is_name(columns, names[i])) by {
        catalog::law_names_of_columns(columns, names[i], 0);
    }
}

/// An operator on the rows of one table, in which nothing is sorted.
pub open spec fn over_a_table(op: OpView) -> bool
    decreases op,
{
    match op {
        OpView::Scan(_) => true,
        OpView::Filter(_, u) => over_a_table(*u),
        OpView::Project(_, u) => over_a_table(*u),
        OpView::Cross(_, _) => false,
        OpView::Sort(_, _) => false,
    }
}

/// Filters and projections over a table are all that is run row by row.
pub proof fn law_over_a_table(op: OpView)
    ensures
        over_a_table(op) <==> semantics::is_pipeline(op),
    decreases op,
{
    match op {
        OpView::Filter(_, u) => law_over_a_table(*u),
        OpView::Project(_, u) => law_over_a_table(*u),
        _ => {},
    }
}

/// What is handed out is the rows of the query, no more and no fewer, and of a
/// query on one table that sorts nothing they come in the order of the table.
pub proof fn law_answers(op: OpView, db: Database, out: Seq<RowView>)
    requires
        semantics::delivers(op, db, out),
    ensures
        out.to_multiset() == semantics::rows_of(op, db).to_multiset(),
        over_a_table(op) ==> out == semantics::rows_of(op, db),
{
    law_over_a_table(op);
}

/// Rows are handed out behind those that were before, which stay as they are.
pub proof fn law_handed_out(
    op: OpView,
    db: Database,
    before: Seq<RowView>,
    after: Seq<RowView>,
)
    requires
        outcome::executed(op, db, before, after),
    ensures
        before.len() <= after.len(),
        after.take(before.len() as int) == before,
        semantics::delivers(op, db, after.skip(before.len() as int)),
        after.skip(before.len() as int).to_multiset() == semantics::rows_of(op, db).to_multiset(),
{
    let out = choose|out: Seq<RowView>| #[trigger]
        semantics::delivers(op, db, out) && after == before + out;
    assert(after.take(before.len() as int) =~= before);
    assert(after.skip(before.len() as int) =~= out);
    law_answers(op, db, out);
}

/// Any two of the rows have an order on the column: texts, or numbers of which
/// none is a NaN.
pub open spec fn orderly(rows: Seq<RowView>, c: int) -> bool {
    ||| forall|i: int| 0 <= i < rows.len() ==> (#[trigger] rows[i])[c] is Text
    ||| forall|i: int|
        0 <= i < rows.len() ==> !((#[trigger] rows[i])[c] is Text) && !values::nan(rows[i][c])
}

proof fn lemma_among(out: Seq<RowView>, rows: Seq<RowView>, i: int)
    requires
        bag::bag(out) == bag::bag(rows),
        0 <= i < out.len(),
    ensures
        rows.contains(out[i]),
{
    assert(out.contains(out[i]));
    bag::lemma_bag_contains(out, out[i]);
    bag::lemma_bag_contains(rows, out[i]);
}

/// The rows of a sorted query come in the order of its columns: of two rows that
/// have the same values in the first sort columns, the later one is not smaller on
/// the next column where that one is ascending, and not greater where it is
/// descending.
pub proof fn law_sorted_answers(
    specs: Seq<SortSpecView>,
    u: OpView,
    db: Database,
    out: Seq<RowView>,
    places: Seq<int>,
    i: int,
    j: int,
    k: int,
)
    requires
        semantics::delivers(OpView::Sort(specs, Box::new(u)), db, out),
        places.len() == specs.len(),
        forall|m: int|
            0 <= m < specs.len() ==> first_named(
                query_support::schema_of(u, db.tables)->Ok_0,
                (#[trigger] specs[m]).column,
                places[m],
            ),
        forall|m: int|
            0 <= m < specs.len() ==> orderly(semantics::rows_of(u, db), #[trigger] places[m]),
        0 <= i < j < out.len(),
        0 <= k < specs.len(),
        forall|m: int|
            0 <= m < k ==> answers(
                out[i][#[trigger] places[m]],
                ComparisionOperator::EQ,
                out[j][places[m]],
                true,
            ),
    ensures
        specs[k].ascending ==> answers(
            out[i][places[k]],
            ComparisionOperator::LTE,
            out[j][places[k]],
            true,
        ),
        !specs[k].ascending ==> answers(
            out[i][places[k]],
            ComparisionOperator::GTE,
            out[j][places[k]],
            true,
        ),
{
    let columns = query_support::schema_of(u, db.tables)->Ok_0;
    let keys = semantics::sort_keys(columns, specs);
    let rows = semantics::rows_of(u, db);
    assert forall|m: int| 0 <= m < specs.len() implies (#[trigger] keys[m]).index == places[m] by {
        assert(first_named(columns, specs[m].column, places[m]));
        catalog::law_names_of_columns(columns, specs[m].column, places[m]);
    }
    assert forall|x: int, y: int|
        0 <= x < rows.len() && 0 <= y < rows.len() implies semantics::comparable_rows(
        #[trigger] rows[x],
        #[trigger] rows[y],
        keys,
    ) by {
        assert forall|m: int| 0 <= m < keys.len() implies value::order(
            rows[x][(#[trigger] keys[m]).index],
            rows[y][keys[m].index],
        ) is Some by {
            assert(orderly(rows, places[m]));
            values::law_incomparable_values(rows[x][places[m]], rows[y][places[m]]);
        }
    }
    assert(semantics::comparable(rows, keys));
    assert(semantics::sorted(out, keys));
    assert(!(semantics::row_order(out[i], out[j], keys) is Greater));
    values::law_rows_are_ordered(out[i], out[j], keys);
    assert forall|m: int| 0 <= m < k implies !goes_first(
        out[i][(#[trigger] keys[m]).index],
        out[j][keys[m].index],
        keys[m].ascending,
    ) && !goes_first(out[j][keys[m].index], out[i][keys[m].index], keys[m].ascending) by {
        assert(answers(
            out[i][places[m]],
            ComparisionOperator::EQ,
            out[j][places[m]],
            true,
        ));
        values::law_operators_agree(out[i][places[m]], out[j][places[m]]);
    }
    let (a, b) = (out[i][places[k]], out[j][places[k]]);
    if goes_first(b, a, keys[k].ascending) {
        assert(goes_first(
            out[j][keys[k].index],
            out[i][keys[k].index],
            keys[k].ascending,
        ));
        assert(values::row_goes_first(out[j], out[i], keys));
    }
    lemma_among(out, rows, i);
    lemma_among(out, rows, j);
    let x = choose|x: int| 0 <= x < rows.len() && rows[x] == out[i];
    let y = choose|y: int| 0 <= y < rows.len() && rows[y] == out[j];
    assert(orderly(rows, places[k]));
    values::law_incomparable_values(rows[x][places[k]], rows[y][places[k]]);
    values::law_operators_agree(a, b);
}

/// A sort by one descending column never rises from a row to a later one, texts
/// among that, and one by an ascending column never falls.
pub proof fn law_sort_by_one_column(
    name: Seq<char>,
    ascending: bool,
    u: OpView,
    db: Database,
    out: Seq<RowView>,
    c: int,
    i: int,
    j: int,
)
    requires
        semantics::delivers(
            OpView::Sort(seq![SortSpecView { column: name, ascending }], Box::new(u)),
            db,
            out,
        ),
        first_named(query_support::schema_of(u, db.tables)->Ok_0, name, c),
        orderly(semantics::rows_of(u, db), c),
        0 <= i < j < out.len(),
    ensures
        ascending ==> answers(out[i][c], ComparisionOperator::GT, out[j][c], false),
        !ascending ==> answers(out[i][c], ComparisionOperator::LT, out[j][c], false),
{
    let specs = seq![SortSpecView { column: name, ascending }];
    law_sorted_answers(specs, u, db, out, seq![c], i, j, 0);
    values::law_operators_agree(out[i][c], out[j][c]);
}

/// A filter or a projection over a sort keeps its order: what comes out is what
/// the filter leaves, or the projection makes, of rows in the order of the sort.
pub proof fn law_order_is_kept(
    ps: Seq<PredicateView>,
    map: Seq<(Seq<char>, Seq<char>)>,
    specs: Seq<SortSpecView>,
    u: OpView,
    db: Database,
    out: Seq<RowView>,
)
    ensures
        ({
            let sort = OpView::Sort(specs, Box::new(u));
            let columns = query_support::schema_of(u, db.tables)->Ok_0;
            let filter = OpView::Filter(ps, Box::new(sort));
            semantics::op_known(filter, db.tables) && semantics::delivers(filter, db, out)
                ==> exists|rows: Seq<RowView>| #[trigger]
                semantics::delivers(sort, db, rows) && out == rows.filter(
                    |row: RowView| row_meets_all(row, columns, ps),
                )
        }),
        ({
            let sort = OpView::Sort(specs, Box::new(u));
            let columns = query_support::schema_of(u, db.tables)->Ok_0;
            let project = OpView::Project(map, Box::new(sort));
            semantics::op_known(project, db.tables) && semantics::delivers(project, db, out)
                ==> exists|rows: Seq<RowView>| #[trigger]
                semantics::delivers(sort, db, rows) && out.len() == rows.len() && forall|
                    i: int,
                    c: int,
                    k: int,
                |
                    #![trigger out[i][c], first_named(columns, map[c].0, k)]
                    0 <= i < out.len() && 0 <= c < map.len() && first_named(columns, map[c].0, k)
                        ==> out[i][c] == rows[i][k]
        }),
{
    let sort = OpView::Sort(specs, Box::new(u));
    let columns = query_support::schema_of(u, db.tables)->Ok_0;
    let filter = OpView::Filter(ps, Box::new(sort));
    let project = OpView::Project(map, Box::new(sort));
    assert(query_support::schema_of(sort, db.tables) == query_support::schema_of(u, db.tables));
    if semantics::op_known(filter, db.tables) && semantics::delivers(filter, db, out) {
        assert(semantics::is_sorted_chain(sort));
        assert(semantics::is_sorted_chain(filter));
        let cs = semantics::compiled_all(columns, ps);
        let rows = choose|rows: Seq<RowView>| #[trigger]
            semantics::is_filtered(out, rows, cs) && semantics::delivers(sort, db, rows);
        lemma_filter(rows, columns, ps);
        assert(semantics::delivers(sort, db, rows));
    }
    if semantics::op_known(project, db.tables) && semantics::delivers(project, db, out) {
        assert(semantics::is_sorted_chain(sort));
        assert(semantics::is_sorted_chain(project));
        let indexes = row::map_indexes(columns, map);
        let rows = choose|rows: Seq<RowView>| #[trigger]
            semantics::is_projected(out, rows, indexes) && semantics::delivers(sort, db, rows);
        assert forall|i: int, c: int, k: int|
            #![trigger out[i][c], first_named(columns, map[c].0, k)]
            0 <= i < out.len() && 0 <= c < map.len() && first_named(
                columns,
                map[c].0,
                k,
            ) implies out[i][c] == rows[i][k] by {
            catalog::law_names_of_columns(columns, map[c].0, k);
        }
        assert(semantics::delivers(sort, db, rows));
    }
}

} // verus!
