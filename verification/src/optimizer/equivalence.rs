//! When an operator may stand in the place of another.

use vstd::prelude::*;

use crate::bag;
use crate::catalog::table::{ColumnView, TableSpec};
use crate::executor::outcome;
use crate::executor::sink;
use crate::executor::rewrite;
use crate::optimizer::duplicates;
use crate::query::{OpView, OperandView, PredicateView, SortSpecView};
use crate::query_support;
use crate::row;
use crate::scan_pipeline;
use crate::semantics;
use crate::semantics::{Database, RowView, SortKey};

verus! {

broadcast use semantics::lemma_all_sound;

/// No two columns have the same name.
pub open spec fn distinct_names(columns: Seq<ColumnView>) -> bool {
    forall|i: int, j: int|
        0 <= i < j < columns.len() ==> (#[trigger] columns[i]).name != (#[trigger] columns[j]).name
}

/// Of the predicates in a set, only those that are alike have the same key.
#[verifier::opaque]
pub open spec fn keys_tell(g: Set<PredicateView>) -> bool {
    forall|p: PredicateView, q: PredicateView| #[trigger]
        g.contains(p) && #[trigger] g.contains(q) && duplicates::key_of(p) == duplicates::key_of(q)
            ==> duplicates::alike(p, q)
}

/// All of the predicates are in the set.
pub open spec fn among(ps: Seq<PredicateView>, g: Set<PredicateView>) -> bool {
    forall|i: int| 0 <= i < ps.len() ==> g.contains(#[trigger] ps[i])
}

/// What predicates of the set become below a projection is in the set.
#[verifier::opaque]
pub open spec fn moves_within(map: Seq<(Seq<char>, Seq<char>)>, g: Set<PredicateView>) -> bool {
    forall|p: PredicateView|
        g.contains(p) && #[trigger] rewrite::remapped_predicate(p, map) is Some ==> g.contains(
            rewrite::remapped_predicate(p, map)->0,
        )
}

/// The columns of an operator.
pub open spec fn cols(op: OpView, tables: Seq<TableSpec>) -> Seq<ColumnView> {
    query_support::schema_of(op, tables)->Ok_0
}

/// The columns of an operator and of all below it are told apart by their
/// names. Its predicates, and what becomes of them below its projections, are in
/// the set.
pub open spec fn told_apart(op: OpView, tables: Seq<TableSpec>, g: Set<PredicateView>) -> bool
    decreases op,
{
    &&& distinct_names(cols(op, tables))
    &&& match op {
        OpView::Scan(_) => true,
        OpView::Filter(ps, u) => among(ps, g) && told_apart(*u, tables, g),
        OpView::Project(map, u) => moves_within(map, g) && told_apart(*u, tables, g),
        OpView::Cross(l, r) => told_apart(*l, tables, g) && told_apart(*r, tables, g),
        OpView::Sort(_, u) => told_apart(*u, tables, g),
    }
}

/// An operator whose names are there, each for one thing, and whose predicates
/// are told apart by their keys.
pub open spec fn clear(op: OpView, tables: Seq<TableSpec>, g: Set<PredicateView>) -> bool {
    semantics::op_known(op, tables) && told_apart(op, tables, g) && keys_tell(g)
}

/// The same columns, perhaps in another order.
pub open spec fn same_columns(a: Seq<ColumnView>, b: Seq<ColumnView>) -> bool {
    &&& a.len() == b.len()
    &&& forall|i: int|
        0 <= i < a.len() ==> {
            &&& query_support::has_column(b, (#[trigger] a[i]).name)
            &&& b[row::column_index(b, a[i].name)->0].data_type == a[i].data_type
        }
    &&& forall|i: int| 0 <= i < b.len() ==> query_support::has_column(a, (#[trigger] b[i]).name)
}

/// Where the columns `to` stand among the columns `from`.
pub open spec fn places(from: Seq<ColumnView>, to: Seq<ColumnView>) -> Seq<int> {
    Seq::new(to.len(), |i: int| row::column_index(from, to[i].name)->0)
}

/// Rows of one operator with their columns in the order of another's.
pub open spec fn turned(
    rows: Seq<RowView>,
    from: OpView,
    to: OpView,
    tables: Seq<TableSpec>,
) -> Seq<RowView> {
    semantics::project_rows(rows, places(cols(from, tables), cols(to, tables)))
}

/// Whether all rows of an operator come from one table.
pub open spec fn joins_nothing(op: OpView) -> bool
    decreases op,
{
    match op {
        OpView::Scan(_) => true,
        OpView::Filter(_, u) => joins_nothing(*u),
        OpView::Project(_, u) => joins_nothing(*u),
        OpView::Cross(_, _) => false,
        OpView::Sort(_, u) => joins_nothing(*u),
    }
}

/// Every right answer of `b`, with its columns in the order of those of `a`, is
/// a right answer of `a`. Where the rows of `a` come from one table, its columns
/// are in the same order.
#[verifier::opaque]
pub open spec fn stands_for(b: OpView, a: OpView, db: Database, g: Set<PredicateView>) -> bool {
    &&& clear(b, db.tables, g)
    &&& same_columns(cols(a, db.tables), cols(b, db.tables))
    &&& joins_nothing(a) ==> joins_nothing(b) && cols(b, db.tables) == cols(a, db.tables)
    &&& semantics::is_pipeline(a) ==> semantics::is_pipeline(b)
    &&& bag::bag(turned(semantics::rows_of(b, db), b, a, db.tables)) == bag::bag(
        semantics::rows_of(a, db),
    )
    &&& forall|out: Seq<RowView>| #[trigger]
        semantics::delivers(b, db, out) ==> semantics::delivers(
            a,
            db,
            turned(out, b, a, db.tables),
        )
}

/// The place of a name among turned columns.
pub proof fn lemma_place(from: Seq<ColumnView>, to: Seq<ColumnView>, name: Seq<char>)
    requires
        same_columns(to, from),
        query_support::has_column(to, name),
    ensures
        query_support::has_column(from, name),
        0 <= row::column_index(to, name)->0 < to.len(),
        0 <= row::column_index(from, name)->0 < from.len(),
        places(from, to)[row::column_index(to, name)->0] == row::column_index(from, name)->0,
        from[row::column_index(from, name)->0].data_type == to[row::column_index(
            to,
            name,
        )->0].data_type,
{
    row::lemma_column_index(to, name);
    let i = row::column_index(to, name)->0;
    assert(query_support::has_column(from, to[i].name));
    row::lemma_column_index(from, name);
}

/// Places lie among the columns.
pub proof fn lemma_places(from: Seq<ColumnView>, to: Seq<ColumnView>)
    requires
        same_columns(to, from),
    ensures
        scan_pipeline::indexes_below(places(from, to), from.len() as int),
{
    assert forall|i: int| 0 <= i < places(from, to).len() implies 0 <= #[trigger] places(
        from,
        to,
    )[i] < from.len() by {
        assert(query_support::has_column(from, to[i].name));
        row::lemma_column_index(from, to[i].name);
    }
}

/// A column with a name that no other has stands where the name says.
pub proof fn lemma_own_place(columns: Seq<ColumnView>, i: int)
    requires
        distinct_names(columns),
        0 <= i < columns.len(),
    ensures
        row::column_index(columns, columns[i].name) == Some(i),
{
    assert forall|j: int| 0 <= j < i implies (#[trigger] columns[j]).name != columns[i].name by {}
    row::lemma_column_index_is(columns, columns[i].name, i);
}

/// Columns are the same as themselves, and stand in their places.
pub proof fn lemma_same_self(columns: Seq<ColumnView>)
    requires
        distinct_names(columns),
    ensures
        same_columns(columns, columns),
        places(columns, columns) == scan_pipeline::identity(columns.len()),
{
    assert forall|i: int| 0 <= i < columns.len() implies row::column_index(
        columns,
        (#[trigger] columns[i]).name,
    ) == Some(i) by {
        lemma_own_place(columns, i);
    }
    assert(places(columns, columns) =~= scan_pipeline::identity(columns.len()));
}

/// Columns of the same names in another order have distinct names too.
pub proof fn lemma_same_distinct(a: Seq<ColumnView>, b: Seq<ColumnView>)
    requires
        same_columns(a, b),
        distinct_names(a),
    ensures
        distinct_names(b),
    decreases a.len(),
{
    // Taking the column of a name away on both sides leaves the same names.
    assert forall|i: int, j: int| 0 <= i < j < b.len() implies (#[trigger] b[i]).name != (
    #[trigger] b[j]).name by {
        if b[i].name == b[j].name {
            let places_a = places(b, a);
            lemma_places(b, a);
            // The places of the names of `a` in `b` are all different, and none
            // is `j`, where the name of `i` would come first.
            assert forall|x: int, y: int| 0 <= x < y < places_a.len() implies places_a[x]
                != places_a[y] by {
                assert(query_support::has_column(b, a[x].name));
                assert(query_support::has_column(b, a[y].name));
                row::lemma_column_index(b, a[x].name);
                row::lemma_column_index(b, a[y].name);
            }
            assert forall|x: int| 0 <= x < places_a.len() implies places_a[x] != j by {
                assert(query_support::has_column(b, a[x].name));
                row::lemma_column_index(b, a[x].name);
            }
            lemma_too_few(places_a, b.len() as int, j);
        }
    }
}

/// Different numbers below a bound, one of which is left out, are fewer.
proof fn lemma_too_few(s: Seq<int>, n: int, hole: int)
    requires
        0 <= hole < n,
        scan_pipeline::indexes_below(s, n),
        forall|x: int, y: int| 0 <= x < y < s.len() ==> s[x] != s[y],
        forall|x: int| 0 <= x < s.len() ==> s[x] != hole,
    ensures
        s.len() < n,
{
    s.unique_seq_to_set();
    let all = vstd::set_lib::set_int_range(0, n);
    vstd::set_lib::lemma_int_range(0, n);
    let mine = s.to_set();
    assert(mine.subset_of(all.remove(hole))) by {
        assert forall|v: int| mine.contains(v) implies all.remove(hole).contains(v) by {
            let x = choose|x: int| 0 <= x < s.len() && s[x] == v;
            assert(0 <= s[x] < n);
        }
    }
    vstd::set_lib::lemma_len_subset(mine, all.remove(hole));
}

/// A predicate says of a turned row what it says of the row.
proof fn lemma_turned_predicate(
    from: Seq<ColumnView>,
    to: Seq<ColumnView>,
    p: PredicateView,
    r: RowView,
)
    requires
        same_columns(to, from),
        semantics::predicate_known(to, p),
        r.len() == from.len(),
    ensures
        semantics::predicate_known(from, p),
        semantics::meets(row::project_row(r, places(from, to)), semantics::compiled(to, p))
            == semantics::meets(r, semantics::compiled(from, p)),
{
    lemma_place(from, to, p.column);
    if let OperandView::Column(other) = p.value {
        lemma_place(from, to, other);
    }
}

/// Predicates on columns are predicates on the turned columns.
pub proof fn lemma_turned_known(
    from: Seq<ColumnView>,
    to: Seq<ColumnView>,
    ps: Seq<PredicateView>,
)
    requires
        same_columns(to, from),
        semantics::all_known(to, ps),
    ensures
        semantics::all_known(from, ps),
{
    assert forall|i: int| 0 <= i < ps.len() implies semantics::predicate_known(
        from,
        #[trigger] ps[i],
    ) by {
        assert(semantics::predicate_known(to, ps[i]));
        lemma_place(from, to, ps[i].column);
        if let OperandView::Column(other) = ps[i].value {
            lemma_place(from, to, other);
        }
    }
}

/// Predicates hold of a turned row where they hold of the row.
pub proof fn lemma_turned_holds(
    from: Seq<ColumnView>,
    to: Seq<ColumnView>,
    ps: Seq<PredicateView>,
    r: RowView,
)
    requires
        same_columns(to, from),
        semantics::all_known(to, ps),
        r.len() == from.len(),
    ensures
        semantics::holds(
            row::project_row(r, places(from, to)),
            semantics::compiled_all(to, ps),
        ) == semantics::holds(r, semantics::compiled_all(from, ps)),
{
    let t = row::project_row(r, places(from, to));
    let a = semantics::compiled_all(to, ps);
    let b = semantics::compiled_all(from, ps);
    assert forall|i: int| 0 <= i < ps.len() implies semantics::meets(t, #[trigger] a[i])
        == semantics::meets(r, b[i]) by {
        assert(semantics::predicate_known(to, ps[i]));
        lemma_turned_predicate(from, to, ps[i], r);
    }
    if semantics::holds(t, a) {
        assert forall|i: int| 0 <= i < b.len() implies semantics::meets(r, #[trigger] b[i]) by {
            assert(semantics::meets(t, a[i]));
        }
    }
    if semantics::holds(r, b) {
        assert forall|i: int| 0 <= i < a.len() implies semantics::meets(t, #[trigger] a[i]) by {
            assert(semantics::meets(r, b[i]));
        }
    }
}

/// Filters agree on rows that are images of each other, if they hold of the
/// images where they hold of the rows.
pub proof fn lemma_filter_images(
    rows: Seq<RowView>,
    indexes: Seq<int>,
    a: Seq<semantics::CompiledView>,
    b: Seq<semantics::CompiledView>,
)
    requires
        forall|i: int|
            0 <= i < rows.len() ==> semantics::holds(
                row::project_row(#[trigger] rows[i], indexes),
                a,
            ) == semantics::holds(rows[i], b),
    ensures
        semantics::filter_rows(semantics::project_rows(rows, indexes), a)
            == semantics::project_rows(semantics::filter_rows(rows, b), indexes),
    decreases rows.len(),
{
    let images = semantics::project_rows(rows, indexes);
    if rows.len() == 0 {
        assert(semantics::filter_rows(images, a) =~= semantics::project_rows(
            semantics::filter_rows(rows, b),
            indexes,
        ));
    } else {
        let front = rows.drop_last();
        let r = rows.last();
        assert forall|i: int| 0 <= i < front.len() implies semantics::holds(
            row::project_row(#[trigger] front[i], indexes),
            a,
        ) == semantics::holds(front[i], b) by {
            assert(front[i] == rows[i]);
        }
        lemma_filter_images(front, indexes, a, b);
        assert(images.drop_last() =~= semantics::project_rows(front, indexes));
        assert(rows[rows.len() - 1] == r);
        let kept = semantics::filter_rows(front, b);
        assert(semantics::project_rows(kept.push(r), indexes) =~= semantics::project_rows(
            kept,
            indexes,
        ).push(row::project_row(r, indexes)));
    }
}

/// Filtering turned rows is turning filtered rows.
pub proof fn lemma_turned_filter(
    from: Seq<ColumnView>,
    to: Seq<ColumnView>,
    ps: Seq<PredicateView>,
    rows: Seq<RowView>,
)
    requires
        same_columns(to, from),
        semantics::all_known(to, ps),
        semantics::all_wide(rows, from.len()),
    ensures
        semantics::filter_rows(
            semantics::project_rows(rows, places(from, to)),
            semantics::compiled_all(to, ps),
        ) == semantics::project_rows(
            semantics::filter_rows(rows, semantics::compiled_all(from, ps)),
            places(from, to),
        ),
{
    assert forall|i: int| 0 <= i < rows.len() implies semantics::holds(
        row::project_row(#[trigger] rows[i], places(from, to)),
        semantics::compiled_all(to, ps),
    ) == semantics::holds(rows[i], semantics::compiled_all(from, ps)) by {
        lemma_turned_holds(from, to, ps, rows[i]);
    }
    lemma_filter_images(
        rows,
        places(from, to),
        semantics::compiled_all(to, ps),
        semantics::compiled_all(from, ps),
    );
}

/// Picking columns of turned rows is picking them of the rows.
pub proof fn lemma_turned_project(
    from: Seq<ColumnView>,
    to: Seq<ColumnView>,
    map: Seq<(Seq<char>, Seq<char>)>,
    rows: Seq<RowView>,
)
    requires
        same_columns(to, from),
        row::map_known(to, map),
    ensures
        row::map_known(from, map),
        row::map_columns(from, map) == row::map_columns(to, map),
        semantics::project_rows(
            semantics::project_rows(rows, places(from, to)),
            row::map_indexes(to, map),
        ) == semantics::project_rows(rows, row::map_indexes(from, map)),
{
    let picks = row::map_indexes(to, map);
    assert forall|i: int| 0 <= i < map.len() implies {
        &&& query_support::has_column(from, (#[trigger] map[i]).0)
        &&& 0 <= picks[i] < to.len()
        &&& places(from, to)[picks[i]] == row::map_indexes(from, map)[i]
        &&& row::map_columns(from, map)[i] == row::map_columns(to, map)[i]
    } by {
        assert(row::column_index(to, map[i].0) is Some);
        lemma_place(from, to, map[i].0);
    }
    assert(scan_pipeline::indexes_below(picks, places(from, to).len() as int)) by {
        assert forall|i: int| 0 <= i < picks.len() implies 0 <= #[trigger] picks[i] < places(
            from,
            to,
        ).len() by {
            assert(query_support::has_column(from, map[i].0));
        }
    }
    scan_pipeline::lemma_project_composed(rows, places(from, to), picks);
    assert(scan_pipeline::composed(places(from, to), picks) =~= row::map_indexes(from, map)) by {
        assert forall|i: int| 0 <= i < map.len() implies scan_pipeline::composed(
            places(from, to),
            picks,
        )[i] == row::map_indexes(from, map)[i] by {
            assert(query_support::has_column(from, map[i].0));
        }
    }
    assert(row::map_columns(from, map) =~= row::map_columns(to, map));
}

/// The order of images by keys is that of the rows by the keys' sources.
pub proof fn lemma_order_images(
    a: RowView,
    b: RowView,
    indexes: Seq<int>,
    keys: Seq<SortKey>,
    sources: Seq<SortKey>,
)
    requires
        keys.len() == sources.len(),
        forall|k: int|
            0 <= k < keys.len() ==> {
                &&& 0 <= (#[trigger] keys[k]).index < indexes.len()
                &&& indexes[keys[k].index] == sources[k].index
                &&& keys[k].ascending == sources[k].ascending
            },
    ensures
        semantics::row_order(row::project_row(a, indexes), row::project_row(b, indexes), keys)
            == semantics::row_order(a, b, sources),
        semantics::comparable_rows(
            row::project_row(a, indexes),
            row::project_row(b, indexes),
            keys,
        ) == semantics::comparable_rows(a, b, sources),
    decreases keys.len(),
{
    let x = row::project_row(a, indexes);
    let y = row::project_row(b, indexes);
    if semantics::comparable_rows(x, y, keys) {
        assert forall|k: int| 0 <= k < sources.len() implies crate::executor::value::order(
            a[(#[trigger] sources[k]).index],
            b[sources[k].index],
        ) is Some by {
            assert(crate::executor::value::order(x[keys[k].index], y[keys[k].index]) is Some);
        }
    }
    if semantics::comparable_rows(a, b, sources) {
        assert forall|k: int| 0 <= k < keys.len() implies crate::executor::value::order(
            x[(#[trigger] keys[k]).index],
            y[keys[k].index],
        ) is Some by {
            assert(crate::executor::value::order(a[sources[k].index], b[sources[k].index])
                is Some);
        }
    }
    if keys.len() > 0 {
        assert(indexes[keys[0].index] == sources[0].index);
        let k1 = keys.skip(1);
        let s1 = sources.skip(1);
        assert forall|k: int| 0 <= k < k1.len() implies {
            &&& 0 <= (#[trigger] k1[k]).index < indexes.len()
            &&& indexes[k1[k].index] == s1[k].index
            &&& k1[k].ascending == s1[k].ascending
        } by {
            assert(k1[k] == keys[k + 1]);
        }
        lemma_order_images(a, b, indexes, k1, s1);
    }
}

/// Turned rows are in order by sort columns where the rows are.
pub proof fn lemma_turned_sorted(
    from: Seq<ColumnView>,
    to: Seq<ColumnView>,
    specs: Seq<SortSpecView>,
    rows: Seq<RowView>,
)
    requires
        same_columns(to, from),
        semantics::sort_known(to, specs),
    ensures
        semantics::sort_known(from, specs),
        semantics::sorted(
            semantics::project_rows(rows, places(from, to)),
            semantics::sort_keys(to, specs),
        ) == semantics::sorted(rows, semantics::sort_keys(from, specs)),
        semantics::comparable(
            semantics::project_rows(rows, places(from, to)),
            semantics::sort_keys(to, specs),
        ) == semantics::comparable(rows, semantics::sort_keys(from, specs)),
{
    let keys = semantics::sort_keys(to, specs);
    let sources = semantics::sort_keys(from, specs);
    let indexes = places(from, to);
    let images = semantics::project_rows(rows, indexes);
    assert forall|k: int| 0 <= k < keys.len() implies {
        &&& 0 <= (#[trigger] keys[k]).index < indexes.len()
        &&& indexes[keys[k].index] == sources[k].index
        &&& keys[k].ascending == sources[k].ascending
    } by {
        assert(query_support::has_column(to, specs[k].column));
        lemma_place(from, to, specs[k].column);
    }
    assert(semantics::sort_known(from, specs)) by {
        assert forall|k: int| 0 <= k < specs.len() implies query_support::has_column(
            from,
            (#[trigger] specs[k]).column,
        ) by {
            assert(query_support::has_column(to, specs[k].column));
            lemma_place(from, to, specs[k].column);
        }
    }
    lemma_images_sorted(rows, indexes, keys, sources);
}

/// Images are in order by keys where the rows are by the keys' sources.
pub proof fn lemma_images_sorted(
    rows: Seq<RowView>,
    indexes: Seq<int>,
    keys: Seq<SortKey>,
    sources: Seq<SortKey>,
)
    requires
        keys.len() == sources.len(),
        forall|k: int|
            0 <= k < keys.len() ==> {
                &&& 0 <= (#[trigger] keys[k]).index < indexes.len()
                &&& indexes[keys[k].index] == sources[k].index
                &&& keys[k].ascending == sources[k].ascending
            },
    ensures
        semantics::sorted(semantics::project_rows(rows, indexes), keys) == semantics::sorted(
            rows,
            sources,
        ),
        semantics::comparable(semantics::project_rows(rows, indexes), keys)
            == semantics::comparable(rows, sources),
{
    let images = semantics::project_rows(rows, indexes);
    assert forall|i: int, j: int|
        0 <= i < rows.len() && 0 <= j < rows.len() implies semantics::row_order(
        #[trigger] images[i],
        #[trigger] images[j],
        keys,
    ) == semantics::row_order(rows[i], rows[j], sources) && semantics::comparable_rows(
        images[i],
        images[j],
        keys,
    ) == semantics::comparable_rows(rows[i], rows[j], sources) by {
        lemma_order_images(rows[i], rows[j], indexes, keys, sources);
    }
    if semantics::sorted(images, keys) {
        assert forall|i: int, j: int| 0 <= i < j < rows.len() implies !(semantics::row_order(
            #[trigger] rows[i],
            #[trigger] rows[j],
            sources,
        ) is Greater) by {
            assert(!(semantics::row_order(images[i], images[j], keys) is Greater));
        }
    }
    if semantics::sorted(rows, sources) {
        assert forall|i: int, j: int| 0 <= i < j < images.len() implies !(semantics::row_order(
            #[trigger] images[i],
            #[trigger] images[j],
            keys,
        ) is Greater) by {
            assert(!(semantics::row_order(rows[i], rows[j], sources) is Greater));
        }
    }
    if semantics::comparable(images, keys) {
        assert forall|i: int, j: int|
            0 <= i < rows.len() && 0 <= j < rows.len() implies semantics::comparable_rows(
            #[trigger] rows[i],
            #[trigger] rows[j],
            sources,
        ) by {
            assert(semantics::comparable_rows(images[i], images[j], keys));
        }
    }
    if semantics::comparable(rows, sources) {
        assert forall|i: int, j: int|
            0 <= i < images.len() && 0 <= j < images.len() implies semantics::comparable_rows(
            #[trigger] images[i],
            #[trigger] images[j],
            keys,
        ) by {
            assert(semantics::comparable_rows(rows[i], rows[j], sources));
        }
    }
}

/// The rows of an operator over sound tables are as wide as its columns are
/// many.
pub proof fn lemma_rows_wide(op: OpView, db: Database)
    requires
        semantics::all_sound(db),
        semantics::op_known(op, db.tables),
    ensures
        query_support::schema_of(op, db.tables) is Ok,
        semantics::all_wide(semantics::rows_of(op, db), cols(op, db.tables).len()),
{
    semantics::lemma_known_schema(op, db.tables);
    outcome::lemma_rows_conform(op, db);
    sink::lemma_conform_wide(semantics::rows_of(op, db), row::types_of(cols(op, db.tables)));
}

/// Right answers are as wide.
pub proof fn lemma_answer_wide(op: OpView, db: Database, out: Seq<RowView>)
    requires
        semantics::all_sound(db),
        semantics::op_known(op, db.tables),
        bag::bag(out) == bag::bag(semantics::rows_of(op, db)),
    ensures
        semantics::all_wide(out, cols(op, db.tables).len()),
{
    lemma_rows_wide(op, db);
    let n = cols(op, db.tables).len();
    bag::lemma_bag_forall(semantics::rows_of(op, db), out, |r: RowView| r.len() == n);
}

/// An operator stands for itself.
pub proof fn lemma_stands_self(a: OpView, db: Database, g: Set<PredicateView>)
    requires
        semantics::all_sound(db),
        clear(a, db.tables, g),
    ensures
        stands_for(a, a, db, g),
{
    reveal(stands_for);
    let c = cols(a, db.tables);
    lemma_same_self(c);
    lemma_rows_wide(a, db);
    scan_pipeline::lemma_project_identity(semantics::rows_of(a, db), c.len());
    assert forall|out: Seq<RowView>| #[trigger]
        semantics::delivers(a, db, out) implies semantics::delivers(
        a,
        db,
        turned(out, a, a, db.tables),
    ) by {
        lemma_answer_wide(a, db, out);
        scan_pipeline::lemma_project_identity(out, c.len());
    }
}

/// Turning twice is turning once.
pub proof fn lemma_turned_twice(
    rows: Seq<RowView>,
    a: Seq<ColumnView>,
    b: Seq<ColumnView>,
    c: Seq<ColumnView>,
)
    requires
        same_columns(a, b),
        same_columns(b, c),
    ensures
        same_columns(a, c),
        semantics::project_rows(semantics::project_rows(rows, places(c, b)), places(b, a))
            == semantics::project_rows(rows, places(c, a)),
{
    lemma_places(b, a);
    scan_pipeline::lemma_project_composed(rows, places(c, b), places(b, a));
    assert forall|i: int| 0 <= i < a.len() implies {
        &&& query_support::has_column(c, (#[trigger] a[i]).name)
        &&& c[row::column_index(c, a[i].name)->0].data_type == a[i].data_type
        &&& scan_pipeline::composed(places(c, b), places(b, a))[i] == places(c, a)[i]
    } by {
        assert(query_support::has_column(b, a[i].name));
        lemma_place(c, b, a[i].name);
    }
    assert forall|i: int| 0 <= i < c.len() implies query_support::has_column(
        a,
        (#[trigger] c[i]).name,
    ) by {
        assert(query_support::has_column(b, c[i].name));
        let j = row::column_index(b, c[i].name)->0;
        row::lemma_column_index(b, c[i].name);
        assert(query_support::has_column(a, b[j].name));
    }
    assert(scan_pipeline::composed(places(c, b), places(b, a)) =~= places(c, a)) by {
        assert forall|i: int| 0 <= i < a.len() implies scan_pipeline::composed(
            places(c, b),
            places(b, a),
        )[i] == places(c, a)[i] by {
            assert(query_support::has_column(c, a[i].name));
        }
    }
}

/// What stands for an operator is clear, and reads one table or is a pipeline
/// where the operator does or is.
pub proof fn lemma_stands_clear(b: OpView, a: OpView, db: Database, g: Set<PredicateView>)
    requires
        stands_for(b, a, db, g),
    ensures
        clear(b, db.tables, g),
        joins_nothing(a) ==> joins_nothing(b) && cols(b, db.tables) == cols(a, db.tables),
        semantics::is_pipeline(a) ==> semantics::is_pipeline(b),
{
    reveal(stands_for);
}

/// What stands for an operator has its columns, and its right answers.
pub proof fn lemma_stands_answer(b: OpView, a: OpView, db: Database, out: Seq<RowView>, g: Set<PredicateView>)
    requires
        stands_for(b, a, db, g),
    ensures
        same_columns(cols(a, db.tables), cols(b, db.tables)),
        semantics::delivers(b, db, out) ==> semantics::delivers(
            a,
            db,
            turned(out, b, a, db.tables),
        ),
{
    reveal(stands_for);
}

/// Rows whose columns stay in their order stay as they are.
pub proof fn lemma_turned_same(b: OpView, a: OpView, db: Database, out: Seq<RowView>, g: Set<PredicateView>)
    requires
        semantics::all_sound(db),
        clear(b, db.tables, g),
        cols(b, db.tables) == cols(a, db.tables),
        semantics::delivers(b, db, out),
    ensures
        turned(out, b, a, db.tables) == out,
{
    let c = cols(b, db.tables);
    lemma_same_self(c);
    lemma_answer_wide(b, db, out);
    scan_pipeline::lemma_project_identity(out, c.len());
}

/// What stands for an operator that stands for another stands for the other.
pub proof fn lemma_stands_trans(c: OpView, b: OpView, a: OpView, db: Database, g: Set<PredicateView>)
    requires
        stands_for(b, a, db, g),
        stands_for(c, b, db, g),
    ensures
        stands_for(c, a, db, g),
{
    reveal(stands_for);
    let (ca, cb, cc) = (cols(a, db.tables), cols(b, db.tables), cols(c, db.tables));
    let rows = semantics::rows_of(c, db);
    lemma_turned_twice(rows, ca, cb, cc);
    semantics::lemma_project_bag(
        turned(rows, c, b, db.tables),
        semantics::rows_of(b, db),
        places(cb, ca),
    );
    assert forall|out: Seq<RowView>| #[trigger]
        semantics::delivers(c, db, out) implies semantics::delivers(
        a,
        db,
        turned(out, c, a, db.tables),
    ) by {
        lemma_turned_twice(out, ca, cb, cc);
        assert(semantics::delivers(b, db, turned(out, c, b, db.tables)));
    }
    outcome::lemma_pipeline_not_sorted(b);
}

/// Every right answer of `b` is a right answer of `a`.
pub open spec fn answers_too(b: OpView, a: OpView, db: Database) -> bool {
    forall|out: Seq<RowView>| #[trigger]
        semantics::delivers(b, db, out) ==> semantics::delivers(a, db, out)
}

/// An operator with the same columns in the same order stands for another if
/// its right answers are right answers of the other.
pub proof fn lemma_stands_same(b: OpView, a: OpView, db: Database, g: Set<PredicateView>)
    requires
        semantics::all_sound(db),
        clear(b, db.tables, g),
        cols(a, db.tables) == cols(b, db.tables),
        joins_nothing(a) ==> joins_nothing(b),
        semantics::is_pipeline(a) ==> semantics::is_pipeline(b),
        bag::bag(semantics::rows_of(b, db)) == bag::bag(semantics::rows_of(a, db)),
        answers_too(b, a, db),
    ensures
        stands_for(b, a, db, g),
{
    reveal(stands_for);
    let c = cols(b, db.tables);
    lemma_same_self(c);
    lemma_rows_wide(b, db);
    scan_pipeline::lemma_project_identity(semantics::rows_of(b, db), c.len());
    assert forall|out: Seq<RowView>| #[trigger]
        semantics::delivers(b, db, out) implies semantics::delivers(
        a,
        db,
        turned(out, b, a, db.tables),
    ) by {
        lemma_answer_wide(b, db, out);
        scan_pipeline::lemma_project_identity(out, c.len());
    }
}

/// The right answers of an operator that neither is a pipeline nor sorts are
/// its rows in any order.
pub proof fn lemma_unordered(op: OpView, db: Database, out: Seq<RowView>)
    requires
        !semantics::is_pipeline(op),
        !semantics::is_sorted_chain(op),
    ensures
        semantics::delivers(op, db, out) <==> bag::bag(out) == bag::bag(
            semantics::rows_of(op, db),
        ),
{
}

} // verus!
