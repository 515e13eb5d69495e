//! Rewriting a filter leaves its answers right.

use vstd::prelude::*;

use crate::bag;
use crate::catalog::table::ColumnView;
use crate::data::DataValue;
use crate::executor::outcome;
use crate::executor::rewrite;
use crate::number;
use crate::optimizer::congruence;
use crate::optimizer::duplicates;
use crate::optimizer::equivalence;
use crate::optimizer::keys_told;
use crate::optimizer::rules;
use crate::query::{OpView, OperandView, PredicateView, SortSpecView};
use crate::query_support;
use crate::query_support::PredicateSide;
use crate::row;
use crate::scan_pipeline;
use crate::semantics;
use crate::semantics::{CompiledView, Database, RowView, SortKey};

verus! {

broadcast use semantics::lemma_all_sound;

/// Filters that hold of the same rows leave the same rows.
proof fn lemma_filter_agree(rows: Seq<RowView>, a: Seq<CompiledView>, b: Seq<CompiledView>)
    requires
        forall|r: RowView| #[trigger] semantics::holds(r, a) == semantics::holds(r, b),
    ensures
        semantics::filter_rows(rows, a) == semantics::filter_rows(rows, b),
    decreases rows.len(),
{
    if rows.len() > 0 {
        lemma_filter_agree(rows.drop_last(), a, b);
        assert(semantics::holds(rows.last(), a) == semantics::holds(rows.last(), b));
    }
}

/// Predicates that are alike answer the same on every row.
proof fn lemma_alike_meets(
    columns: Seq<ColumnView>,
    p: PredicateView,
    q: PredicateView,
    r: RowView,
)
    requires
        duplicates::alike(p, q),
    ensures
        semantics::meets(r, semantics::compiled(columns, p)) == semantics::meets(
            r,
            semantics::compiled(columns, q),
        ),
{
    reveal(duplicates::alike);
    if p.value != q.value {
        match (p.value, q.value) {
            (
                OperandView::Literal(DataValue::Float32(m)),
                OperandView::Literal(DataValue::Float32(n)),
            ) => {
                lemma_known_32(m);
                lemma_known_32(n);
            },
            (
                OperandView::Literal(DataValue::Float64(m)),
                OperandView::Literal(DataValue::Float64(n)),
            ) => {
                lemma_known_64(m);
                lemma_known_64(n);
            },
            _ => {},
        }
    }
}

/// The bits by which a float is known stand for the same number.
proof fn lemma_known_32(bits: u32)
    ensures
        number::num_32(duplicates::known_bits_32(bits)) == number::num_32(bits),
{
}

/// The bits by which a float is known stand for the same number.
proof fn lemma_known_64(bits: u64)
    ensures
        number::num_64(duplicates::known_bits_64(bits)) == number::num_64(bits),
{
}

/// Predicates that are alike hold of the same rows.
proof fn lemma_same_set_holds(
    columns: Seq<ColumnView>,
    ps: Seq<PredicateView>,
    qs: Seq<PredicateView>,
    r: RowView,
)
    requires
        forall|i: int| 0 <= i < ps.len() ==> duplicates::has_alike(qs, #[trigger] ps[i]),
        semantics::holds(r, semantics::compiled_all(columns, qs)),
    ensures
        semantics::holds(r, semantics::compiled_all(columns, ps)),
{
    let a = semantics::compiled_all(columns, ps);
    let b = semantics::compiled_all(columns, qs);
    assert forall|i: int| 0 <= i < a.len() implies semantics::meets(r, #[trigger] a[i]) by {
        assert(duplicates::has_alike(qs, ps[i]));
        let k = choose|k: int| 0 <= k < qs.len() && duplicates::alike(#[trigger] qs[k], ps[i]);
        assert(semantics::meets(r, b[k]));
        lemma_alike_meets(columns, qs[k], ps[i], r);
    }
}

/// A filter stands for one with predicates that are alike, in any order and
/// number.
pub proof fn lemma_filter_same_set(
    ps: Seq<PredicateView>,
    qs: Seq<PredicateView>,
    u: OpView,
    db: Database,
    g: Set<PredicateView>,
)
    requires
        semantics::all_sound(db),
        equivalence::clear(OpView::Filter(ps, Box::new(u)), db.tables, g),
        forall|i: int| 0 <= i < ps.len() ==> duplicates::has_alike(qs, #[trigger] ps[i]),
        forall|i: int| 0 <= i < qs.len() ==> ps.contains(#[trigger] qs[i]),
    ensures
        equivalence::stands_for(
            OpView::Filter(qs, Box::new(u)),
            OpView::Filter(ps, Box::new(u)),
            db,
            g,
        ),
{
    let a = OpView::Filter(ps, Box::new(u));
    let b = OpView::Filter(qs, Box::new(u));
    let c = equivalence::cols(u, db.tables);
    let pa = semantics::compiled_all(c, ps);
    let pb = semantics::compiled_all(c, qs);
    assert forall|r: RowView| #[trigger]
        semantics::holds(r, pa) == semantics::holds(r, pb) by {
        if semantics::holds(r, pb) {
            lemma_same_set_holds(c, ps, qs, r);
        }
        if semantics::holds(r, pa) {
            assert forall|i: int| 0 <= i < qs.len() implies duplicates::has_alike(
                ps,
                #[trigger] qs[i],
            ) by {
                assert(ps.contains(qs[i]));
                let k = choose|k: int| 0 <= k < ps.len() && ps[k] == qs[i];
                duplicates::lemma_alike_self(qs[i]);
                assert(duplicates::alike(ps[k], qs[i]));
            }
            lemma_same_set_holds(c, qs, ps, r);
        }
    }
    assert forall|i: int| 0 <= i < qs.len() implies semantics::predicate_known(
        c,
        #[trigger] qs[i],
    ) && g.contains(qs[i]) by {
        assert(ps.contains(qs[i]));
        let k = choose|k: int| 0 <= k < ps.len() && ps[k] == qs[i];
        assert(semantics::predicate_known(c, ps[k]));
        assert(g.contains(ps[k]));
    }
    lemma_filter_agree(semantics::rows_of(u, db), pa, pb);
    assert(equivalence::answers_too(b, a, db)) by {
        assert forall|out: Seq<RowView>| #[trigger]
            semantics::delivers(b, db, out) implies semantics::delivers(a, db, out) by {
            if semantics::is_sorted_chain(u) {
                let d = choose|d: Seq<RowView>| #[trigger]
                    semantics::is_filtered(out, d, pb) && semantics::delivers(u, db, d);
                lemma_filter_agree(d, pa, pb);
                assert(semantics::is_filtered(out, d, pa));
            }
        }
    }
    equivalence::lemma_stands_same(b, a, db, g);
}

/// A filter stands for one with predicates that came before.
pub proof fn lemma_filter_distinct(ps: Seq<PredicateView>, u: OpView, db: Database, g: Set<PredicateView>)
    requires
        semantics::all_sound(db),
        equivalence::clear(OpView::Filter(ps, Box::new(u)), db.tables, g),
    ensures
        equivalence::stands_for(
            OpView::Filter(duplicates::distinct_predicates(ps), Box::new(u)),
            OpView::Filter(ps, Box::new(u)),
            db,
            g,
        ),
{
    keys_told::lemma_distinct_alike(ps, g);
    keys_told::lemma_distinct_among(ps);
    lemma_filter_same_set(ps, duplicates::distinct_predicates(ps), u, db, g);
}

/// An operator stands for itself under a filter by nothing.
pub proof fn lemma_wrapped_stands(ps: Seq<PredicateView>, u: OpView, db: Database, g: Set<PredicateView>)
    requires
        semantics::all_sound(db),
        equivalence::clear(OpView::Filter(ps, Box::new(u)), db.tables, g),
    ensures
        equivalence::stands_for(
            rewrite::wrapped(ps, u),
            OpView::Filter(ps, Box::new(u)),
            db,
            g,
        ),
{
    let a = OpView::Filter(ps, Box::new(u));
    if ps.len() == 0 {
        let pa = semantics::compiled_all(equivalence::cols(u, db.tables), ps);
        outcome::lemma_filter_none(semantics::rows_of(u, db), pa);
        assert(equivalence::answers_too(u, a, db)) by {
            assert forall|out: Seq<RowView>| #[trigger]
                semantics::delivers(u, db, out) implies semantics::delivers(a, db, out) by {
                outcome::lemma_filter_none(out, pa);
                outcome::lemma_filter_delivers(ps, u, db, out);
            }
        }
        equivalence::lemma_stands_same(u, a, db, g);
    } else {
        equivalence::lemma_stands_self(a, db, g);
    }
}

/// Filtering twice is filtering once.
proof fn lemma_filter_twice(rows: Seq<RowView>, a: Seq<CompiledView>, b: Seq<CompiledView>)
    ensures
        semantics::filter_rows(semantics::filter_rows(rows, a), b) == semantics::filter_rows(
            rows,
            a + b,
        ),
    decreases rows.len(),
{
    if rows.len() > 0 {
        let front = rows.drop_last();
        let r = rows.last();
        lemma_filter_twice(front, a, b);
        scan_pipeline::lemma_holds_concat(r, a, b);
        if semantics::holds(r, a) {
            semantics::lemma_filter_push(semantics::filter_rows(front, a), r, b);
        }
    }
}

/// A filter stands for two.
pub proof fn lemma_filter_merged(
    ps: Seq<PredicateView>,
    qs: Seq<PredicateView>,
    u: OpView,
    db: Database,
    g: Set<PredicateView>,
)
    requires
        semantics::all_sound(db),
        equivalence::clear(
            OpView::Filter(ps, Box::new(OpView::Filter(qs, Box::new(u)))),
            db.tables,
            g,
        ),
    ensures
        equivalence::stands_for(
            OpView::Filter(qs + ps, Box::new(u)),
            OpView::Filter(ps, Box::new(OpView::Filter(qs, Box::new(u)))),
            db,
            g,
        ),
{
    let below = OpView::Filter(qs, Box::new(u));
    let a = OpView::Filter(ps, Box::new(below));
    let b = OpView::Filter(qs + ps, Box::new(u));
    let c = equivalence::cols(u, db.tables);
    let pp = semantics::compiled_all(c, ps);
    let pq = semantics::compiled_all(c, qs);
    let pb = semantics::compiled_all(c, qs + ps);
    assert(semantics::op_known(below, db.tables));
    assert(equivalence::told_apart(below, db.tables, g));
    assert(equivalence::cols(below, db.tables) == c);
    assert(pb =~= pq + pp);
    assert forall|i: int| 0 <= i < (qs + ps).len() implies semantics::predicate_known(
        c,
        #[trigger] (qs + ps)[i],
    ) && g.contains((qs + ps)[i]) by {
        if i < qs.len() {
            assert(semantics::predicate_known(c, qs[i]));
            assert(g.contains(qs[i]));
        } else {
            assert(semantics::predicate_known(c, ps[i - qs.len()]));
            assert(g.contains(ps[i - qs.len()]));
        }
    }
    lemma_filter_twice(semantics::rows_of(u, db), pq, pp);
    assert(semantics::rows_of(below, db) == semantics::filter_rows(
        semantics::rows_of(u, db),
        pq,
    ));
    assert(semantics::is_pipeline(below) == semantics::is_pipeline(u));
    assert(semantics::is_sorted_chain(below) == semantics::is_sorted_chain(u));
    assert(equivalence::joins_nothing(below) == equivalence::joins_nothing(u));
    assert(equivalence::answers_too(b, a, db)) by {
        assert forall|out: Seq<RowView>| #[trigger]
            semantics::delivers(b, db, out) implies semantics::delivers(a, db, out) by {
            if semantics::is_sorted_chain(u) {
                let d = choose|d: Seq<RowView>| #[trigger]
                    semantics::is_filtered(out, d, pb) && semantics::delivers(u, db, d);
                lemma_filter_twice(d, pq, pp);
                outcome::lemma_filter_delivers(qs, u, db, d);
                outcome::lemma_filter_delivers(ps, below, db, semantics::filter_rows(d, pq));
            }
        }
    }
    equivalence::lemma_stands_same(b, a, db, g);
}

/// Predicates on what a projection makes can be moved below it.
pub proof fn lemma_can_remap(
    columns: Seq<ColumnView>,
    map: Seq<(Seq<char>, Seq<char>)>,
    ps: Seq<PredicateView>,
    g: Set<PredicateView>,
)
    requires
        row::map_known(columns, map),
        semantics::all_known(row::map_columns(columns, map), ps),
        equivalence::among(ps, g),
        equivalence::moves_within(map, g),
    ensures
        rewrite::can_remap(ps, map),
        outcome::all_remapped(ps, rules::moved(ps, map), map),
        semantics::all_known(columns, rules::moved(ps, map)),
        equivalence::among(rules::moved(ps, map), g),
{
    let made = row::map_columns(columns, map);
    let qs = rules::moved(ps, map);
    assert forall|i: int| 0 <= i < ps.len() implies {
        &&& rewrite::remapped_predicate(#[trigger] ps[i], map) is Some
        &&& outcome::remapped(ps[i], qs[i], map)
        &&& semantics::predicate_known(columns, qs[i])
        &&& g.contains(qs[i])
    } by {
        let p = ps[i];
        assert(semantics::predicate_known(made, p));
        assert(g.contains(p));
        reveal(equivalence::moves_within);
        lemma_source_known(columns, map, p.column);
        if let OperandView::Column(other) = p.value {
            lemma_source_known(columns, map, other);
        }
    }
}

/// What a projection makes is picked from a column that is there.
pub proof fn lemma_source_known(
    columns: Seq<ColumnView>,
    map: Seq<(Seq<char>, Seq<char>)>,
    name: Seq<char>,
)
    requires
        row::map_known(columns, map),
        query_support::has_column(row::map_columns(columns, map), name),
    ensures
        rewrite::source_of(map, name) matches Some(from) && {
            &&& outcome::renames(map, name, from)
            &&& query_support::has_column(columns, from)
        },
{
    let made = row::map_columns(columns, map);
    row::lemma_column_index(made, name);
    let k = row::column_index(made, name)->0;
    assert(map[k].1 == name);
    rewrite::lemma_source(map, name);
    let from = rewrite::source_of(map, name)->0;
    let i = choose|i: int|
        0 <= i < map.len() && (#[trigger] map[i]).1 == name && map[i].0 == from && forall|j: int|
            0 <= j < i ==> (#[trigger] map[j]).1 != name;
    assert(row::column_index(columns, map[i].0) is Some);
}

/// The right answers of a projection of a filter are those of the filter of the
/// projection.
proof fn lemma_filter_project_answers(
    ps: Seq<PredicateView>,
    map: Seq<(Seq<char>, Seq<char>)>,
    u: OpView,
    db: Database,
    out: Seq<RowView>,
)
    requires
        semantics::all_sound(db),
        semantics::op_known(OpView::Project(map, Box::new(u)), db.tables),
        outcome::all_remapped(ps, rules::moved(ps, map), map),
    ensures
        ({
            let a = OpView::Filter(ps, Box::new(OpView::Project(map, Box::new(u))));
            let b = OpView::Project(
                map,
                Box::new(OpView::Filter(rules::moved(ps, map), Box::new(u))),
            );
            &&& semantics::rows_of(a, db) == semantics::rows_of(b, db)
            &&& semantics::delivers(a, db, out) <==> semantics::delivers(b, db, out)
        }),
{
    let qs = rules::moved(ps, map);
    let above = OpView::Project(map, Box::new(u));
    let below = OpView::Filter(qs, Box::new(u));
    let a = OpView::Filter(ps, Box::new(above));
    let b = OpView::Project(map, Box::new(below));
    let c = equivalence::cols(u, db.tables);
    semantics::lemma_known_schema(u, db.tables);
    let made = row::map_columns(c, map);
    assert(equivalence::cols(above, db.tables) == made);
    assert(equivalence::cols(below, db.tables) == c);
    let picks = row::map_indexes(c, map);
    let pa = semantics::compiled_all(made, ps);
    let pb = semantics::compiled_all(c, qs);
    equivalence::lemma_rows_wide(u, db);
    outcome::lemma_filter_project(c, map, ps, qs, semantics::rows_of(u, db));
    assert(semantics::is_pipeline(below) == semantics::is_pipeline(u));
    assert(semantics::is_sorted_chain(below) == semantics::is_sorted_chain(u));
    assert(semantics::is_pipeline(above) == semantics::is_pipeline(u));
    assert(semantics::is_sorted_chain(above) == semantics::is_sorted_chain(u));
    assert(semantics::rows_of(above, db) == semantics::project_rows(
        semantics::rows_of(u, db),
        picks,
    ));
    assert(semantics::rows_of(below, db) == semantics::filter_rows(semantics::rows_of(u, db), pb));
    if semantics::is_sorted_chain(u) {
        if semantics::delivers(b, db, out) {
            let d = choose|d: Seq<RowView>| #[trigger]
                semantics::is_projected(out, d, picks) && semantics::delivers(below, db, d);
            let e = choose|e: Seq<RowView>| #[trigger]
                semantics::is_filtered(d, e, pb) && semantics::delivers(u, db, e);
            equivalence::lemma_answer_wide(u, db, e);
            outcome::lemma_filter_project(c, map, ps, qs, e);
            outcome::lemma_project_delivers(map, u, db, e);
            outcome::lemma_filter_delivers(ps, above, db, semantics::project_rows(e, picks));
        }
        if semantics::delivers(a, db, out) {
            let d = choose|d: Seq<RowView>| #[trigger]
                semantics::is_filtered(out, d, pa) && semantics::delivers(above, db, d);
            let e = choose|e: Seq<RowView>| #[trigger]
                semantics::is_projected(d, e, picks) && semantics::delivers(u, db, e);
            equivalence::lemma_answer_wide(u, db, e);
            outcome::lemma_filter_project(c, map, ps, qs, e);
            outcome::lemma_filter_delivers(qs, u, db, e);
            outcome::lemma_project_delivers(map, below, db, semantics::filter_rows(e, pb));
        }
    }
}

/// A projection of a filter stands for the filter of the projection, and the
/// other way round.
pub proof fn lemma_filter_over_project(
    ps: Seq<PredicateView>,
    map: Seq<(Seq<char>, Seq<char>)>,
    u: OpView,
    db: Database,
    g: Set<PredicateView>,
)
    requires
        semantics::all_sound(db),
        equivalence::clear(
            OpView::Filter(ps, Box::new(OpView::Project(map, Box::new(u)))),
            db.tables,
            g,
        ),
    ensures
        rewrite::can_remap(ps, map),
        equivalence::stands_for(
            OpView::Project(map, Box::new(OpView::Filter(rules::moved(ps, map), Box::new(u)))),
            OpView::Filter(ps, Box::new(OpView::Project(map, Box::new(u)))),
            db,
            g,
        ),
        equivalence::stands_for(
            OpView::Filter(ps, Box::new(OpView::Project(map, Box::new(u)))),
            OpView::Project(map, Box::new(OpView::Filter(rules::moved(ps, map), Box::new(u)))),
            db,
            g,
        ),
{
    let qs = rules::moved(ps, map);
    let above = OpView::Project(map, Box::new(u));
    let below = OpView::Filter(qs, Box::new(u));
    let a = OpView::Filter(ps, Box::new(above));
    let b = OpView::Project(map, Box::new(below));
    let c = equivalence::cols(u, db.tables);
    assert(semantics::op_known(above, db.tables));
    assert(equivalence::told_apart(above, db.tables, g));
    semantics::lemma_known_schema(u, db.tables);
    let made = row::map_columns(c, map);
    assert(equivalence::cols(above, db.tables) == made);
    lemma_can_remap(c, map, ps, g);
    assert(equivalence::told_apart(u, db.tables, g));
    assert(equivalence::cols(below, db.tables) == c);
    assert(equivalence::clear(below, db.tables, g));
    assert(equivalence::cols(b, db.tables) == made);
    assert(equivalence::clear(b, db.tables, g));
    assert(semantics::is_pipeline(below) == semantics::is_pipeline(u));
    assert(semantics::is_sorted_chain(below) == semantics::is_sorted_chain(u));
    assert(semantics::is_pipeline(above) == semantics::is_pipeline(u));
    assert(semantics::is_sorted_chain(above) == semantics::is_sorted_chain(u));
    assert(equivalence::joins_nothing(above) == equivalence::joins_nothing(u));
    assert(equivalence::joins_nothing(below) == equivalence::joins_nothing(u));
    lemma_filter_project_answers(ps, map, u, db, Seq::empty());
    assert(equivalence::answers_too(b, a, db) && equivalence::answers_too(a, b, db)) by {
        assert forall|out: Seq<RowView>|
            semantics::delivers(b, db, out) == semantics::delivers(a, db, out) by {
            lemma_filter_project_answers(ps, map, u, db, out);
        }
    }
    equivalence::lemma_stands_same(b, a, db, g);
    equivalence::lemma_stands_same(a, b, db, g);
}

/// A row put between others.
spec fn put(rows: Seq<RowView>, k: int, x: RowView) -> Seq<RowView> {
    rows.take(k).push(x) + rows.skip(k)
}

/// A row that does not meet predicates can be put anywhere.
proof fn lemma_put(rows: Seq<RowView>, k: int, x: RowView, ps: Seq<CompiledView>)
    requires
        0 <= k <= rows.len(),
        !semantics::holds(x, ps),
    ensures
        semantics::filter_rows(put(rows, k, x), ps) == semantics::filter_rows(rows, ps),
        bag::bag(put(rows, k, x)) == bag::bag(rows).insert(x),
{
    let (a, b) = (rows.take(k), rows.skip(k));
    assert(a + b =~= rows);
    semantics::lemma_filter_concat(a.push(x), b, ps);
    semantics::lemma_filter_concat(a, b, ps);
    semantics::lemma_filter_push(a, x, ps);
    bag::lemma_bag_concat(a.push(x), b);
    bag::lemma_bag_concat(a, b);
    bag::lemma_bag_push(a, x);
    assert(bag::bag(put(rows, k, x)) =~= bag::bag(rows).insert(x));
}

/// The rows before the first that a row should come before.
spec fn behind(rows: Seq<RowView>, x: RowView, keys: Seq<SortKey>) -> int
    decreases rows.len(),
{
    if rows.len() == 0 {
        0
    } else if semantics::row_order(rows[0], x, keys) is Greater {
        0
    } else {
        1 + behind(rows.skip(1), x, keys)
    }
}

/// A row has a place among sorted rows.
proof fn lemma_behind(rows: Seq<RowView>, x: RowView, keys: Seq<SortKey>)
    ensures
        0 <= behind(rows, x, keys) <= rows.len(),
        forall|i: int|
            0 <= i < behind(rows, x, keys) ==> !(semantics::row_order(#[trigger] rows[i], x, keys)
                is Greater),
        behind(rows, x, keys) < rows.len() ==> semantics::row_order(
            rows[behind(rows, x, keys)],
            x,
            keys,
        ) is Greater,
    decreases rows.len(),
{
    if rows.len() > 0 && !(semantics::row_order(rows[0], x, keys) is Greater) {
        let rest = rows.skip(1);
        lemma_behind(rest, x, keys);
        assert forall|i: int| 0 <= i < behind(rows, x, keys) implies !(semantics::row_order(
            #[trigger] rows[i],
            x,
            keys,
        ) is Greater) by {
            if i > 0 {
                assert(rest[i - 1] == rows[i]);
            }
        }
    }
}

/// A row comes before all behind its place.
proof fn lemma_before_rest(rows: Seq<RowView>, x: RowView, keys: Seq<SortKey>, i: int)
    requires
        semantics::sorted(rows, keys),
        semantics::comparable(rows.push(x), keys),
        behind(rows, x, keys) <= i < rows.len(),
    ensures
        !(semantics::row_order(x, rows[i], keys) is Greater),
{
    let k = behind(rows, x, keys);
    let all = rows.push(x);
    let y = rows[k];
    lemma_behind(rows, x, keys);
    semantics::lemma_row_order_reverse(y, x, keys);
    if i > k {
        assert(all[all.len() - 1] == x && all[k] == y && all[i] == rows[i]);
        assert(semantics::comparable_rows(all[all.len() - 1], all[k], keys));
        assert(semantics::comparable_rows(all[k], all[i], keys));
        assert(!(semantics::row_order(rows[k], rows[i], keys) is Greater));
        semantics::lemma_row_order_transitive(x, y, rows[i], keys);
    }
}

/// Two rows of sorted ones with one more in its place, which is not the first of
/// the two.
proof fn lemma_put_others(rows: Seq<RowView>, k: int, x: RowView, keys: Seq<SortKey>, i: int, j: int)
    requires
        semantics::sorted(rows, keys),
        0 <= k <= rows.len(),
        0 <= i < j <= rows.len(),
        i != k,
        i < k ==> !(semantics::row_order(rows[i], x, keys) is Greater),
    ensures
        !(semantics::row_order(put(rows, k, x)[i], put(rows, k, x)[j], keys) is Greater),
{
    let out = put(rows, k, x);
    if j == k {
        assert(out[j] == x && out[i] == rows[i]);
    } else {
        let a: int = if i < k {
            i
        } else {
            i - 1
        };
        let b: int = if j < k {
            j
        } else {
            j - 1
        };
        assert(out[i] == rows[a]);
        assert(out[j] == rows[b]);
        assert(!(semantics::row_order(rows[a], rows[b], keys) is Greater));
    }
}

/// Sorted rows with one more in its place are sorted.
proof fn lemma_put_sorted(rows: Seq<RowView>, x: RowView, keys: Seq<SortKey>)
    requires
        semantics::sorted(rows, keys),
        semantics::comparable(rows.push(x), keys),
    ensures
        semantics::sorted(put(rows, behind(rows, x, keys), x), keys),
{
    let out = put(rows, behind(rows, x, keys), x);
    assert(out.len() == rows.len() + 1) by {
        lemma_behind(rows, x, keys);
    }
    assert forall|i: int, j: int| 0 <= i < j < out.len() implies !(semantics::row_order(
        #[trigger] out[i],
        #[trigger] out[j],
        keys,
    ) is Greater) by {
        let k = behind(rows, x, keys);
        lemma_behind(rows, x, keys);
        if i == k {
            assert(out[j] == rows[j - 1]);
            lemma_before_rest(rows, x, keys, j - 1);
        } else {
            lemma_put_others(rows, k, x, keys, i, j);
        }
    }
}

/// Rows that do not meet predicates can be put between sorted ones that do.
proof fn lemma_put_all(
    met: Seq<RowView>,
    rest: Seq<RowView>,
    ps: Seq<CompiledView>,
    keys: Seq<SortKey>,
) -> (all: Seq<RowView>)
    requires
        forall|i: int| 0 <= i < rest.len() ==> !semantics::holds(#[trigger] rest[i], ps),
        semantics::comparable(met + rest, keys) ==> semantics::sorted(met, keys),
    ensures
        bag::bag(all) == bag::bag(met).add(bag::bag(rest)),
        semantics::filter_rows(all, ps) == semantics::filter_rows(met, ps),
        semantics::comparable(met + rest, keys) ==> semantics::sorted(all, keys),
    decreases rest.len(),
{
    if rest.len() == 0 {
        bag::lemma_bag_empty(rest);
        assert(bag::bag(met).add(bag::bag(rest)) =~= bag::bag(met));
        met
    } else {
        let front = rest.drop_last();
        let x = rest.last();
        let whole = met + rest;
        assert(rest =~= front.push(x));
        bag::lemma_bag_push(front, x);
        bag::lemma_bag_concat(met, rest);
        if semantics::comparable(whole, keys) {
            assert forall|i: int| 0 <= i < (met + front).len() implies whole.contains(
                #[trigger] (met + front)[i],
            ) by {
                assert(whole[i] == (met + front)[i]);
            }
            semantics::lemma_comparable_part(whole, met + front, keys);
            let before = lemma_put_all(met, front, ps, keys);
            let k = behind(before, x, keys);
            lemma_behind(before, x, keys);
            lemma_put(before, k, x, ps);
            bag::lemma_bag_push(before, x);
            assert(bag::bag(before.push(x)) =~= bag::bag(whole));
            congruence::lemma_comparable_bag(whole, before.push(x), keys);
            lemma_put_sorted(before, x, keys);
            assert(bag::bag(put(before, k, x)) =~= bag::bag(met).add(bag::bag(rest)));
            put(before, k, x)
        } else {
            congruence::lemma_none_met(rest, ps);
            semantics::lemma_filter_concat(met, rest, ps);
            assert(semantics::filter_rows(met, ps) + Seq::<RowView>::empty()
                =~= semantics::filter_rows(met, ps));
            whole
        }
    }
}

/// A right answer of a sort of a filter is one of the filter of the sort.
proof fn lemma_sorted_then_filtered(
    ps: Seq<PredicateView>,
    specs: Seq<SortSpecView>,
    u: OpView,
    db: Database,
    out: Seq<RowView>,
)
    requires
        semantics::delivers(
            OpView::Sort(specs, Box::new(OpView::Filter(ps, Box::new(u)))),
            db,
            out,
        ),
    ensures
        semantics::delivers(
            OpView::Filter(ps, Box::new(OpView::Sort(specs, Box::new(u)))),
            db,
            out,
        ),
{
    let above = OpView::Sort(specs, Box::new(u));
    let below = OpView::Filter(ps, Box::new(u));
    let a = OpView::Filter(ps, Box::new(above));
    let c = equivalence::cols(u, db.tables);
    let pa = semantics::compiled_all(c, ps);
    let keys = semantics::sort_keys(c, specs);
    let rows = semantics::rows_of(u, db);
    let met = semantics::filter_rows(rows, pa);
    let rest = congruence::others(rows, pa);
    assert(semantics::rows_of(below, db) == met);
    assert(equivalence::cols(below, db.tables) == c);
    assert(equivalence::cols(above, db.tables) == c);
    assert(semantics::rows_of(above, db) == rows);
    congruence::lemma_others(rows, pa);
    semantics::lemma_filter_members(rows, pa);
    bag::lemma_bag_forall(met, out, |r: RowView| semantics::holds(r, pa));
    congruence::lemma_all_met(out, pa);
    bag::lemma_bag_concat(out, rest);
    if semantics::comparable(out + rest, keys) {
        congruence::lemma_comparable_bag(out + rest, rows, keys);
        semantics::lemma_comparable_part(rows, met, keys);
    }
    let all = lemma_put_all(out, rest, pa, keys);
    if semantics::comparable(rows, keys) {
        congruence::lemma_comparable_bag(rows, out + rest, keys);
    }
    assert(semantics::delivers(above, db, all));
    assert(semantics::is_filtered(out, all, pa));
    outcome::lemma_filter_delivers(ps, above, db, all);
}

/// A sort of a filter stands for the filter of the sort.
pub proof fn lemma_filter_over_sort(
    ps: Seq<PredicateView>,
    specs: Seq<SortSpecView>,
    u: OpView,
    db: Database,
    g: Set<PredicateView>,
)
    requires
        semantics::all_sound(db),
        equivalence::clear(
            OpView::Filter(ps, Box::new(OpView::Sort(specs, Box::new(u)))),
            db.tables,
            g,
        ),
    ensures
        equivalence::stands_for(
            OpView::Sort(specs, Box::new(OpView::Filter(ps, Box::new(u)))),
            OpView::Filter(ps, Box::new(OpView::Sort(specs, Box::new(u)))),
            db,
            g,
        ),
{
    let above = OpView::Sort(specs, Box::new(u));
    let below = OpView::Filter(ps, Box::new(u));
    let a = OpView::Filter(ps, Box::new(above));
    let b = OpView::Sort(specs, Box::new(below));
    let c = equivalence::cols(u, db.tables);
    assert(semantics::op_known(above, db.tables));
    assert(equivalence::told_apart(above, db.tables, g));
    assert(equivalence::told_apart(u, db.tables, g));
    assert(equivalence::cols(above, db.tables) == c);
    assert(equivalence::cols(below, db.tables) == c);
    assert(equivalence::clear(below, db.tables, g));
    assert(equivalence::cols(b, db.tables) == c);
    assert(equivalence::clear(b, db.tables, g));
    assert(equivalence::joins_nothing(above) == equivalence::joins_nothing(u));
    assert(equivalence::joins_nothing(below) == equivalence::joins_nothing(u));
    assert(semantics::rows_of(above, db) == semantics::rows_of(u, db));
    assert(semantics::rows_of(b, db) == semantics::rows_of(below, db));
    assert(!semantics::is_pipeline(above));
    assert(equivalence::answers_too(b, a, db)) by {
        assert forall|out: Seq<RowView>| #[trigger]
            semantics::delivers(b, db, out) implies semantics::delivers(a, db, out) by {
            lemma_sorted_then_filtered(ps, specs, u, db, out);
        }
    }
    equivalence::lemma_stands_same(b, a, db, g);
}

/// The predicates of a side are among all of them.
proof fn lemma_side_members(
    ps: Seq<PredicateView>,
    left: Seq<ColumnView>,
    right: Seq<ColumnView>,
    side: PredicateSide,
)
    ensures
        forall|i: int|
            0 <= i < query_support::side_predicates(ps, left, right, side).len() ==> {
                let p = #[trigger] query_support::side_predicates(ps, left, right, side)[i];
                ps.contains(p) && query_support::predicate_side(p, left, right) == side
            },
    decreases ps.len(),
{
    if ps.len() > 0 {
        let front = ps.drop_last();
        lemma_side_members(front, left, right, side);
        let before = query_support::side_predicates(front, left, right, side);
        let out = query_support::side_predicates(ps, left, right, side);
        assert forall|i: int| 0 <= i < out.len() implies ps.contains(#[trigger] out[i])
            && query_support::predicate_side(out[i], left, right) == side by {
            if i < before.len() {
                assert(out[i] == before[i]);
                assert(front.contains(before[i]));
                let k = choose|k: int| 0 <= k < front.len() && front[k] == before[i];
                assert(ps[k] == out[i]);
            } else {
                assert(ps[ps.len() - 1] == out[i]);
            }
        }
    }
}

/// A filter on a cross product is one on each side and one on both.
pub proof fn lemma_filter_over_cross(ps: Seq<PredicateView>, l: OpView, r: OpView, db: Database, g: Set<PredicateView>)
    requires
        semantics::all_sound(db),
        equivalence::clear(
            OpView::Filter(ps, Box::new(OpView::Cross(Box::new(l), Box::new(r)))),
            db.tables,
            g,
        ),
    ensures
        ({
            let a = equivalence::cols(l, db.tables);
            let b = equivalence::cols(r, db.tables);
            let lp = query_support::side_predicates(ps, a, b, PredicateSide::Left);
            let rp = query_support::side_predicates(ps, a, b, PredicateSide::Right);
            let cp = query_support::side_predicates(ps, a, b, PredicateSide::Cross);
            equivalence::stands_for(
                OpView::Filter(
                    cp,
                    Box::new(
                        OpView::Cross(
                            Box::new(rewrite::wrapped(lp, l)),
                            Box::new(rewrite::wrapped(rp, r)),
                        ),
                    ),
                ),
                OpView::Filter(ps, Box::new(OpView::Cross(Box::new(l), Box::new(r)))),
                db,
                g,
            )
        }),
{
    let (ca, cb) = (equivalence::cols(l, db.tables), equivalence::cols(r, db.tables));
    let lp = query_support::side_predicates(ps, ca, cb, PredicateSide::Left);
    let rp = query_support::side_predicates(ps, ca, cb, PredicateSide::Right);
    let cp = query_support::side_predicates(ps, ca, cb, PredicateSide::Cross);
    let cross = OpView::Cross(Box::new(l), Box::new(r));
    let (wl, wr) = (rewrite::wrapped(lp, l), rewrite::wrapped(rp, r));
    let joined = OpView::Cross(Box::new(wl), Box::new(wr));
    let a = OpView::Filter(ps, Box::new(cross));
    let b = OpView::Filter(cp, Box::new(joined));
    assert(semantics::op_known(cross, db.tables));
    assert(equivalence::told_apart(cross, db.tables, g));
    assert(equivalence::told_apart(l, db.tables, g));
    assert(equivalence::told_apart(r, db.tables, g));
    semantics::lemma_known_schema(l, db.tables);
    semantics::lemma_known_schema(r, db.tables);
    assert(equivalence::cols(cross, db.tables) == ca + cb);
    lemma_side_members(ps, ca, cb, PredicateSide::Left);
    lemma_side_members(ps, ca, cb, PredicateSide::Right);
    lemma_side_members(ps, ca, cb, PredicateSide::Cross);
    lemma_members_among(ps, lp, g);
    lemma_members_among(ps, rp, g);
    lemma_members_among(ps, cp, g);
    let no_l: RowView = Seq::new(ca.len(), |i: int| arbitrary());
    let no_r: RowView = Seq::new(cb.len(), |i: int| arbitrary());
    assert forall|i: int| 0 <= i < lp.len() implies semantics::predicate_known(
        ca,
        #[trigger] lp[i],
    ) by {
        semantics::lemma_side_predicate(ca, cb, lp[i], no_l, no_r);
    }
    assert forall|i: int| 0 <= i < rp.len() implies semantics::predicate_known(
        cb,
        #[trigger] rp[i],
    ) by {
        semantics::lemma_side_predicate(ca, cb, rp[i], no_l, no_r);
    }
    assert forall|i: int| 0 <= i < cp.len() implies semantics::predicate_known(
        ca + cb,
        #[trigger] cp[i],
    ) by {
        assert(ps.contains(cp[i]));
        let k = choose|k: int| 0 <= k < ps.len() && ps[k] == cp[i];
        assert(semantics::predicate_known(ca + cb, ps[k]));
    }
    rewrite::lemma_wrapped(lp, l, db);
    rewrite::lemma_wrapped(rp, r, db);
    assert(equivalence::cols(wl, db.tables) == ca);
    assert(equivalence::cols(wr, db.tables) == cb);
    assert(equivalence::clear(wl, db.tables, g));
    assert(equivalence::clear(wr, db.tables, g));
    assert(equivalence::cols(joined, db.tables) == ca + cb);
    assert(equivalence::clear(joined, db.tables, g));
    assert(equivalence::cols(b, db.tables) == ca + cb);
    assert(equivalence::clear(b, db.tables, g));
    outcome::lemma_cross_filtered(l, r, ps, db);
    semantics::lemma_join_bag(
        semantics::rows_of(wl, db),
        semantics::rows_of(wr, db),
        semantics::compiled_all(ca + cb, cp),
    );
    assert(semantics::rows_of(joined, db) == semantics::cross_rows(
        semantics::rows_of(wl, db),
        semantics::rows_of(wr, db),
    ));
    assert(!semantics::is_pipeline(cross) && !semantics::is_sorted_chain(cross));
    assert(!semantics::is_pipeline(joined) && !semantics::is_sorted_chain(joined));
    assert(!equivalence::joins_nothing(cross));
    equivalence::lemma_stands_same(b, a, db, g);
}

/// Predicates among those of a set are in it.
proof fn lemma_members_among(all: Seq<PredicateView>, some: Seq<PredicateView>, g: Set<PredicateView>)
    requires
        equivalence::among(all, g),
        forall|i: int| 0 <= i < some.len() ==> all.contains(#[trigger] some[i]),
    ensures
        equivalence::among(some, g),
{
    assert forall|i: int| 0 <= i < some.len() implies g.contains(#[trigger] some[i]) by {
        assert(all.contains(some[i]));
        let k = choose|k: int| 0 <= k < all.len() && all[k] == some[i];
        assert(g.contains(all[k]));
    }
}

} // verus!
