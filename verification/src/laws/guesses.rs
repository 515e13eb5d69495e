//! What is guessed of the rows of queries, and how much memory is set aside.

use vstd::prelude::*;

use crate::catalog::table::{ColumnView, TableSpec};
use crate::data::{Data, DataType};
use crate::estimation;
use crate::executor;
use crate::executor::rewrite;
use crate::laws::catalog;
use crate::laws::catalog::{first_named, means};
use crate::laws::answers::is_name;
use crate::laws::plans;
use crate::laws::predicates;
use crate::query::{OpView, OperandView, PredicateView, SortSpecView};
use crate::query_support;
use crate::row::Row;
use crate::selectivity;

verus! {

/// No more than 64 bits hold.
pub open spec fn at_most_64(n: int) -> int {
    if n <= 0xffff_ffff_ffff_ffff {
        n
    } else {
        0xffff_ffff_ffff_ffff
    }
}

/// One at least.
pub open spec fn at_least_one(n: int) -> int {
    if n >= 1 {
        n
    } else {
        1
    }
}

/// A scan is held to give the rows of its table, and under predicates their share.
/// Of a table that is not there, a quarter of what 64 bits hold is said.
pub proof fn law_guess_of_a_scan(
    id: Seq<char>,
    ps: Seq<PredicateView>,
    tables: Seq<TableSpec>,
    t: int,
)
    ensures
        0 <= t < tables.len() && means(tables[t], id) && (forall|j: int|
            0 <= j < t ==> !means(#[trigger] tables[j], id)) ==> {
            &&& estimation::rows_estimate(OpView::Scan(id), tables) == selectivity::table_rows(
                tables[t],
            )
            &&& estimation::filtered_estimate(OpView::Scan(id), ps, tables)
                == selectivity::share_of(
                selectivity::table_rows(tables[t]),
                selectivity::predicates_share(tables[t], ps),
            )
        },
        (forall|j: int| 0 <= j < tables.len() ==> !means(#[trigger] tables[j], id)) ==> {
            &&& estimation::rows_estimate(OpView::Scan(id), tables) == u64::MAX / 4
            &&& estimation::filtered_estimate(OpView::Scan(id), ps, tables)
                == selectivity::penalized(u64::MAX as int / 4, ps.len())
        },
{
    catalog::law_names_of_tables(tables, id, t);
}

/// Predicates on what a filter, a sort or a projection gives are as good as ones
/// below it: behind those of the filter, and on the columns that the projection
/// renames, those left out that it does not make.
pub proof fn law_guesses_of_chains(
    ps: Seq<PredicateView>,
    qs: Seq<PredicateView>,
    map: Seq<(Seq<char>, Seq<char>)>,
    specs: Seq<SortSpecView>,
    u: OpView,
    tables: Seq<TableSpec>,
)
    ensures
        estimation::rows_estimate(OpView::Filter(ps, Box::new(u)), tables)
            == estimation::filtered_estimate(u, ps, tables),
        estimation::rows_estimate(OpView::Project(map, Box::new(u)), tables)
            == estimation::rows_estimate(u, tables),
        estimation::rows_estimate(OpView::Sort(specs, Box::new(u)), tables)
            == estimation::rows_estimate(u, tables),
        estimation::filtered_estimate(OpView::Filter(qs, Box::new(u)), ps, tables)
            == estimation::filtered_estimate(u, qs + ps, tables),
        estimation::filtered_estimate(OpView::Sort(specs, Box::new(u)), ps, tables)
            == estimation::filtered_estimate(u, ps, tables),
        estimation::filtered_estimate(OpView::Project(map, Box::new(u)), ps, tables)
            == estimation::filtered_estimate(u, estimation::moved_predicates(ps, map), tables),
{
}

/// A predicate moves below a projection where all of its columns are made there: to
/// the columns that are renamed, with its operator and its literal.
pub proof fn law_moved_predicate(
    p: PredicateView,
    map: Seq<(Seq<char>, Seq<char>)>,
    i: int,
    j: int,
)
    ensures
        (forall|k: int| 0 <= k < map.len() ==> (#[trigger] map[k]).1 != p.column)
            ==> rewrite::remapped_predicate(p, map) is None,
        first_made(map, p.column, i) && p.value is Literal ==> (rewrite::remapped_predicate(p, map)
            matches Some(q) && q.column == map[i].0 && q.operator == p.operator && q.value
            == p.value && q.float_text == p.float_text),
        p.value matches OperandView::Column(other) ==> {
            &&& (forall|k: int| 0 <= k < map.len() ==> (#[trigger] map[k]).1 != other)
                ==> rewrite::remapped_predicate(p, map) is None
            &&& first_made(map, p.column, i) && first_made(map, other, j) ==> (
            rewrite::remapped_predicate(p, map) matches Some(q) && q.column == map[i].0
                && q.operator == p.operator && q.value == OperandView::Column(map[j].0))
        },
{
    plans::law_renamed_columns(map, p.column, i);
    if let OperandView::Column(other) = p.value {
        plans::law_renamed_columns(map, other, j);
    }
}

/// The pair makes the column, and none before it does.
pub open spec fn first_made(map: Seq<(Seq<char>, Seq<char>)>, name: Seq<char>, i: int) -> bool {
    &&& 0 <= i < map.len()
    &&& map[i].1 == name
    &&& forall|j: int| 0 <= j < i ==> (#[trigger] map[j]).1 != name
}

/// Predicates move one by one, in their order.
pub proof fn law_moved_predicates(
    ps: Seq<PredicateView>,
    p: PredicateView,
    map: Seq<(Seq<char>, Seq<char>)>,
)
    ensures
        estimation::moved_predicates(Seq::empty(), map) == Seq::<PredicateView>::empty(),
        estimation::moved_predicates(ps.push(p), map) == match rewrite::remapped_predicate(p, map) {
            Some(q) => estimation::moved_predicates(ps, map).push(q),
            None => estimation::moved_predicates(ps, map),
        },
{
    assert(ps.push(p).drop_last() =~= ps);
}

/// A join is held to give the product of the rows of its sides, each under its own
/// predicates. Each key leaves one row in as many as the side with more distinct
/// values has, and every other predicate on both sides a quarter.
pub proof fn law_guess_of_a_join(
    l: OpView,
    r: OpView,
    ps: Seq<PredicateView>,
    tables: Seq<TableSpec>,
)
    requires
        query_support::schema_of(l, tables) is Ok,
        query_support::schema_of(r, tables) is Ok,
    ensures
        ({
            let a = query_support::schema_of(l, tables)->Ok_0;
            let b = query_support::schema_of(r, tables)->Ok_0;
            let left = estimation::filtered_estimate(
                l,
                ps.filter(|p: PredicateView| predicates::belongs_to(p, a, b)),
                tables,
            );
            let right = estimation::filtered_estimate(
                r,
                ps.filter(|p: PredicateView| predicates::belongs_to(p, b, a)),
                tables,
            );
            let both = ps.filter(
                |p: PredicateView|
                    !predicates::belongs_to(p, a, b) && !predicates::belongs_to(p, b, a),
            );
            let keys = query_support::key_pairs(both, a, b);
            let joined = at_least_one(
                estimation::joined_estimate(l, r, a, b, left, right, keys, tables),
            );
            let guess = estimation::cross_estimate(l, r, ps, tables);
            &&& estimation::filtered_estimate(
                OpView::Cross(Box::new(l), Box::new(r)),
                ps,
                tables,
            ) == guess
            &&& estimation::rows_estimate(OpView::Cross(Box::new(l), Box::new(r)), tables)
                == estimation::cross_estimate(l, r, Seq::empty(), tables)
            &&& keys.len() == 0 ==> guess == selectivity::penalized(
                at_most_64(left * right),
                both.len(),
            )
            &&& keys.len() > 0 && both.len() > keys.len() ==> guess == selectivity::penalized(
                joined,
                (both.len() - keys.len()) as nat,
            )
            &&& keys.len() > 0 && both.len() <= keys.len() ==> guess == joined
        }),
{
    let a = query_support::schema_of(l, tables)->Ok_0;
    let b = query_support::schema_of(r, tables)->Ok_0;
    predicates::law_split(ps, a, b);
}

/// Where a side of a join has no columns, the product of the rows is all that is
/// said.
pub proof fn law_guess_of_a_faulty_join(
    l: OpView,
    r: OpView,
    ps: Seq<PredicateView>,
    tables: Seq<TableSpec>,
)
    requires
        query_support::schema_of(l, tables) is Err || query_support::schema_of(r, tables) is Err,
    ensures
        estimation::cross_estimate(l, r, ps, tables) == at_least_one(
            at_most_64(
                estimation::rows_estimate(l, tables) * estimation::rows_estimate(r, tables),
            ),
        ),
{
}

/// What one more key leaves of the rows of a join.
pub proof fn law_guess_of_a_key(
    l: OpView,
    r: OpView,
    a: Seq<ColumnView>,
    b: Seq<ColumnView>,
    left: int,
    right: int,
    keys: Seq<(int, int)>,
    key: (int, int),
    tables: Seq<TableSpec>,
)
    requires
        left >= 1,
        right >= 1,
    ensures
        estimation::joined_estimate(l, r, a, b, left, right, Seq::empty(), tables) == at_most_64(
            left * right,
        ),
        ({
            let before = estimation::joined_estimate(l, r, a, b, left, right, keys, tables);
            let after = estimation::joined_estimate(
                l,
                r,
                a,
                b,
                left,
                right,
                keys.push(key),
                tables,
            );
            let x = match estimation::distinct_estimate(l, a[key.0].name, tables) {
                Some(n) => if n <= left {
                    n
                } else {
                    left
                },
                None => left,
            };
            let y = match estimation::distinct_estimate(r, b[key.1].name, tables) {
                Some(n) => if n <= right {
                    n
                } else {
                    right
                },
                None => right,
            };
            after == before / at_least_one(
                if x >= y {
                    x
                } else {
                    y
                },
            )
        }),
{
    assert(keys.push(key).drop_last() =~= keys);
}

/// The distinct values of a column of a table are those that its statistics tell,
/// but no more than the rows of the table, and as many as these where they tell
/// nothing.
pub proof fn law_distinct_values_of_a_table(
    id: Seq<char>,
    name: Seq<char>,
    tables: Seq<TableSpec>,
    t: int,
    c: int,
)
    requires
        0 <= t < tables.len(),
        means(tables[t], id),
        forall|j: int| 0 <= j < t ==> !means(#[trigger] tables[j], id),
    ensures
        ({
            let guess = estimation::distinct_estimate(OpView::Scan(id), name, tables);
            let rows = at_least_one(selectivity::table_rows(tables[t]));
            &&& !is_name(tables[t].columns(), name) ==> guess is None
            &&& first_named(tables[t].columns(), name, c) ==> {
                &&& selectivity::distinct_in(tables[t].column_specs@[c]) is None ==> guess == Some(
                    rows,
                )
                &&& selectivity::distinct_in(tables[t].column_specs@[c]) matches Some(n) ==> {
                    &&& 1 <= n <= rows ==> guess == Some(n as int)
                    &&& n == 0 ==> guess == Some(1int)
                    &&& n > rows ==> guess == Some(rows)
                }
            }
        }),
{
    catalog::law_names_of_tables(tables, id, t);
    catalog::law_names_of_columns(tables[t].columns(), name, c);
}

/// The distinct values of a column that a filter leaves are the same share of them
/// as of the rows, rounded up, and no more than either.
pub proof fn law_distinct_values_of_a_filter(
    ps: Seq<PredicateView>,
    u: OpView,
    name: Seq<char>,
    tables: Seq<TableSpec>,
)
    ensures
        ({
            let guess = estimation::distinct_estimate(
                OpView::Filter(ps, Box::new(u)),
                name,
                tables,
            );
            let all = at_least_one(estimation::rows_estimate(u, tables));
            let some = at_least_one(estimation::filtered_estimate(u, ps, tables));
            &&& estimation::distinct_estimate(u, name, tables) is None ==> guess is None
            &&& estimation::distinct_estimate(u, name, tables) matches Some(n) ==> (n >= 1 ==> {
                let scaled = (n * some + all - 1) / all;
                &&& guess matches Some(m) && 1 <= m <= n && m <= some
                &&& 1 <= scaled <= 0xffff_ffff_ffff_ffff ==> {
                    &&& scaled <= n && scaled <= some ==> guess == Some(scaled)
                    &&& scaled > n || scaled > some ==> guess == Some(
                        if n <= some {
                            n
                        } else {
                            some
                        },
                    )
                }
            })
        }),
{
    if let Some(n) = estimation::distinct_estimate(u, name, tables) {
        let all = at_least_one(estimation::rows_estimate(u, tables));
        let some = at_least_one(estimation::filtered_estimate(u, ps, tables));
        let scaled = (n * some + all - 1) / all;
        if 1 <= scaled <= 0xffff_ffff_ffff_ffff {
            assert(scaled % 0x1_0000_0000_0000_0000 == scaled);
        }
    }
}

/// The distinct values of a column are those of the one that it is made of.
pub proof fn law_distinct_values_of_operators(
    map: Seq<(Seq<char>, Seq<char>)>,
    specs: Seq<SortSpecView>,
    u: OpView,
    v: OpView,
    name: Seq<char>,
    tables: Seq<TableSpec>,
    i: int,
)
    ensures
        estimation::distinct_estimate(OpView::Sort(specs, Box::new(u)), name, tables)
            == estimation::distinct_estimate(u, name, tables),
        first_made(map, name, i) ==> estimation::distinct_estimate(
            OpView::Project(map, Box::new(u)),
            name,
            tables,
        ) == estimation::distinct_estimate(u, map[i].0, tables),
        (forall|k: int| 0 <= k < map.len() ==> (#[trigger] map[k]).1 != name)
            ==> estimation::distinct_estimate(OpView::Project(map, Box::new(u)), name, tables)
            is None,
        query_support::schema_of(u, tables) matches Ok(columns) ==> {
            &&& is_name(columns, name) ==> estimation::distinct_estimate(
                OpView::Cross(Box::new(u), Box::new(v)),
                name,
                tables,
            ) == estimation::distinct_estimate(u, name, tables)
            &&& !is_name(columns, name) ==> estimation::distinct_estimate(
                OpView::Cross(Box::new(u), Box::new(v)),
                name,
                tables,
            ) == estimation::distinct_estimate(v, name, tables)
        },
{
    plans::law_renamed_columns(map, name, i);
    if let Ok(columns) = query_support::schema_of(u, tables) {
        catalog::law_names_of_columns(columns, name, 0);
    }
}

/// Predicates on two tables leave a quarter each, four of them at most, of one row
/// at least.
pub proof fn law_penalties(rows: int, count: nat)
    ensures
        selectivity::penalty(0) == selectivity::ONE,
        selectivity::penalty((count + 1) as nat) == crate::float::product(
            selectivity::penalty(count),
            selectivity::QUARTER,
        ),
        count <= 4 ==> selectivity::penalized(rows, count) == selectivity::share_of(
            at_least_one(rows),
            selectivity::penalty(count),
        ),
        count >= 4 ==> selectivity::penalized(rows, count) == selectivity::penalized(rows, 4),
{
}

/// A row in memory is held to take what it and its values do, and 4 or 8 bytes more
/// for each number and 64 for each text.
pub proof fn law_bytes_of_rows(types: Seq<DataType>, t: DataType)
    ensures
        estimation::types_bytes(Seq::empty()) == 0,
        estimation::types_bytes(types.push(t)) == estimation::types_bytes(types) + match t {
            DataType::Int32 => 4nat,
            DataType::Int64 => 8,
            DataType::Float32 => 4,
            DataType::Float64 => 8,
            DataType::String => 64,
        },
        ({
            let n = vstd::layout::size_of::<Row>() + types.len() * vstd::layout::size_of::<Data>()
                + estimation::types_bytes(types);
            &&& estimation::row_bytes(types) >= 1
            &&& 1 <= n <= usize::MAX ==> estimation::row_bytes(types) == n
            &&& n > usize::MAX ==> estimation::row_bytes(types) == usize::MAX
        }),
{
    assert(types.push(t).drop_last() =~= types);
}

/// Of the memory that may be taken, at least half is for work. A quarter is kept
/// below 16 mebibytes, a sixth below 64 and an eighth from there on, but 256
/// kibibytes at least where half allows it.
pub proof fn law_working_memory(limit: int)
    requires
        limit >= 0,
    ensures
        ({
            let kept = limit - executor::working_memory(limit);
            let mebibyte: int = 0x10_0000;
            &&& 0 <= kept <= limit / 2
            &&& limit < 0x8_0000 ==> kept == limit / 2
            &&& 0x8_0000 <= limit < mebibyte ==> kept == 0x4_0000
            &&& mebibyte <= limit < 16 * mebibyte ==> kept == limit / 4
            &&& 16 * mebibyte <= limit < 64 * mebibyte ==> kept == limit / 6
            &&& 64 * mebibyte <= limit ==> kept == limit / 8
        }),
{
}

/// A scan reads at once as many blocks as fit an eighth of the memory for work, but
/// no fewer and no more than it is told, and one at least.
pub proof fn law_blocks_at_once(size: int, limit: int, min: int, max: int)
    requires
        0 <= size,
        0 <= limit,
        1 <= min <= max,
        size * max <= usize::MAX,
    ensures
        ({
            let n = executor::batch_blocks(size, limit, min, max);
            let share = executor::working_memory(limit) / 8;
            &&& n >= 1
            &&& size == 0 ==> n == 1
            &&& size > 0 ==> {
                &&& min <= n <= max
                &&& size * min <= share <= size * max ==> n == share / size
                &&& share < size * min ==> n == min
                &&& share > size * max ==> n == max
            }
        }),
{
    if size > 0 {
        let share = executor::working_memory(limit) / 8;
        assert(size * min <= size * max) by (nonlinear_arith)
            requires
                size > 0,
                min <= max,
        ;
        assert(size <= size * min) by (nonlinear_arith)
            requires
                size > 0,
                1 <= min,
        ;
        assert((size * min) / size == min) by (nonlinear_arith)
            requires
                size > 0,
        ;
        assert((size * max) / size == max) by (nonlinear_arith)
            requires
                size > 0,
        ;
        if size * min <= share <= size * max {
            assert(min <= share / size <= max) by (nonlinear_arith)
                requires
                    size > 0,
                    size * min <= share <= size * max,
            ;
        }
    }
}

} // verus!
