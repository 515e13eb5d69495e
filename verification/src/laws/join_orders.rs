//! In what order joins are made, and which columns are carried.

use vstd::prelude::*;

use crate::catalog::table::{ColumnView, TableSpec};
use crate::error::DbError;
use crate::estimation;
use crate::executor::project;
use crate::laws::guesses::{at_least_one, first_made};
use crate::laws::plans;
use crate::laws::predicates;
use crate::optimizer::projections;
use crate::optimizer::reorder;
use crate::optimizer::reorder::{Join, PlanView};
use crate::optimizer::scores;
use crate::query::{OpView, OperandView, PredicateView, SortSpecView};
use crate::row;

verus! {

/// The inputs of cross products are those of the left and then those of the right,
/// and anything else is an input itself. Joined one after the other, each is on the
/// right of all before it.
pub proof fn law_inputs_of_a_join(l: OpView, r: OpView, op: OpView, inputs: Seq<OpView>)
    ensures
        reorder::leaves(OpView::Cross(Box::new(l), Box::new(r))) == reorder::leaves(l)
            + reorder::leaves(r),
        !(op is Cross) ==> reorder::leaves(op) == seq![op],
        reorder::left_deep(seq![op]) == op,
        inputs.len() > 0 ==> reorder::left_deep(inputs.push(op)) == OpView::Cross(
            Box::new(reorder::left_deep(inputs)),
            Box::new(op),
        ),
{
    assert(inputs.push(op).drop_last() =~= inputs);
}

/// Two inputs, or so many that a word has no bit for each, stay in their order.
pub proof fn law_joins_that_stay(
    op: OpView,
    ps: Seq<PredicateView>,
    tables: Seq<TableSpec>,
    columns: Seq<Seq<ColumnView>>,
)
    ensures
        reorder::leaves(op).len() <= 2 ==> reorder::reordered(op, ps, tables) == Ok::<
            OpView,
            DbError,
        >(reorder::left_deep(reorder::leaves(op))),
        reorder::leaves(op).len() >= usize::BITS && reorder::leaves(op).len() > 2
            && reorder::all_columns(reorder::leaves(op), tables) == Ok::<
            Seq<Seq<ColumnView>>,
            DbError,
        >(columns) ==> reorder::reordered(op, ps, tables) == Ok::<OpView, DbError>(
            reorder::left_deep(reorder::leaves(op)),
        ),
{
}

/// An input that is not in the plan is connected with it by a predicate.
pub open spec fn one_is_connected(join: Join, state: PlanView, mask: usize, n: nat) -> bool {
    exists|j: int|
        {
            &&& 0 <= j < n
            &&& !reorder::holds_input(mask, j as usize)
            &&& #[trigger] join.connectivity(state.columns, j) > 0
        }
}

proof fn lemma_connected(join: Join, state: PlanView, mask: usize, n: nat)
    ensures
        join.connected(state, mask, n) <==> one_is_connected(join, state, mask, n),
    decreases n,
{
    if n > 0 {
        lemma_connected(join, state, mask, (n - 1) as nat);
        if one_is_connected(join, state, mask, (n - 1) as nat) {
            let j = choose|j: int|
                {
                    &&& 0 <= j < n - 1
                    &&& !reorder::holds_input(mask, j as usize)
                    &&& #[trigger] join.connectivity(state.columns, j) > 0
                };
            assert(join.connectivity(state.columns, j) > 0);
        }
        if !reorder::holds_input(mask, (n - 1) as usize) && join.connectivity(
            state.columns,
            n - 1,
        ) > 0 {
            assert(one_is_connected(join, state, mask, n));
        }
    }
}

/// The number of predicates that compare a column of the first columns alone with
/// one of an input alone.
pub proof fn law_connections(join: Join, columns: Seq<ColumnView>, i: int)
    ensures
        join.connectivity(columns, i) == join.ps.filter(
            |p: PredicateView| predicates::links(p, columns, join.columns[i]),
        ).len(),
{
    predicates::law_picked_predicates(join.ps, columns, join.columns[i]);
}

/// An input is taken into a plan where it is not there yet, and not before all that
/// predicates connect with the plan. Of two plans for the same inputs the cheaper
/// one stays, and the earlier one of two that cost the same. Plans for other inputs
/// stay as they are.
pub proof fn law_cheapest_plans(
    join: Join,
    best: Seq<Option<PlanView>>,
    state: PlanView,
    mask: usize,
    i: int,
    cost: int,
)
    requires
        0 <= i < join.inputs.len(),
    ensures
        reorder::holds_input(mask, i as usize) ==> join.tried(best, state, mask, i) == Ok::<
            Seq<Option<PlanView>>,
            DbError,
        >(best),
        one_is_connected(join, state, mask, join.inputs.len()) && join.connectivity(
            state.columns,
            i,
        ) == 0 ==> join.tried(best, state, mask, i) == Ok::<Seq<Option<PlanView>>, DbError>(best),
        ({
            let at = (mask | (1usize << (i as usize))) as int;
            let all = state.cost + cost;
            let total = if all > u128::MAX {
                u128::MAX as int
            } else {
                all
            };
            &&& !reorder::holds_input(mask, i as usize)
            &&& !one_is_connected(join, state, mask, join.inputs.len()) || join.connectivity(
                state.columns,
                i,
            ) != 0
            &&& join.step_score(state, i) == Ok::<int, DbError>(cost)
            &&& 0 <= at < best.len()
        }) ==> {
            let at = (mask | (1usize << (i as usize))) as int;
            let all = state.cost + cost;
            let total = if all > u128::MAX {
                u128::MAX as int
            } else {
                all
            };
            let taken = PlanView {
                plan: OpView::Cross(Box::new(state.plan), Box::new(join.inputs[i])),
                columns: state.columns + join.columns[i],
                cost: total,
            };
            &&& best[at] is None ==> join.tried(best, state, mask, i) == Ok::<
                Seq<Option<PlanView>>,
                DbError,
            >(best.update(at, Some(taken)))
            &&& best[at] matches Some(other) ==> {
                &&& total < other.cost ==> join.tried(best, state, mask, i) == Ok::<
                    Seq<Option<PlanView>>,
                    DbError,
                >(best.update(at, Some(taken)))
                &&& total >= other.cost ==> join.tried(best, state, mask, i) == Ok::<
                    Seq<Option<PlanView>>,
                    DbError,
                >(best)
            }
        },
{
    lemma_connected(join, state, mask, join.inputs.len());
}

/// The cost of taking in an input: that of a join where a predicate connects it,
/// and a hundred times its bytes where none does.
pub proof fn law_costs_of_a_step(join: Join, state: PlanView, i: int)
    ensures
        join.connectivity(state.columns, i) > 0 ==> join.step_score(state, i)
            == scores::extension_score(
            state.plan,
            state.columns,
            join.inputs[i],
            join.columns[i],
            join.ps,
            join.tables,
        ),
        join.connectivity(state.columns, i) <= 0 ==> ({
            let bytes = scores::local_rows(join.inputs[i], join.columns[i], join.ps, join.tables)
                * estimation::row_bytes(row::types_of(join.columns[i]));
            join.step_score(state, i) == Ok::<int, DbError>(
                if bytes * 100 > u128::MAX {
                    u128::MAX as int
                } else {
                    bytes * 100
                },
            )
        }),
{
}

/// The rows of an input are counted under the predicates on it alone.
pub proof fn law_rows_of_an_input(
    input: OpView,
    columns: Seq<ColumnView>,
    ps: Seq<PredicateView>,
    tables: Seq<TableSpec>,
)
    ensures
        ({
            let own = ps.filter(|p: PredicateView| predicates::speaks_of(p, columns));
            &&& own.len() == 0 ==> scores::local_rows(input, columns, ps, tables)
                == estimation::rows_estimate(input, tables)
            &&& own.len() > 0 ==> scores::local_rows(input, columns, ps, tables)
                == estimation::filtered_estimate(input, own, tables)
        }),
{
    predicates::law_picked_predicates(ps, columns, columns);
}

/// A join costs the bytes that the input adds to its rows, over the number of
/// predicates that connect it, or what a merge costs where that is less.
pub proof fn law_costs_of_a_join(
    plan: OpView,
    pc: Seq<ColumnView>,
    input: OpView,
    ic: Seq<ColumnView>,
    ps: Seq<PredicateView>,
    tables: Seq<TableSpec>,
)
    ensures
        ({
            let all = ps.filter(|p: PredicateView| predicates::speaks_of(p, pc + ic));
            let links = ps.filter(|p: PredicateView| predicates::links(p, pc, ic));
            let rows = estimation::filtered_estimate(
                OpView::Cross(Box::new(plan), Box::new(input)),
                all,
                tables,
            );
            let bytes = rows * estimation::row_bytes(row::types_of(ic));
            let base = bytes / at_least_one(links.len() as int);
            let said = scores::extension_score(plan, pc, input, ic, ps, tables);
            match scores::merge_score(plan, pc, input, ic, ps, tables) {
                Err(e) => said == Err::<int, DbError>(e),
                Ok(None) => said == Ok::<int, DbError>(base),
                Ok(Some(merge)) => {
                    &&& base <= merge ==> said == Ok::<int, DbError>(base)
                    &&& merge < base ==> said == Ok::<int, DbError>(merge)
                },
            }
        }),
{
    predicates::law_picked_predicates(ps, pc, ic);
    predicates::law_picked_predicates(ps, pc + ic, ic);
}

/// A merge costs the rows of both sides times the bytes of both, an eighth of that,
/// and less by how often 24 mebibytes go into the smaller side.
pub proof fn law_costs_of_a_merge(rows: int, width: int, others: int, other_width: int)
    requires
        rows >= 1,
        width >= 1,
        others >= 1,
        other_width >= 1,
        (rows + others) * (width + other_width) <= u128::MAX,
    ensures
        ({
            let (a, b) = (rows * width, others * other_width);
            let least = if a <= b {
                a
            } else {
                b
            };
            scores::merge_cost(rows, width, others, other_width) == at_least_one(
                ((rows + others) * (width + other_width)) / (8 * at_least_one(least / 0x180_0000)),
            )
        }),
{
    let (a, b) = (rows * width, others * other_width);
    assert(a >= 1) by (nonlinear_arith)
        requires
            a == rows * width,
            rows >= 1,
            width >= 1,
    ;
    assert(b >= 1) by (nonlinear_arith)
        requires
            b == others * other_width,
            others >= 1,
            other_width >= 1,
    ;
}

/// Names without those that came before: all of them, each once, in their order.
pub proof fn law_names_once(names: Seq<Seq<char>>, x: Seq<char>)
    ensures
        ({
            let kept = project::deduplicated(names);
            &&& kept.contains(x) <==> names.contains(x)
            &&& forall|i: int, j: int|
                0 <= i < j < kept.len() ==> #[trigger] kept[i] != #[trigger] kept[j]
            &&& names.len() > 0 ==> kept.len() > 0 && kept[0] == names[0]
            &&& project::deduplicated(names.push(x)) == if names.contains(x) {
                kept
            } else {
                kept.push(x)
            }
        }),
    decreases names.len(),
{
    project::lemma_deduplicated(names, x);
    assert(names.push(x).drop_last() =~= names);
    if names.len() > 0 {
        let front = names.drop_last();
        law_names_once(front, names.last());
        project::lemma_deduplicated(front, names.last());
        let before = project::deduplicated(front);
        let kept = project::deduplicated(names);
        assert forall|i: int, j: int| 0 <= i < j < kept.len() implies #[trigger] kept[i]
            != #[trigger] kept[j] by {
            if j == before.len() {
                assert(before.contains(before[i]));
            }
        }
    }
}

/// Below a projection and a sort, and below a projection and a filter, just the
/// columns are carried that they name, each once and under its own name.
pub proof fn law_carried_columns(
    map: Seq<(Seq<char>, Seq<char>)>,
    specs: Seq<SortSpecView>,
    ps: Seq<PredicateView>,
    k: int,
)
    ensures
        ({
            let old = Seq::new(map.len(), |i: int| map[i].0);
            let by = Seq::new(specs.len(), |i: int| specs[i].column);
            let under_sort = project::reduced_map(map, specs);
            let under_filter = projections::map_for_filter(map, ps);
            &&& under_sort.len() == project::deduplicated(old + by).len()
            &&& 0 <= k < under_sort.len() ==> under_sort[k] == (
                project::deduplicated(old + by)[k],
                project::deduplicated(old + by)[k],
            )
            &&& under_filter.len() == project::deduplicated(
                old + projections::predicates_names(ps),
            ).len()
            &&& 0 <= k < under_filter.len() ==> under_filter[k] == (
                project::deduplicated(old + projections::predicates_names(ps))[k],
                project::deduplicated(old + projections::predicates_names(ps))[k],
            )
        }),
{
    let old = Seq::new(map.len(), |i: int| map[i].0);
    let by = Seq::new(specs.len(), |i: int| specs[i].column);
    assert(project::needed_names(map, specs) =~= old + by);
    assert(projections::picked_names(map) =~= old);
}

/// The names of predicates are those of each of them, in their order.
pub proof fn law_names_of_predicates(ps: Seq<PredicateView>, p: PredicateView)
    ensures
        projections::predicates_names(Seq::empty()) == Seq::<Seq<char>>::empty(),
        p.value is Literal ==> projections::predicates_names(ps.push(p))
            == projections::predicates_names(ps) + seq![p.column],
        p.value matches OperandView::Column(other) ==> projections::predicates_names(ps.push(p))
            == projections::predicates_names(ps) + seq![p.column, other],
{
    assert(ps.push(p).drop_last() =~= ps);
}

/// Two projections are one that picks what the inner one makes the columns of which
/// the outer one names, and calls it as the outer one does.
pub proof fn law_projections_as_one(
    outer: Seq<(Seq<char>, Seq<char>)>,
    inner: Seq<(Seq<char>, Seq<char>)>,
    i: int,
    j: int,
)
    requires
        0 <= i < outer.len(),
        first_made(inner, outer[i].0, j),
    ensures
        projections::composed_map(outer, inner).len() == outer.len(),
        projections::composed_map(outer, inner)[i] == (inner[j].0, outer[i].1),
{
    plans::law_renamed_columns(inner, outer[i].0, j);
}

/// A projection is left out where it picks all columns, in their order and under
/// their names, and nowhere else.
pub proof fn law_projections_that_do_nothing(
    map: Seq<(Seq<char>, Seq<char>)>,
    columns: Seq<ColumnView>,
    op: OpView,
    i: int,
)
    ensures
        map == Seq::new(columns.len(), |k: int| (columns[k].name, columns[k].name))
            ==> projections::projected(map, columns, op) == op,
        map.len() != columns.len() ==> projections::projected(map, columns, op) == OpView::Project(
            map,
            Box::new(op),
        ),
        map.len() == columns.len() && 0 <= i < map.len() && (map[i].0 != columns[i].name || map[i].1
            != columns[i].name) ==> projections::projected(map, columns, op) == OpView::Project(
            map,
            Box::new(op),
        ),
{
}

} // verus!
