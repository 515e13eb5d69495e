//! Putting the inputs of a join in order leaves its answers right.

use vstd::prelude::*;

use crate::bag;
use crate::catalog::table::{ColumnView, TableSpec};
use crate::executor::rewrite;
use crate::optimizer::equivalence;
use crate::optimizer::join_laws;
use crate::optimizer::reorder;
use crate::optimizer::reorder::{Join, PlanView};
use crate::optimizer::scores;
use crate::query::{OpView, PredicateView};
use crate::query_support;
use crate::scan_pipeline;
use crate::semantics;
use crate::semantics::Database;

verus! {

broadcast use semantics::lemma_all_sound;

/// Those of the first `n` inputs that a set holds, in their order.
spec fn chosen(inputs: Seq<OpView>, mask: usize, n: nat) -> Seq<OpView>
    decreases n,
{
    if n == 0 {
        Seq::empty()
    } else if reorder::holds_input(mask, (n - 1) as usize) {
        chosen(inputs, mask, (n - 1) as nat).push(inputs[n - 1])
    } else {
        chosen(inputs, mask, (n - 1) as nat)
    }
}

/// A set with one more input.
proof fn lemma_input_added(mask: usize, i: usize, j: usize)
    requires
        i < usize::BITS,
        j < usize::BITS,
    ensures
        reorder::holds_input(mask | (1usize << i), j) == (reorder::holds_input(mask, j) || i == j),
{
    assert((((mask | (1usize << i)) >> j) & 1 == 1) == (((mask >> j) & 1 == 1) || i == j))
        by (bit_vector)
        requires
            i < usize::BITS,
            j < usize::BITS,
    ;
}

/// The empty set.
proof fn lemma_no_input(i: usize, j: usize)
    requires
        i < usize::BITS,
        j < usize::BITS,
    ensures
        !reorder::holds_input(0, j),
        (0usize | (1usize << i)) == 1usize << i,
{
    assert(!((0usize >> j) & 1 == 1) && (0usize | (1usize << i)) == 1usize << i) by (bit_vector)
        requires
            i < usize::BITS,
            j < usize::BITS,
    ;
}

/// Sets of fewer inputs than a word has bits.
proof fn lemma_sets(n: usize, i: usize, mask: usize)
    requires
        i < n < usize::BITS,
        mask < 1usize << n,
    ensures
        (1usize << i) < (1usize << n),
        (mask | (1usize << i)) < (1usize << n),
        1 <= (1usize << n),
        reorder::holds_input(((1usize << n) - 1) as usize, i),
{
    assert((1usize << i) < (1usize << n) && (mask | (1usize << i)) < (1usize << n) && 1usize <= (1usize << n)
        && ((((1usize << n) - 1) as usize >> i) & 1 == 1)) by (bit_vector)
        requires
            i < n < usize::BITS,
            mask < 1usize << n,
    ;
}

/// What a set with one more input holds.
proof fn lemma_chosen_added(inputs: Seq<OpView>, mask: usize, i: usize, n: nat)
    requires
        !reorder::holds_input(mask, i),
        i < usize::BITS,
        n <= usize::BITS,
    ensures
        bag::bag(chosen(inputs, mask | (1usize << i), n)) == if i < n {
            bag::bag(chosen(inputs, mask, n)).insert(inputs[i as int])
        } else {
            bag::bag(chosen(inputs, mask, n))
        },
    decreases n,
{
    if n > 0 {
        let m = (n - 1) as nat;
        let more = mask | (1usize << i);
        lemma_chosen_added(inputs, mask, i, m);
        lemma_input_added(mask, i, m as usize);
        let (a, b) = (chosen(inputs, mask, m), chosen(inputs, more, m));
        bag::lemma_bag_push(a, inputs[m as int]);
        bag::lemma_bag_push(b, inputs[m as int]);
        assert(bag::bag(chosen(inputs, more, n)) =~= if i < n {
            bag::bag(chosen(inputs, mask, n)).insert(inputs[i as int])
        } else {
            bag::bag(chosen(inputs, mask, n))
        });
    }
}

/// The empty set holds nothing.
proof fn lemma_chosen_none(inputs: Seq<OpView>, n: nat)
    requires
        n <= usize::BITS,
    ensures
        chosen(inputs, 0, n) == Seq::<OpView>::empty(),
    decreases n,
{
    if n > 0 {
        lemma_chosen_none(inputs, (n - 1) as nat);
        lemma_no_input(0, (n - 1) as usize);
    }
}

/// The set of all inputs holds them all.
proof fn lemma_chosen_all(inputs: Seq<OpView>, n: nat)
    requires
        n <= inputs.len() < usize::BITS,
    ensures
        chosen(inputs, ((1usize << (inputs.len() as usize)) - 1) as usize, n) == inputs.take(n as int),
    decreases n,
{
    if n > 0 {
        let m = (n - 1) as nat;
        lemma_chosen_all(inputs, m);
        lemma_one_set(inputs.len() as usize);
        lemma_sets(inputs.len() as usize, m as usize, 0);
        assert(inputs.take(n as int) =~= inputs.take(m as int).push(inputs[m as int]));
    } else {
        assert(inputs.take(0) =~= Seq::<OpView>::empty());
    }
}

/// There is a set.
proof fn lemma_one_set(n: usize)
    requires
        n < usize::BITS,
    ensures
        0 < 1usize << n,
{
    assert(0 < 1usize << n) by (bit_vector)
        requires
            n < usize::BITS,
    ;
}

/// A plan joins the inputs of a set in some order. `known` says that the names
/// are there.
spec fn joins(join: Join, known: bool, state: PlanView, mask: usize) -> bool {
    &&& known ==> {
        &&& semantics::op_known(state.plan, join.tables)
        &&& query_support::schema_of(state.plan, join.tables) == Ok::<
            Seq<ColumnView>,
            crate::error::DbError,
        >(state.columns)
    }
    &&& exists|order: Seq<OpView>| #[trigger]
        joined_in(join, state, mask, order)
}

/// A plan joins the inputs of a set in an order.
spec fn joined_in(join: Join, state: PlanView, mask: usize, order: Seq<OpView>) -> bool {
    &&& order.len() > 0
    &&& state.plan == reorder::left_deep(order)
    &&& bag::bag(order) == bag::bag(chosen(join.inputs, mask, join.inputs.len()))
}

/// A join of inputs, of which `known` says that they are known.
spec fn fit(join: Join, known: bool) -> bool {
    &&& 0 < join.inputs.len() < usize::BITS
    &&& join.columns.len() == join.inputs.len()
    &&& known ==> forall|i: int|
        0 <= i < join.inputs.len() ==> {
            &&& semantics::op_known(#[trigger] join.inputs[i], join.tables)
            &&& query_support::schema_of(join.inputs[i], join.tables) == Ok::<
                Seq<ColumnView>,
                crate::error::DbError,
            >(join.columns[i])
        }
}

/// Every plan joins the inputs of its set.
spec fn all_join(join: Join, known: bool, best: Seq<Option<PlanView>>) -> bool {
    &&& best.len() == (1usize << (join.inputs.len() as usize)) as nat
    &&& forall|m: int|
        0 <= m < best.len() ==> (#[trigger] best[m] matches Some(state) ==> joins(
            join,
            known,
            state,
            m as usize,
        ))
}

/// Inputs alone are plans for the sets of them.
proof fn lemma_seeds_join(join: Join, known: bool, n: nat)
    requires
        fit(join, known),
        n <= join.inputs.len(),
    ensures
        all_join(join, known, join.seeds(n)),
    decreases n,
{
    if n > 0 {
        let k = (n - 1) as nat;
        let before = join.seeds(k);
        let best = join.seeds(n);
        let at: usize = 1usize << (k as usize);
        lemma_seeds_join(join, known, k);
        lemma_one_set(join.inputs.len() as usize);
        lemma_sets(join.inputs.len() as usize, k as usize, 0);
        let state = PlanView {
            plan: join.inputs[k as int],
            columns: join.columns[k as int],
            cost: join.seed_score(k as int),
        };
        assert(best == before.update(at as int, Some(state)));
        let order = seq![join.inputs[k as int]];
        lemma_no_input(k as usize, k as usize);
        lemma_chosen_none(join.inputs, join.inputs.len());
        lemma_chosen_added(join.inputs, 0, k as usize, join.inputs.len());
        bag::lemma_bag_push(Seq::<OpView>::empty(), join.inputs[k as int]);
        assert(Seq::<OpView>::empty().push(join.inputs[k as int]) =~= order);
        assert(known ==> semantics::op_known(join.inputs[k as int], join.tables));
        assert(joined_in(join, state, at, order));
        assert forall|m: int| 0 <= m < best.len() implies (#[trigger] best[m] matches Some(s)
            ==> joins(join, known, s, m as usize)) by {
            if m != at as int {
                assert(best[m] == before[m]);
            }
        }
    }
}

/// Nothing is wrong with a pipeline that names only what is there.
proof fn lemma_known_pipeline(op: OpView, tables: Seq<TableSpec>)
    requires
        semantics::is_pipeline(op),
        semantics::op_known(op, tables),
    ensures
        scan_pipeline::pipeline_error(op, tables) is None,
    decreases op,
{
    match op {
        OpView::Filter(_, u) => lemma_known_pipeline(*u, tables),
        OpView::Project(_, u) => lemma_known_pipeline(*u, tables),
        _ => {},
    }
}

/// An operator under the predicates on it alone is known.
proof fn lemma_local_known(
    op: OpView,
    columns: Seq<ColumnView>,
    ps: Seq<PredicateView>,
    tables: Seq<TableSpec>,
)
    requires
        semantics::op_known(op, tables),
        query_support::schema_of(op, tables) == Ok::<Seq<ColumnView>, crate::error::DbError>(
            columns,
        ),
    ensures
        semantics::op_known(rewrite::wrapped(scores::local_predicates(ps, columns), op), tables),
{
    let own = scores::local_predicates(ps, columns);
    let pick = |p: PredicateView| semantics::predicate_known(columns, p);
    bag::lemma_select_members(ps, pick);
    assert forall|i: int| 0 <= i < own.len() implies semantics::predicate_known(
        columns,
        #[trigger] own[i],
    ) by {
        assert(pick(own[i]));
    }
}

/// The cost of taking an input into a plan can be told.
proof fn lemma_step_score(join: Join, state: PlanView, mask: usize, i: int)
    requires
        fit(join, true),
        joins(join, true, state, mask),
        0 <= i < join.inputs.len(),
    ensures
        join.step_score(state, i) is Ok,
{
    let input = join.inputs[i];
    let (pc, ic) = (state.columns, join.columns[i]);
    assert(semantics::op_known(input, join.tables));
    lemma_local_known(state.plan, pc, join.ps, join.tables);
    lemma_local_known(input, ic, join.ps, join.tables);
    let a = rewrite::wrapped(scores::local_predicates(join.ps, pc), state.plan);
    let b = rewrite::wrapped(scores::local_predicates(join.ps, ic), input);
    if semantics::is_pipeline(a) {
        lemma_known_pipeline(a, join.tables);
    }
    if semantics::is_pipeline(b) {
        lemma_known_pipeline(b, join.tables);
    }
}

/// Trying an input as the next of a plan makes plans for their sets.
proof fn lemma_tried_join(
    join: Join,
    known: bool,
    best: Seq<Option<PlanView>>,
    state: PlanView,
    mask: usize,
    i: int,
)
    requires
        fit(join, known),
        all_join(join, known, best),
        joins(join, known, state, mask),
        mask < (1usize << (join.inputs.len() as usize)),
        0 <= i < join.inputs.len(),
    ensures
        known ==> join.tried(best, state, mask, i) is Ok,
        join.tried(best, state, mask, i) matches Ok(b) ==> all_join(join, known, b),
{
    if known {
        lemma_step_score(join, state, mask, i);
    }
    let bit = i as usize;
    if !reorder::holds_input(mask, bit) && join.step_score(state, i) is Ok {
        let cost = join.step_score(state, i)->Ok_0;
        let next = join.step(state, i, cost);
        let at: usize = mask | (1usize << bit);
        lemma_sets(join.inputs.len() as usize, bit, mask);
        let order = choose|order: Seq<OpView>| #[trigger] joined_in(join, state, mask, order);
        let more = order.push(join.inputs[i]);
        assert(more.drop_last() =~= order);
        lemma_chosen_added(join.inputs, mask, bit, join.inputs.len());
        bag::lemma_bag_push(order, join.inputs[i]);
        assert(known ==> semantics::op_known(join.inputs[i], join.tables));
        assert(joined_in(join, next, at, more));
        assert(joins(join, known, next, at));
        let b = best.update(at as int, Some(next));
        assert(all_join(join, known, b)) by {
            assert forall|m: int| 0 <= m < b.len() implies (#[trigger] b[m] matches Some(s)
                ==> joins(join, known, s, m as usize)) by {
                if m != at as int {
                    assert(b[m] == best[m]);
                }
            }
        }
    }
}

/// Trying inputs as the next of a plan makes plans for their sets.
proof fn lemma_all_tried_join(
    join: Join,
    known: bool,
    best: Seq<Option<PlanView>>,
    state: PlanView,
    mask: usize,
    n: nat,
)
    requires
        fit(join, known),
        all_join(join, known, best),
        joins(join, known, state, mask),
        mask < (1usize << (join.inputs.len() as usize)),
        n <= join.inputs.len(),
    ensures
        known ==> join.all_tried(best, state, mask, n) is Ok,
        join.all_tried(best, state, mask, n) matches Ok(b) ==> all_join(join, known, b),
    decreases n,
{
    if n > 0 {
        lemma_all_tried_join(join, known, best, state, mask, (n - 1) as nat);
        if let Ok(b) = join.all_tried(best, state, mask, (n - 1) as nat) {
            lemma_tried_join(join, known, b, state, mask, n - 1);
        }
    }
}

/// Taking plans further makes plans for their sets.
proof fn lemma_settled_join(join: Join, known: bool, m: nat)
    requires
        fit(join, known),
        m <= (1usize << (join.inputs.len() as usize)) as nat,
    ensures
        known ==> join.settled(m) is Ok,
        join.settled(m) matches Ok(b) ==> all_join(join, known, b),
    decreases m,
{
    if m == 0 {
        lemma_seeds_join(join, known, join.inputs.len());
    } else {
        lemma_settled_join(join, known, (m - 1) as nat);
        if let Ok(best) = join.settled((m - 1) as nat) {
            if let Some(state) = best[m - 1] {
                assert(joins(join, known, best[m - 1]->0, (m - 1) as usize));
                lemma_all_tried_join(join, known, best, state, (m - 1) as usize, join.inputs.len());
            }
        }
    }
}

/// The inputs of a known join are known.
proof fn lemma_inputs_known(xs: Seq<OpView>, tables: Seq<TableSpec>)
    requires
        xs.len() > 0,
        semantics::op_known(reorder::left_deep(xs), tables),
    ensures
        forall|i: int| 0 <= i < xs.len() ==> semantics::op_known(#[trigger] xs[i], tables),
    decreases xs.len(),
{
    if xs.len() > 1 {
        let front = xs.drop_last();
        lemma_inputs_known(front, tables);
        assert forall|i: int| 0 <= i < xs.len() implies semantics::op_known(
            #[trigger] xs[i],
            tables,
        ) by {
            if i < front.len() {
                assert(front[i] == xs[i]);
            }
        }
    }
}

/// Known operators have columns.
proof fn lemma_all_columns(xs: Seq<OpView>, tables: Seq<TableSpec>)
    requires
        forall|i: int| 0 <= i < xs.len() ==> semantics::op_known(#[trigger] xs[i], tables),
    ensures
        reorder::all_columns(xs, tables) matches Ok(all) && all.len() == xs.len() && forall|i: int|
            0 <= i < xs.len() ==> query_support::schema_of(xs[i], tables) == Ok::<
                Seq<ColumnView>,
                crate::error::DbError,
            >(#[trigger] all[i]),
    decreases xs.len(),
{
    if xs.len() > 0 {
        let front = xs.drop_last();
        assert forall|i: int| 0 <= i < front.len() implies semantics::op_known(
            #[trigger] front[i],
            tables,
        ) by {
            assert(front[i] == xs[i]);
        }
        lemma_all_columns(front, tables);
        assert(semantics::op_known(xs[xs.len() - 1], tables));
        semantics::lemma_known_schema(xs.last(), tables);
        let before = reorder::all_columns(front, tables)->Ok_0;
        let all = before.push(query_support::schema_of(xs.last(), tables)->Ok_0);
        assert forall|i: int| 0 <= i < xs.len() implies query_support::schema_of(xs[i], tables)
            == Ok::<Seq<ColumnView>, crate::error::DbError>(#[trigger] all[i]) by {
            if i < front.len() {
                assert(front[i] == xs[i]);
                assert(all[i] == before[i]);
            }
        }
    }
}

/// A tree of cross products with its inputs put in order stands for the tree.
pub proof fn lemma_reordered(op: OpView, ps: Seq<PredicateView>, db: Database, g: Set<PredicateView>)
    requires
        semantics::all_sound(db),
        equivalence::clear(op, db.tables, g),
    ensures
        reorder::reordered(op, ps, db.tables) matches Ok(b) && equivalence::stands_for(b, op, db, g)
            && (op is Cross ==> b is Cross),
{
    let inputs = reorder::leaves(op);
    join_laws::lemma_some_leaf(op);
    join_laws::lemma_left_deep_stands(op, db, g);
    let flat = reorder::left_deep(inputs);
    equivalence::lemma_stands_clear(flat, op, db, g);
    if 2 < inputs.len() {
        lemma_inputs_known(inputs, db.tables);
        lemma_all_columns(inputs, db.tables);
    }
    if 2 < inputs.len() < usize::BITS {
        let columns = reorder::all_columns(inputs, db.tables)->Ok_0;
        let join = Join { inputs, columns, ps, tables: db.tables };
        let total = (1usize << (inputs.len() as usize)) as nat;
        assert(fit(join, true)) by {
            assert forall|i: int| 0 <= i < join.inputs.len() implies {
                &&& semantics::op_known(#[trigger] join.inputs[i], join.tables)
                &&& query_support::schema_of(join.inputs[i], join.tables) == Ok::<
                    Seq<ColumnView>,
                    crate::error::DbError,
                >(join.columns[i])
            } by {
                assert(query_support::schema_of(inputs[i], db.tables) == Ok::<
                    Seq<ColumnView>,
                    crate::error::DbError,
                >(columns[i]));
            }
        }
        lemma_settled_join(join, true, total);
        lemma_one_set(inputs.len() as usize);
        let best = join.settled(total)->Ok_0;
        if let Some(state) = best[total - 1] {
            let mask = (total - 1) as usize;
            assert(joins(join, true, best[total - 1]->0, mask));
            let order = choose|order: Seq<OpView>| #[trigger] joined_in(join, state, mask, order);
            lemma_chosen_all(inputs, inputs.len());
            assert(inputs.take(inputs.len() as int) =~= inputs);
            join_laws::lemma_any_order(inputs, order, db, g);
            bag::lemma_bag_empty(inputs);
            bag::lemma_bag_empty(order);
            equivalence::lemma_stands_trans(state.plan, flat, op, db, g);
        }
    }
}

/// The inputs of a tree are no trees of cross products.
proof fn lemma_leaves_no_cross(op: OpView)
    ensures
        reorder::leaves(op).len() > 0,
        forall|i: int|
            0 <= i < reorder::leaves(op).len() ==> !((#[trigger] reorder::leaves(op)[i]) is Cross),
    decreases op,
{
    if let OpView::Cross(l, r) = op {
        lemma_leaves_no_cross(*l);
        lemma_leaves_no_cross(*r);
    }
}

/// Inputs joined one after the other are the inputs of what they make.
proof fn lemma_left_deep_leaves(order: Seq<OpView>)
    requires
        order.len() > 0,
        forall|i: int| 0 <= i < order.len() ==> !((#[trigger] order[i]) is Cross),
    ensures
        reorder::leaves(reorder::left_deep(order)) == order,
    decreases order.len(),
{
    if order.len() > 1 {
        let front = order.drop_last();
        assert forall|i: int| 0 <= i < front.len() implies !((#[trigger] front[i]) is Cross) by {
            assert(front[i] == order[i]);
        }
        lemma_left_deep_leaves(front);
        assert(!(order[order.len() - 1] is Cross));
        assert(reorder::leaves(order.last()) == seq![order.last()]);
        assert(reorder::leaves(*Box::new(reorder::left_deep(front))) == front);
        assert(front + seq![order.last()] =~= order);
    } else {
        assert(!(order[0] is Cross));
        assert(seq![order[0]] =~= order);
    }
}

/// A plan for all inputs takes in each of them once.
proof fn lemma_all_joined(join: Join, state: PlanView, op: OpView)
    requires
        join.inputs == reorder::leaves(op),
        0 < join.inputs.len() < usize::BITS,
        joins(join, false, state, ((1usize << (join.inputs.len() as usize)) - 1) as usize),
    ensures
        bag::bag(reorder::leaves(state.plan)) == bag::bag(reorder::leaves(op)),
        state.plan == reorder::left_deep(reorder::leaves(state.plan)),
{
    let inputs = join.inputs;
    let mask = ((1usize << (inputs.len() as usize)) - 1) as usize;
    let order = choose|order: Seq<OpView>| #[trigger] joined_in(join, state, mask, order);
    lemma_chosen_all(inputs, inputs.len());
    assert(inputs.take(inputs.len() as int) =~= inputs);
    lemma_leaves_no_cross(op);
    assert forall|i: int| 0 <= i < order.len() implies !((#[trigger] order[i]) is Cross) by {
        assert(order.contains(order[i]));
        let k = bag::lemma_same_bag_index(order, inputs, order[i]);
        assert(!(inputs[k] is Cross));
    }
    lemma_left_deep_leaves(order);
}

/// Putting the inputs of a tree of cross products in order keeps them: the
/// outcome takes in the same inputs, each as often, one after the other.
pub proof fn law_reordered_inputs(op: OpView, ps: Seq<PredicateView>, tables: Seq<TableSpec>)
    ensures
        reorder::reordered(op, ps, tables) matches Ok(b) ==> {
            &&& bag::bag(reorder::leaves(b)) == bag::bag(reorder::leaves(op))
            &&& b == reorder::left_deep(reorder::leaves(b))
        },
{
    let inputs = reorder::leaves(op);
    lemma_leaves_no_cross(op);
    lemma_left_deep_leaves(inputs);
    if 2 < inputs.len() < usize::BITS {
        if let Ok(columns) = reorder::all_columns(inputs, tables) {
            let join = Join { inputs, columns, ps, tables };
            let total = (1usize << (inputs.len() as usize)) as nat;
            lemma_columns_len(inputs, tables);
            lemma_settled_join(join, false, total);
            lemma_one_set(inputs.len() as usize);
            if let Ok(best) = join.settled(total) {
                if let Some(state) = best[total - 1] {
                    assert(joins(join, false, best[total - 1]->0, (total - 1) as usize));
                    lemma_all_joined(join, state, op);
                }
            }
        }
    }
}

/// There are the columns of each operator.
proof fn lemma_columns_len(xs: Seq<OpView>, tables: Seq<TableSpec>)
    ensures
        reorder::all_columns(xs, tables) matches Ok(all) ==> all.len() == xs.len(),
    decreases xs.len(),
{
    if xs.len() > 0 {
        lemma_columns_len(xs.drop_last(), tables);
    }
}

} // verus!
