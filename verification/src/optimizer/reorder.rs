//! The order in which the inputs of a join are taken in.

use vstd::prelude::*;

use crate::catalog::db_context::DbContext;
use crate::catalog::table::{ColumnView, TableSpec};
use crate::error::DbError;
use crate::estimation;
use crate::executor;
use crate::optimizer::scores;
use crate::optimizer::scores::{count_connecting_predicates, estimate_input_with_local_filters, estimate_join_extension_score, estimate_unconnected_score};
use crate::query;
use crate::query::{CrossData, OpView, Predicate, PredicateView, QueryOp};
use crate::query_support;
use crate::query_support::infer_schema;
use crate::row;
use crate::row::Schema;

verus! {

/// A plan that joins some inputs.
pub struct PlanView {
    pub plan: OpView,
    pub columns: Seq<ColumnView>,
    pub cost: int,
}

/// The inputs of a tree of cross products, from left to right.
pub open spec fn leaves(op: OpView) -> Seq<OpView>
    decreases op,
{
    match op {
        OpView::Cross(l, r) => leaves(*l) + leaves(*r),
        _ => seq![op],
    }
}

/// Inputs joined one after the other.
pub open spec fn left_deep(inputs: Seq<OpView>) -> OpView
    decreases inputs.len(),
{
    if inputs.len() <= 1 {
        inputs[0]
    } else {
        OpView::Cross(Box::new(left_deep(inputs.drop_last())), Box::new(inputs.last()))
    }
}

/// The columns of each of some operators, or what is wrong with the first that
/// has none.
pub open spec fn all_columns(inputs: Seq<OpView>, tables: Seq<TableSpec>) -> Result<
    Seq<Seq<ColumnView>>,
    DbError,
>
    decreases inputs.len(),
{
    if inputs.len() == 0 {
        Ok(Seq::empty())
    } else {
        match all_columns(inputs.drop_last(), tables) {
            Err(e) => Err(e),
            Ok(front) => match query_support::schema_of(inputs.last(), tables) {
                Err(e) => Err(e),
                Ok(columns) => Ok(front.push(columns)),
            },
        }
    }
}

/// Whether a set of inputs holds one of them.
pub open spec fn holds_input(mask: usize, i: usize) -> bool {
    (mask >> i) & 1 == 1
}

/// A join of several inputs.
pub struct Join {
    pub inputs: Seq<OpView>,
    pub columns: Seq<Seq<ColumnView>>,
    pub ps: Seq<PredicateView>,
    pub tables: Seq<TableSpec>,
}

impl Join {
    /// The number of predicates between some columns and those of an input.
    pub open spec fn connectivity(self, columns: Seq<ColumnView>, i: int) -> int {
        scores::connecting(self.ps, columns, self.columns[i]).len() as int
    }

    /// The number of predicates between an input and the first `n`.
    pub open spec fn degree(self, i: int, n: nat) -> int
        decreases n,
    {
        if n == 0 {
            0
        } else {
            self.degree(i, (n - 1) as nat) + (if n - 1 == i {
                0
            } else {
                self.connectivity(self.columns[i], n - 1)
            })
        }
    }

    /// The cost of starting with an input: its bytes, less by the number of
    /// predicates that connect it.
    pub open spec fn seed_score(self, i: int) -> int {
        estimation::capped(
            scores::local_rows(self.inputs[i], self.columns[i], self.ps, self.tables)
                * scores::width(self.columns[i]),
        ) / executor::larger(self.degree(i, self.inputs.len()), 1)
    }

    /// The best plans for sets of inputs after the first `n` inputs alone.
    pub open spec fn seeds(self, n: nat) -> Seq<Option<PlanView>>
        decreases n,
    {
        if n == 0 {
            Seq::new((1usize << (self.inputs.len() as usize)) as nat, |m: int| None)
        } else {
            self.seeds((n - 1) as nat).update(
                (1usize << ((n - 1) as usize)) as int,
                Some(
                    PlanView {
                        plan: self.inputs[n - 1],
                        columns: self.columns[n - 1],
                        cost: self.seed_score(n - 1),
                    },
                ),
            )
        }
    }

    /// Whether a predicate connects the plan with one of the first `n` inputs
    /// that are not in it.
    pub open spec fn connected(self, state: PlanView, mask: usize, n: nat) -> bool
        decreases n,
    {
        n > 0 && (self.connected(state, mask, (n - 1) as nat) || (!holds_input(
            mask,
            (n - 1) as usize,
        ) && self.connectivity(state.columns, n - 1) > 0))
    }

    /// The cost of taking an input into a plan.
    pub open spec fn step_score(self, state: PlanView, i: int) -> Result<int, DbError> {
        if self.connectivity(state.columns, i) > 0 {
            scores::extension_score(
                state.plan,
                state.columns,
                self.inputs[i],
                self.columns[i],
                self.ps,
                self.tables,
            )
        } else {
            Ok(
                scores::unconnected_score(
                    self.inputs[i],
                    self.columns[i],
                    self.ps,
                    self.tables,
                ),
            )
        }
    }

    /// The plan with an input taken in at a cost.
    pub open spec fn step(self, state: PlanView, i: int, cost: int) -> PlanView {
        PlanView {
            plan: OpView::Cross(Box::new(state.plan), Box::new(self.inputs[i])),
            columns: state.columns + self.columns[i],
            cost: scores::within(state.cost + cost),
        }
    }

    /// The best plans after an input was tried as the next of a plan.
    pub open spec fn tried(
        self,
        best: Seq<Option<PlanView>>,
        state: PlanView,
        mask: usize,
        i: int,
    ) -> Result<Seq<Option<PlanView>>, DbError> {
        if holds_input(mask, i as usize) || (self.connected(state, mask, self.inputs.len())
            && self.connectivity(state.columns, i) == 0) {
            Ok(best)
        } else {
            match self.step_score(state, i) {
                Err(e) => Err(e),
                Ok(cost) => {
                    let next = self.step(state, i, cost);
                    let at = (mask | (1usize << (i as usize))) as int;
                    if best[at] matches Some(other) && next.cost >= other.cost {
                        Ok(best)
                    } else {
                        Ok(best.update(at, Some(next)))
                    }
                },
            }
        }
    }

    /// The best plans after each of the first `n` inputs was tried as the next
    /// of a plan.
    pub open spec fn all_tried(
        self,
        best: Seq<Option<PlanView>>,
        state: PlanView,
        mask: usize,
        n: nat,
    ) -> Result<Seq<Option<PlanView>>, DbError>
        decreases n,
    {
        if n == 0 {
            Ok(best)
        } else {
            match self.all_tried(best, state, mask, (n - 1) as nat) {
                Err(e) => Err(e),
                Ok(b) => self.tried(b, state, mask, n - 1),
            }
        }
    }

    /// The best plans after the plans for the first `m` sets of inputs were
    /// taken further.
    pub open spec fn settled(self, m: nat) -> Result<Seq<Option<PlanView>>, DbError>
        decreases m,
    {
        if m == 0 {
            Ok(self.seeds(self.inputs.len()))
        } else {
            match self.settled((m - 1) as nat) {
                Err(e) => Err(e),
                Ok(best) => match best[m - 1] {
                    None => Ok(best),
                    Some(state) => self.all_tried(
                        best,
                        state,
                        (m - 1) as usize,
                        self.inputs.len(),
                    ),
                },
            }
        }
    }
}

/// A tree of cross products in the order of the cheapest plan that takes in one
/// input after the other, and takes in a connected one where there is any. Inputs
/// keep their order where there are so many that a set of them does not fit into
/// the bits of a `usize`.
pub open spec fn reordered(op: OpView, ps: Seq<PredicateView>, tables: Seq<TableSpec>) -> Result<
    OpView,
    DbError,
> {
    let inputs = leaves(op);
    if inputs.len() <= 2 {
        Ok(left_deep(inputs))
    } else {
        match all_columns(inputs, tables) {
            Err(e) => Err(e),
            Ok(columns) => if inputs.len() >= usize::BITS {
                Ok(left_deep(inputs))
            } else {
                let join = Join { inputs, columns, ps, tables };
                let total = (1usize << (inputs.len() as usize)) as nat;
                match join.settled(total) {
                    Err(e) => Err(e),
                    Ok(best) => match best[total - 1] {
                        Some(state) => Ok(state.plan),
                        None => Ok(left_deep(inputs)),
                    },
                }
            },
        }
    }
}

/// A plan that joins some inputs.
pub struct PlanState {
    plan: QueryOp,
    schema: Schema,
    cost: u128,
}

impl View for PlanState {
    type V = PlanView;

    closed spec fn view(&self) -> PlanView {
        PlanView { plan: self.plan@, columns: self.schema@, cost: self.cost as int }
    }
}

impl Clone for PlanState {
    fn clone(&self) -> (r: Self)
        ensures
            r@ == self@,
    {
        PlanState { plan: self.plan.clone(), schema: self.schema.clone(), cost: self.cost }
    }
}

/// The contents of operators.
pub open spec fn op_views(ops: Seq<QueryOp>) -> Seq<OpView> {
    Seq::new(ops.len(), |i: int| ops[i]@)
}

/// The columns of schemas.
pub open spec fn schema_views(schemas: Seq<Schema>) -> Seq<Seq<ColumnView>> {
    Seq::new(schemas.len(), |i: int| schemas[i]@)
}

/// The contents of plans.
pub open spec fn state_views(states: Seq<Option<PlanState>>) -> Seq<Option<PlanView>> {
    Seq::new(
        states.len(),
        |i: int|
            match states[i] {
                Some(s) => Some(s@),
                None => None,
            },
    )
}

/// Appends the inputs of a tree of cross products.
pub fn flatten_cross_inputs(op: QueryOp, out: &mut Vec<QueryOp>)
    ensures
        op_views(final(out)@) == op_views(old(out)@) + leaves(op@),
    decreases op@.size(),
{
    let ghost before = op_views(out@);
    match op {
        QueryOp::Cross(cross) => {
            let CrossData { left, right } = cross;
            let ghost (l, r) = (left@, right@);
            flatten_cross_inputs(*left, out);
            flatten_cross_inputs(*right, out);
            assert(op_views(out@) =~= before + (leaves(l) + leaves(r)));
        },
        other => {
            let ghost o = other@;
            out.push(other);
            assert(leaves(o) =~= seq![o]);
            assert(op_views(out@) =~= before + seq![o]);
        },
    }
}

/// A tree of cross products has inputs.
proof fn lemma_leaves_some(op: OpView)
    ensures
        leaves(op).len() >= 1,
    decreases op,
{
    if let OpView::Cross(l, _) = op {
        lemma_leaves_some(*l);
    }
}

/// Inputs joined one after the other.
pub fn rebuild_left_deep_cross(inputs: &Vec<QueryOp>) -> (r: QueryOp)
    requires
        inputs@.len() >= 1,
    ensures
        r@ == left_deep(op_views(inputs@)),
{
    let ghost all = op_views(inputs@);
    let mut plan = inputs[0].clone();
    let mut i: usize = 1;
    while i < inputs.len()
        invariant
            1 <= i <= inputs@.len(),
            all == op_views(inputs@),
            plan@ == left_deep(all.take(i as int)),
        decreases inputs@.len() - i,
    {
        proof {
            assert(all.take(i + 1).drop_last() =~= all.take(i as int));
        }
        plan = QueryOp::Cross(
            CrossData { left: Box::new(plan), right: Box::new(inputs[i].clone()) },
        );
        i = i + 1;
    }
    assert(all.take(i as int) =~= all);
    plan
}

/// The columns of each of some operators.
fn schemas_of(inputs: &Vec<QueryOp>, ctx: &DbContext) -> (r: Result<Vec<Schema>, DbError>)
    ensures
        match all_columns(op_views(inputs@), ctx.tables()) {
            Ok(columns) => r matches Ok(s) && schema_views(s@) == columns && s@.len()
                == inputs@.len(),
            Err(e) => r matches Err(f) && f == e,
        },
{
    let ghost all = op_views(inputs@);
    let mut schemas: Vec<Schema> = Vec::with_capacity(inputs.len());
    let mut i: usize = 0;
    proof {
        assert(all.take(0) =~= Seq::<OpView>::empty());
        assert(schema_views(schemas@) =~= Seq::<Seq<ColumnView>>::empty());
    }
    while i < inputs.len()
        invariant
            i <= inputs@.len(),
            all == op_views(inputs@),
            schemas@.len() == i,
            all_columns(all.take(i as int), ctx.tables()) == Ok::<Seq<Seq<ColumnView>>, DbError>(
                schema_views(schemas@),
            ),
        decreases inputs@.len() - i,
    {
        let ghost before = schemas@;
        proof {
            assert(all.take(i + 1).drop_last() =~= all.take(i as int));
            assert(all.take(i + 1).last() == inputs@[i as int]@);
        }
        match infer_schema(&inputs[i], ctx) {
            Ok(schema) => {
                schemas.push(schema);
                assert(schema_views(schemas@) =~= schema_views(before).push(schema@));
            },
            Err(e) => {
                proof {
                    lemma_columns_error(all, ctx.tables(), i + 1);
                }
                return Err(e);
            },
        }
        i = i + 1;
    }
    assert(all.take(i as int) =~= all);
    Ok(schemas)
}

/// What is wrong with the first operators is wrong with all.
proof fn lemma_columns_error(inputs: Seq<OpView>, tables: Seq<TableSpec>, n: int)
    requires
        0 <= n <= inputs.len(),
        all_columns(inputs.take(n), tables) is Err,
    ensures
        all_columns(inputs, tables) == all_columns(inputs.take(n), tables),
    decreases inputs.len() - n,
{
    if n == inputs.len() {
        assert(inputs.take(n) =~= inputs);
    } else {
        assert(inputs.take(n + 1).drop_last() =~= inputs.take(n));
        lemma_columns_error(inputs, tables, n + 1);
    }
}

/// A search for the order of a join.
struct Search<'a> {
    inputs: &'a Vec<QueryOp>,
    schemas: &'a Vec<Schema>,
    predicates: &'a Vec<Predicate>,
    ctx: &'a DbContext,
}

impl<'a> Search<'a> {
    spec fn join(self) -> Join {
        Join {
            inputs: op_views(self.inputs@),
            columns: schema_views(self.schemas@),
            ps: query::predicate_views(self.predicates@),
            tables: self.ctx.tables(),
        }
    }

    spec fn wf(self) -> bool {
        &&& self.inputs@.len() == self.schemas@.len()
        &&& 2 < self.inputs@.len() < usize::BITS
    }

    /// The cost of starting with an input.
    fn seed_plan_score(&self, index: usize) -> (r: u64)
        requires
            self.wf(),
            index < self.inputs@.len(),
        ensures
            r == self.join().seed_score(index as int),
    {
        let ghost join = self.join();
        let mut degree: u128 = 0;
        let mut i: usize = 0;
        while i < self.inputs.len()
            invariant
                i <= self.inputs@.len(),
                self.wf(),
                join == self.join(),
                index < self.inputs@.len(),
                degree == join.degree(index as int, i as nat),
                degree <= i * 0xFFFF_FFFF_FFFF_FFFF,
            decreases self.inputs@.len() - i,
        {
            if i != index {
                let more: usize = count_connecting_predicates(
                    self.predicates,
                    &self.schemas[index],
                    &self.schemas[i],
                );
                degree = degree + more as u128;
            }
            i = i + 1;
        }
        let degree: u128 = if degree >= 1 {
            degree
        } else {
            1
        };
        let schema = &self.schemas[index];
        let rows: u64 = estimate_input_with_local_filters(
            &self.inputs[index],
            schema,
            self.predicates,
            self.ctx,
        );
        assert(schema.types() =~= row::types_of(schema@));
        let width: usize = estimation::estimated_schema_row_bytes(schema);
        let bytes: u64 = match rows.checked_mul(width as u64) {
            Some(n) => n,
            None => u64::MAX,
        };
        let score: u128 = bytes as u128 / degree;
        assert(score <= bytes) by (nonlinear_arith)
            requires
                score == bytes as int / degree as int,
                degree >= 1,
                bytes >= 0,
        ;
        score as u64
    }

    /// The best plans for sets of one input.
    fn seed(&self) -> (r: Vec<Option<PlanState>>)
        requires
            self.wf(),
        ensures
            state_views(r@) == self.join().seeds(self.inputs@.len()),
            r@.len() == 1usize << (self.inputs@.len() as usize),
    {
        let ghost join = self.join();
        let n: usize = self.inputs.len() as usize;
        let total: usize = 1usize << n;
        let mut best: Vec<Option<PlanState>> = Vec::new();
        let mut k: usize = 0;
        while k < total
            invariant
                k <= total,
                best@.len() == k,
                forall|j: int| 0 <= j < k ==> (#[trigger] best@[j]) is None,
            decreases total - k,
        {
            best.push(None);
            k = k + 1;
        }
        assert(state_views(best@) =~= join.seeds(0));
        let mut i: usize = 0;
        while i < self.inputs.len()
            invariant
                i <= self.inputs@.len(),
                self.wf(),
                join == self.join(),
                n == self.inputs@.len(),
                total == 1usize << n,
                best@.len() == total,
                state_views(best@) == join.seeds(i as nat),
            decreases self.inputs@.len() - i,
        {
            let ghost before = state_views(best@);
            let index: usize = i as usize;
            let at: usize = 1usize << index;
            proof {
                assert(1usize << index < 1usize << n) by (bit_vector)
                    requires
                        index < n,
                        n < usize::BITS,
                ;
            }
            let state = PlanState {
                plan: self.inputs[i].clone(),
                schema: self.schemas[i].clone(),
                cost: self.seed_plan_score(i) as u128,
            };
            let ghost view = state@;
            best.set(at, Some(state));
            assert(state_views(best@) =~= before.update(at as int, Some(view)));
            i = i + 1;
        }
        best
    }

    /// Whether a predicate connects the plan with an input that is not in it.
    fn has_connected_extension(&self, state: &PlanState, mask: usize) -> (r: bool)
        requires
            self.wf(),
        ensures
            r == self.join().connected(state@, mask, self.inputs@.len()),
    {
        let ghost join = self.join();
        let mut found: bool = false;
        let mut i: usize = 0;
        while i < self.inputs.len()
            invariant
                i <= self.inputs@.len(),
                self.wf(),
                join == self.join(),
                found == join.connected(state@, mask, i as nat),
            decreases self.inputs@.len() - i,
        {
            let index: usize = i as usize;
            if (mask >> index) & 1 != 1 {
                if count_connecting_predicates(self.predicates, &state.schema, &self.schemas[i])
                    > 0 {
                    found = true;
                }
            }
            i = i + 1;
        }
        found
    }

    /// Tries an input as the next of a plan.
    fn try_input(
        &self,
        best: &mut Vec<Option<PlanState>>,
        state: &PlanState,
        mask: usize,
        connected: bool,
        i: usize,
    ) -> (r: Result<(), DbError>)
        requires
            self.wf(),
            i < self.inputs@.len(),
            mask < 1usize << (self.inputs@.len() as usize),
            old(best)@.len() == 1usize << (self.inputs@.len() as usize),
            connected == self.join().connected(state@, mask, self.inputs@.len()),
        ensures
            match self.join().tried(state_views(old(best)@), state@, mask, i as int) {
                Ok(b) => r is Ok && state_views(final(best)@) == b && final(best)@.len() == old(
                    best,
                )@.len(),
                Err(e) => r matches Err(f) && f == e,
            },
    {
        let ghost join = self.join();
        let ghost before = state_views(best@);
        let index: usize = i as usize;
        if (mask >> index) & 1 == 1 {
            return Ok(());
        }
        let input = &self.inputs[i];
        let schema = &self.schemas[i];
        let connectivity: usize = count_connecting_predicates(
            self.predicates,
            &state.schema,
            schema,
        );
        if connected && connectivity == 0 {
            return Ok(());
        }
        let cost: u128 = if connectivity > 0 {
            estimate_join_extension_score(
                &state.plan,
                &state.schema,
                input,
                schema,
                self.predicates,
                self.ctx,
            )?
        } else {
            estimate_unconnected_score(input, schema, self.predicates, self.ctx)
        };
        let next_mask: usize = mask | (1usize << index);
        proof {
            let n: usize = self.inputs@.len() as usize;
            assert((mask | (1usize << index)) < 1usize << n) by (bit_vector)
                requires
                    mask < 1usize << n,
                    index < n,
                    n < usize::BITS,
            ;
        }
        let next = PlanState {
            plan: QueryOp::Cross(
                CrossData { left: Box::new(state.plan.clone()), right: Box::new(input.clone()) },
            ),
            schema: Schema::combine(&state.schema, schema),
            cost: match state.cost.checked_add(cost) {
                Some(n) => n,
                None => u128::MAX,
            },
        };
        let ghost view = next@;
        assert(join.step_score(state@, i as int) == Ok::<int, DbError>(cost as int));
        assert(view == join.step(state@, i as int, cost as int));
        let replace: bool = match &best[next_mask] {
            Some(other) => next.cost < other.cost,
            None => true,
        };
        assert(before[next_mask as int] == match best@[next_mask as int] {
            Some(s) => Some(s@),
            None => None,
        });
        if replace {
            best.set(next_mask, Some(next));
            assert(state_views(best@) =~= before.update(next_mask as int, Some(view)));
        }
        Ok(())
    }

    /// Takes a plan further by each input that is not in it.
    fn extend(&self, best: &mut Vec<Option<PlanState>>, state: &PlanState, mask: usize) -> (r: Result<
        (),
        DbError,
    >)
        requires
            self.wf(),
            mask < 1usize << (self.inputs@.len() as usize),
            old(best)@.len() == 1usize << (self.inputs@.len() as usize),
        ensures
            match self.join().all_tried(
                state_views(old(best)@),
                state@,
                mask,
                self.inputs@.len(),
            ) {
                Ok(b) => r is Ok && state_views(final(best)@) == b && final(best)@.len() == old(
                    best,
                )@.len(),
                Err(e) => r matches Err(f) && f == e,
            },
    {
        let ghost join = self.join();
        let ghost before = state_views(best@);
        let connected: bool = self.has_connected_extension(state, mask);
        let mut i: usize = 0;
        while i < self.inputs.len()
            invariant
                i <= self.inputs@.len(),
                self.wf(),
                join == self.join(),
                mask < 1usize << (self.inputs@.len() as usize),
                best@.len() == 1usize << (self.inputs@.len() as usize),
                connected == join.connected(state@, mask, self.inputs@.len()),
                before == state_views(old(best)@),
                join.all_tried(before, state@, mask, i as nat) == Ok::<
                    Seq<Option<PlanView>>,
                    DbError,
                >(state_views(best@)),
            decreases self.inputs@.len() - i,
        {
            match self.try_input(best, state, mask, connected, i) {
                Ok(()) => {},
                Err(e) => {
                    proof {
                        join.lemma_tried_error(before, state@, mask, (i + 1) as nat);
                    }
                    return Err(e);
                },
            }
            i = i + 1;
        }
        Ok(())
    }

    /// The best plan for all inputs, if one was found.
    fn run(&self) -> (r: Result<Option<QueryOp>, DbError>)
        requires
            self.wf(),
        ensures
            ({
                let total = (1usize << (self.inputs@.len() as usize)) as nat;
                match self.join().settled(total) {
                    Err(e) => r matches Err(f) && f == e,
                    Ok(best) => match best[total - 1] {
                        Some(state) => r matches Ok(Some(plan)) && plan@ == state.plan,
                        None => r matches Ok(None),
                    },
                }
            }),
    {
        let ghost join = self.join();
        let n: usize = self.inputs.len() as usize;
        let total: usize = 1usize << n;
        proof {
            assert(1usize << n >= 1) by (bit_vector)
                requires
                    n < usize::BITS,
            ;
        }
        let mut best = self.seed();
        let mut mask: usize = 0;
        while mask < total
            invariant
                mask <= total,
                self.wf(),
                join == self.join(),
                n == self.inputs@.len(),
                total == 1usize << n,
                best@.len() == total,
                join.settled(mask as nat) == Ok::<Seq<Option<PlanView>>, DbError>(
                    state_views(best@),
                ),
            decreases total - mask,
        {
            let ghost now = state_views(best@);
            let state = best[mask].clone();
            assert(now[mask as int] == match best@[mask as int] {
                Some(s) => Some(s@),
                None => None,
            });
            match state {
                Some(state) => {
                    assert(now[mask as int] == Some(state@));
                    match self.extend(&mut best, &state, mask) {
                        Ok(()) => {},
                        Err(e) => {
                            proof {
                                join.lemma_settled_error((mask + 1) as nat, total as nat);
                            }
                            return Err(e);
                        },
                    }
                },
                None => {},
            }
            mask = mask + 1;
        }
        let last: usize = (total - 1) as usize;
        assert(state_views(best@)[last as int] == match best@[last as int] {
            Some(s) => Some(s@),
            None => None,
        });
        match &best[last] {
            Some(state) => Ok(Some(state.plan.clone())),
            None => Ok(None),
        }
    }
}

impl Join {
    /// An error with the first inputs is one with all.
    proof fn lemma_tried_error(
        self,
        best: Seq<Option<PlanView>>,
        state: PlanView,
        mask: usize,
        n: nat,
    )
        requires
            n <= self.inputs.len(),
            self.all_tried(best, state, mask, n) is Err,
        ensures
            self.all_tried(best, state, mask, self.inputs.len()) == self.all_tried(
                best,
                state,
                mask,
                n,
            ),
        decreases self.inputs.len() - n,
    {
        if n < self.inputs.len() {
            self.lemma_tried_error(best, state, mask, n + 1);
        }
    }

    /// An error with the first sets is one with all.
    proof fn lemma_settled_error(self, m: nat, total: nat)
        requires
            m <= total,
            self.settled(m) is Err,
        ensures
            self.settled(total) == self.settled(m),
        decreases total - m,
    {
        if m < total {
            self.lemma_settled_error(m + 1, total);
        }
    }
}

/// A tree of cross products in the order of the cheapest plan.
pub fn reorder_cross_tree(op: QueryOp, predicates: &Vec<Predicate>, ctx: &DbContext) -> (r: Result<
    QueryOp,
    DbError,
>)
    ensures
        match reordered(op@, query::predicate_views(predicates@), ctx.tables()) {
            Ok(plan) => r matches Ok(o) && o@ == plan,
            Err(e) => r matches Err(f) && f == e,
        },
{
    let ghost view = op@;
    let mut inputs: Vec<QueryOp> = Vec::new();
    proof {
        lemma_leaves_some(view);
        assert(op_views(inputs@) =~= Seq::<OpView>::empty());
        assert(op_views(inputs@) + leaves(view) =~= leaves(view));
    }
    flatten_cross_inputs(op, &mut inputs);
    assert(inputs@.len() == leaves(view).len());
    if inputs.len() <= 2 {
        return Ok(rebuild_left_deep_cross(&inputs));
    }
    let schemas = schemas_of(&inputs, ctx)?;
    if inputs.len() >= usize::BITS as usize {
        return Ok(rebuild_left_deep_cross(&inputs));
    }
    let search = Search { inputs: &inputs, schemas: &schemas, predicates, ctx };
    match search.run()? {
        Some(plan) => Ok(plan),
        None => Ok(rebuild_left_deep_cross(&inputs)),
    }
}

} // verus!
