//! Query execution.

pub mod compact;
pub mod equality_join;
pub mod feed;
pub mod filter;
pub mod frame;
pub mod hash;
pub mod hash_build;
pub mod hash_join;
pub mod heap_sort;
pub mod join;
pub mod keys;
pub mod loop_join;
pub mod materialize;
pub mod merge;
pub mod merge_join;
pub mod outcome;
pub mod partition;
pub mod project;
pub mod rewrite;
pub mod scan;
pub mod sink;
pub mod sort;
pub mod sort_runs;
pub mod value;

use vstd::prelude::*;

use crate::catalog::db_context::DbContext;
use crate::data::Data;
use crate::error::DbError;
use crate::executor::filter::execute_filter;
use crate::executor::join::execute_cross;
use crate::executor::project::execute_project;
use crate::executor::scan::execute_scan;
use crate::executor::sink::{OutputSink, RowSink};
use crate::executor::sort::execute_sort;
use crate::executor::value::compare_data;
use crate::io::{Input, Output};
use crate::query;
use crate::query::{ComparisionOperator, ComparisionValue, Predicate, Query, QueryOp, SortSpec};
use crate::query_support;
use crate::row;
use crate::row::{saturating_product, Row, Schema};
use crate::semantics;
use crate::semantics::{CompiledView, RightView, SortKey};
use crate::storage::block_allocator::ScratchSpace;
use crate::storage::disk_client::DiskClient;
use crate::storage::scratch_run;
use crate::storage::scratch_run::RowOutput;

verus! {

/// A predicate whose columns are known by their places.
#[derive(Debug)]
pub struct CompiledPredicate {
    pub left_index: usize,
    pub operator: ComparisionOperator,
    pub right: PredicateOperand,
}

/// The right side of a compiled predicate.
#[derive(Debug)]
pub enum PredicateOperand {
    Column(usize),
    Literal(Data),
}

/// A column to sort by, known by its place.
#[derive(Debug, Clone, Copy, PartialEq, Eq)]
pub struct CompiledSortSpec {
    pub index: usize,
    pub ascending: bool,
}

impl View for PredicateOperand {
    type V = RightView;

    open spec fn view(&self) -> RightView {
        match self {
            PredicateOperand::Column(i) => RightView::Column(*i as int),
            PredicateOperand::Literal(v) => RightView::Literal(v@),
        }
    }
}

impl View for CompiledPredicate {
    type V = CompiledView;

    open spec fn view(&self) -> CompiledView {
        CompiledView {
            left: self.left_index as int,
            operator: self.operator,
            right: self.right@,
        }
    }
}

impl View for CompiledSortSpec {
    type V = SortKey;

    open spec fn view(&self) -> SortKey {
        SortKey { index: self.index as int, ascending: self.ascending }
    }
}

impl Clone for PredicateOperand {
    fn clone(&self) -> (r: Self)
        ensures
            r@ == self@,
    {
        match self {
            PredicateOperand::Column(i) => PredicateOperand::Column(*i),
            PredicateOperand::Literal(v) => PredicateOperand::Literal(v.clone()),
        }
    }
}

impl Clone for CompiledPredicate {
    fn clone(&self) -> (r: Self)
        ensures
            r@ == self@,
    {
        CompiledPredicate {
            left_index: self.left_index,
            operator: self.operator,
            right: self.right.clone(),
        }
    }
}

/// The contents of compiled predicates.
pub open spec fn compiled_views(ps: Seq<CompiledPredicate>) -> Seq<CompiledView> {
    Seq::new(ps.len(), |i: int| ps[i]@)
}

/// The contents of compiled sort columns.
pub open spec fn key_views(specs: Seq<CompiledSortSpec>) -> Seq<SortKey> {
    Seq::new(specs.len(), |i: int| specs[i]@)
}

/// A copy of compiled predicates.
pub fn clone_compiled(ps: &Vec<CompiledPredicate>) -> (r: Vec<CompiledPredicate>)
    ensures
        compiled_views(r@) == compiled_views(ps@),
{
    let mut out: Vec<CompiledPredicate> = Vec::new();
    let mut i: usize = 0;
    while i < ps.len()
        invariant
            i <= ps@.len(),
            out@.len() == i,
            forall|k: int| 0 <= k < i ==> (#[trigger] out@[k])@ == ps@[k]@,
        decreases ps@.len() - i,
    {
        out.push(ps[i].clone());
        i = i + 1;
    }
    assert(compiled_views(out@) =~= compiled_views(ps@));
    out
}

/// The predicates with their columns by their places, or
/// [`DbError::UnknownColumn`] where a column is not there.
pub fn compile_predicates(schema: &Schema, predicates: &Vec<Predicate>) -> (r: Result<
    Vec<CompiledPredicate>,
    DbError,
>)
    ensures
        match r {
            Ok(v) => {
                &&& semantics::all_known(schema@, query::predicate_views(predicates@))
                &&& compiled_views(v@) == semantics::compiled_all(
                    schema@,
                    query::predicate_views(predicates@),
                )
            },
            Err(e) => e == DbError::UnknownColumn && !semantics::all_known(
                schema@,
                query::predicate_views(predicates@),
            ),
        },
{
    let ghost all = query::predicate_views(predicates@);
    let mut out: Vec<CompiledPredicate> = Vec::with_capacity(predicates.len());
    let mut i: usize = 0;
    while i < predicates.len()
        invariant
            i <= predicates@.len(),
            all == query::predicate_views(predicates@),
            out@.len() == i,
            forall|k: int|
                0 <= k < i ==> semantics::predicate_known(schema@, #[trigger] all[k]),
            forall|k: int|
                0 <= k < i ==> (#[trigger] out@[k])@ == semantics::compiled(schema@, all[k]),
        decreases predicates@.len() - i,
    {
        let predicate = &predicates[i];
        assert(all[i as int] == predicate@);
        let left_index: usize = match schema.index_of(predicate.column_name.as_str()) {
            Some(index) => index,
            None => {
                return Err(DbError::UnknownColumn);
            },
        };
        let right = match &predicate.value {
            ComparisionValue::Column(name) => match schema.index_of(name.as_str()) {
                Some(index) => PredicateOperand::Column(index),
                None => {
                    return Err(DbError::UnknownColumn);
                },
            },
            ComparisionValue::I32(v) => PredicateOperand::Literal(Data::Int32(*v)),
            ComparisionValue::I64(v) => PredicateOperand::Literal(Data::Int64(*v)),
            ComparisionValue::F32(v, _) => PredicateOperand::Literal(Data::Float32(*v)),
            ComparisionValue::F64(v, _) => PredicateOperand::Literal(Data::Float64(*v)),
            ComparisionValue::String(v) => PredicateOperand::Literal(Data::String(v.clone())),
        };
        out.push(CompiledPredicate { left_index, operator: predicate.operator, right });
        i = i + 1;
    }
    assert(compiled_views(out@) =~= semantics::compiled_all(schema@, all));
    Ok(out)
}

/// The sort columns by their places, or [`DbError::UnknownColumn`] where one is
/// not there.
pub fn compile_sort_specs(schema: &Schema, specs: &Vec<SortSpec>) -> (r: Result<
    Vec<CompiledSortSpec>,
    DbError,
>)
    ensures
        match r {
            Ok(v) => {
                &&& semantics::sort_known(schema@, query::sort_views(specs@))
                &&& key_views(v@) == semantics::sort_keys(schema@, query::sort_views(specs@))
                &&& forall|i: int| 0 <= i < v@.len() ==> (#[trigger] v@[i]).index < schema@.len()
            },
            Err(e) => e == DbError::UnknownColumn && !semantics::sort_known(
                schema@,
                query::sort_views(specs@),
            ),
        },
{
    let ghost all = query::sort_views(specs@);
    let mut out: Vec<CompiledSortSpec> = Vec::with_capacity(specs.len());
    let mut i: usize = 0;
    while i < specs.len()
        invariant
            i <= specs@.len(),
            all == query::sort_views(specs@),
            out@.len() == i,
            forall|k: int|
                0 <= k < i ==> query_support::has_column(schema@, (#[trigger] all[k]).column),
            forall|k: int|
                0 <= k < i ==> (#[trigger] out@[k])@ == semantics::sort_keys(schema@, all)[k],
            forall|k: int| 0 <= k < i ==> (#[trigger] out@[k]).index < schema@.len(),
        decreases specs@.len() - i,
    {
        assert(all[i as int] == specs@[i as int]@);
        match schema.index_of(specs[i].column_name.as_str()) {
            Some(index) => {
                out.push(CompiledSortSpec { index, ascending: specs[i].ascending });
            },
            None => {
                return Err(DbError::UnknownColumn);
            },
        }
        i = i + 1;
    }
    assert(key_views(out@) =~= semantics::sort_keys(schema@, all));
    Ok(out)
}

/// Whether the row meets every predicate, or why that cannot be told.
pub fn row_satisfies_predicates(row: &Row, predicates: &Vec<CompiledPredicate>) -> (r: Result<
    bool,
    DbError,
>)
    ensures
        r == semantics::predicates_result(row@, compiled_views(predicates@)),
        r matches Ok(yes) ==> yes == semantics::holds(row@, compiled_views(predicates@)),
        r matches Err(e) ==> e == DbError::BadIndex || e == DbError::Incomparable,
{
    let ghost ps = compiled_views(predicates@);
    let mut i: usize = 0;
    proof {
        semantics::lemma_predicates_result(row@, ps);
        assert(ps.skip(0) =~= ps);
    }
    while i < predicates.len()
        invariant
            i <= predicates@.len(),
            ps == compiled_views(predicates@),
            semantics::predicates_result(row@, ps) == semantics::predicates_result(
                row@,
                ps.skip(i as int),
            ),
            semantics::predicates_result(row@, ps) == Ok::<bool, DbError>(true)
                <==> semantics::holds(row@, ps),
        decreases predicates@.len() - i,
    {
        let p = &predicates[i];
        assert(ps.skip(i as int)[0] == p@);
        assert(ps.skip(i as int).skip(1) =~= ps.skip(i + 1));
        let left = match row.get(p.left_index) {
            Some(v) => v,
            None => {
                return Err(DbError::BadIndex);
            },
        };
        let right = match &p.right {
            PredicateOperand::Column(index) => match row.get(*index) {
                Some(v) => v,
                None => {
                    return Err(DbError::BadIndex);
                },
            },
            PredicateOperand::Literal(v) => v,
        };
        match compare_data(left, p.operator, right) {
            Ok(true) => {},
            Ok(false) => {
                return Ok(false);
            },
            Err(e) => {
                return Err(e);
            },
        }
        i = i + 1;
    }
    Ok(true)
}

/// The larger of two numbers.
pub open spec fn larger(a: int, b: int) -> int {
    if a >= b {
        a
    } else {
        b
    }
}

/// The smaller of two numbers.
pub open spec fn smaller(a: int, b: int) -> int {
    if a <= b {
        a
    } else {
        b
    }
}

/// The larger of two numbers.
pub fn max_of(a: usize, b: usize) -> (r: usize)
    ensures
        r == larger(a as int, b as int),
{
    if a >= b {
        a
    } else {
        b
    }
}

/// The smaller of two numbers.
pub fn min_of(a: usize, b: usize) -> (r: usize)
    ensures
        r == smaller(a as int, b as int),
{
    if a <= b {
        a
    } else {
        b
    }
}

/// What of a memory limit is left for work: a reserve of a quarter to an eighth
/// is kept, and of 256 kibibytes or a sixteenth at least, but no more than half.
pub open spec fn working_memory(limit: int) -> int {
    let fraction = if limit >= 64 * 1024 * 1024 {
        limit / 8
    } else if limit >= 16 * 1024 * 1024 {
        limit / 6
    } else {
        limit / 4
    };
    let floor = larger(limit / 16, 0x4_0000);
    limit - smaller(larger(fraction, floor), limit / 2)
}

/// What of a memory limit is left for work.
pub fn effective_memory(memory_limit: usize) -> (r: usize)
    ensures
        r == working_memory(memory_limit as int),
        r <= memory_limit,
{
    if memory_limit == 0 {
        return 0;
    }
    let fractional_reserve: usize = if memory_limit >= 64 * 1024 * 1024 {
        memory_limit / 8
    } else if memory_limit >= 16 * 1024 * 1024 {
        memory_limit / 6
    } else {
        memory_limit / 4
    };
    let adaptive_floor: usize = max_of(memory_limit / 16, 256 * 1024);
    let reserve: usize = min_of(max_of(fractional_reserve, adaptive_floor), memory_limit / 2);
    memory_limit - reserve
}

/// The number of blocks that a scan reads at once: as many as fit an eighth of
/// the working memory, within the bounds.
pub open spec fn batch_blocks(
    block_size: int,
    memory_limit: int,
    min_blocks: int,
    max_blocks: int,
) -> int {
    if block_size == 0 {
        1
    } else {
        let low = row::saturated((block_size * min_blocks) as nat) as int;
        let high = row::saturated((block_size * max_blocks) as nat) as int;
        let bytes = larger(smaller(larger(working_memory(memory_limit) / 8, low), high), block_size);
        larger(bytes / block_size, 1)
    }
}

/// The number of blocks that a scan reads at once.
pub fn scan_batch_blocks(
    block_size: usize,
    memory_limit: usize,
    min_blocks: usize,
    max_blocks: usize,
) -> (r: u64)
    requires
        min_blocks <= max_blocks,
    ensures
        r == batch_blocks(
            block_size as int,
            memory_limit as int,
            min_blocks as int,
            max_blocks as int,
        ),
        r >= 1,
        r <= usize::MAX,
        block_size * r <= usize::MAX,
{
    if block_size == 0 {
        return 1;
    }
    let effective: usize = effective_memory(memory_limit);
    let low: usize = saturating_product(block_size, min_blocks);
    let high: usize = saturating_product(block_size, max_blocks);
    let bytes: usize = max_of(min_of(max_of(effective / 8, low), high), block_size);
    proof {
        let n = bytes / block_size;
        assert(n >= 1 && block_size * n <= bytes) by (nonlinear_arith)
            requires
                n == bytes / block_size,
                bytes >= block_size,
                block_size > 0,
        ;
    }
    max_of(bytes / block_size, 1) as u64
}

/// Runs a query: its rows go to the output. What it names is then there, and
/// where the device can be trusted and the tables that it reads are sound, the
/// rows are a right answer. Where no side of a join by keys that can hold blocks
/// was given up for want of memory, every block that was taken from the scratch
/// space has been given back. A chain of operators on one table takes no blocks,
/// and where it names what is not there it is refused before anything is asked of
/// the device. Where values that it needs cannot be read, a query that filters no
/// join fails. On sound tables and a device that answers, with block numbers left
/// and an output that takes every row, a query fails only where it names what is
/// not there, compares texts with numbers or numbers among which is NaN, or has to
/// store rows that are too long for a block.
pub fn execute_query<R: Input, W: Output, F: RowOutput>(
    query: &Query,
    ctx: &DbContext,
    disk: &mut DiskClient<R, W>,
    scratch: &mut ScratchSpace,
    memory_limit: usize,
    output: F,
) -> (r: Result<F, DbError>)
    requires
        old(scratch).wf(),
    ensures
        scratch_run::kept(
            *old(disk),
            *old(scratch),
            *final(disk),
            *final(scratch),
            Set::<int>::empty(),
        ),
        outcome::refused(
            query.root@,
            ctx.tables(),
            r,
            *old(disk),
            *old(scratch),
            *final(disk),
            *final(scratch),
        ),
        semantics::is_pipeline(query.root@) ==> *final(scratch) == *old(scratch),
        r is Ok ==> outcome::read_whole(
            query.root@,
            ctx.tables(),
            *old(disk),
            *final(disk),
            *final(scratch),
        ),
        r matches Ok(out) ==> {
            &&& semantics::op_known(query.root@, ctx.tables())
            &&& outcome::gives_back(query.root@) || !final(scratch).gave_up() ==> forall|b: int| #[trigger]
                final(scratch).allocated(b) ==> old(scratch).allocated(b)
            &&& frame::trusty(*final(disk), *final(scratch)) && semantics::sound(
                query.root@,
                outcome::database_on(ctx.tables(), *old(disk)),
            ) ==> outcome::executed(
                query.root@,
                outcome::database_on(ctx.tables(), *old(disk)),
                output.emitted(),
                out.emitted(),
            )
        },
        r matches Err(e) ==> (scratch_run::able(*final(disk), *final(scratch)) && semantics::sound(
            query.root@,
            outcome::database_on(ctx.tables(), *old(disk)),
        ) ==> !output.obliging() || outcome::excuses(
            query.root@,
            outcome::database_on(ctx.tables(), *old(disk)),
            old(scratch).size() as int,
            e,
        )),
{
    let sink: RowSink<F> = RowSink::Output(
        OutputSink {
            output,
            types: Ghost(
                row::types_of(query_support::schema_of(query.root@, ctx.tables())->Ok_0),
            ),
        },
    );
    assert(sink.own() =~= Set::<int>::empty());
    match execute_op(&query.root, ctx, disk, scratch, memory_limit, sink) {
        Ok((_, RowSink::Output(done))) => Ok(done.output),
        Ok(_) => vstd::pervasive::unreached(),
        Err(e) => Err(e),
    }
}

/// Runs an operator: its rows go to the sink.
pub fn execute_op<R: Input, W: Output, F: RowOutput>(
    op: &QueryOp,
    ctx: &DbContext,
    disk: &mut DiskClient<R, W>,
    scratch: &mut ScratchSpace,
    memory_limit: usize,
    sink: RowSink<F>,
) -> (r: Result<(Schema, RowSink<F>), DbError>)
    requires
        old(scratch).wf(),
        sink.wf(*old(disk), *old(scratch)),
        outcome::takes(sink, op@, ctx.tables()),
    ensures
        scratch_run::kept(
            *old(disk),
            *old(scratch),
            *final(disk),
            *final(scratch),
            sink.own(),
        ),
        outcome::refused(
            op@,
            ctx.tables(),
            r,
            *old(disk),
            *old(scratch),
            *final(disk),
            *final(scratch),
        ),
        semantics::is_pipeline(op@) && sink.dry() ==> *final(scratch) == *old(scratch),
        r is Ok ==> outcome::read_whole(
            op@,
            ctx.tables(),
            *old(disk),
            *final(disk),
            *final(scratch),
        ),
        r matches Ok((schema, out)) ==> outcome::ran(
            op@,
            ctx.tables(),
            sink,
            *old(disk),
            *old(scratch),
            schema,
            out,
            *final(disk),
            *final(scratch),
        ),
        r matches Err(e) ==> outcome::excused(
            op@,
            ctx.tables(),
            sink,
            *old(disk),
            *old(scratch),
            e,
            *final(disk),
            *final(scratch),
        ),
    decreases op@.size(), 6nat,
{
    match op {
        QueryOp::Scan(s) => execute_scan(s, ctx, disk, scratch, memory_limit, sink),
        QueryOp::Filter(f) => execute_filter(f, ctx, disk, scratch, memory_limit, sink),
        QueryOp::Project(p) => execute_project(p, ctx, disk, scratch, memory_limit, sink),
        QueryOp::Cross(c) => execute_cross(c, ctx, disk, scratch, memory_limit, sink),
        QueryOp::Sort(s) => execute_sort(s, ctx, disk, scratch, memory_limit, sink),
    }
}

} // verus!
