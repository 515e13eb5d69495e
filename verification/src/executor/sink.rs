//! Where rows go on their way through a query, one at a time.

use vstd::prelude::*;

use crate::bag;
use crate::data;
use crate::data::DataType;
use crate::error::DbError;
use crate::executor;
use crate::executor::frame;
use crate::executor::hash;
use crate::executor::hash::{
    join_key_digest_for_row, partition_index_for_digest, JoinBloomFilter, JoinHashTable,
    PARTITION_FANOUT,
};
use crate::executor::hash_build;
use crate::executor::hash_build::{
    CompactHashRows, HashBuilder, HybridBuildPartition, HybridBuilder,
};
use crate::executor::keys;
use crate::executor::materialize::{MaterializedRows, Materializer};
use crate::executor::partition;
use crate::executor::partition::{PartitionWriters, Partitioner};
use crate::executor::sort_runs::SortCollector;
use crate::executor::value;
use crate::executor::{row_satisfies_predicates, CompiledPredicate, CompiledSortSpec};
use crate::io::{Input, Output};
use crate::row;
use crate::row::{Row, Schema};
use crate::semantics;
use crate::semantics::{CompiledView, RowView};
use crate::storage::block_allocator::{ScratchRun, ScratchSpace};
use crate::storage::disk_client::DiskClient;
use crate::storage::row_codec;
use crate::storage::row_codec::decode_row_from_bytes;
use crate::storage::scratch_run;
use crate::storage::scratch_run::{RowOutput, ScratchRunCursor, SCRATCH_STREAM_BATCH_BLOCKS};

verus! {

/// What a stage makes of the rows that come to it.
pub enum StageView {
    Filter { types: Seq<DataType>, ps: Seq<CompiledView> },
    Project { types: Seq<DataType>, indexes: Seq<int> },
    Probe {
        types: Seq<DataType>,
        builds: Seq<RowView>,
        build_is_left: bool,
        ps: Seq<CompiledView>,
    },
    Hybrid {
        types: Seq<DataType>,
        builds: Seq<RowView>,
        build_is_left: bool,
        ps: Seq<CompiledView>,
        keys: Seq<int>,
        spilled: Seq<bool>,
        shown: spec_fn(u64) -> bool,
    },
}

/// Rows whose partition is in memory.
pub open spec fn is_resident(keys: Seq<int>, spilled: Seq<bool>) -> spec_fn(RowView) -> bool {
    |r: RowView| !spilled[hash::partition_of(hash::digest(r, keys), 0)]
}

/// Rows of a partition that was sent to its run, as far as a filter shows them.
pub open spec fn is_deferred(
    keys: Seq<int>,
    spilled: Seq<bool>,
    j: int,
    shown: spec_fn(u64) -> bool,
) -> spec_fn(RowView) -> bool {
    |r: RowView|
        spilled[j] && hash::partition_of(hash::digest(r, keys), 0) == j && shown(
            hash::digest(r, keys),
        )
}

impl StageView {
    /// The types of the rows that come to the stage.
    pub open spec fn types(self) -> Seq<DataType> {
        match self {
            StageView::Filter { types, .. } => types,
            StageView::Project { types, .. } => types,
            StageView::Probe { types, .. } => types,
            StageView::Hybrid { types, .. } => types,
        }
    }

    /// What the stage makes of rows.
    pub open spec fn image(self, rows: Seq<RowView>) -> Seq<RowView> {
        match self {
            StageView::Filter { ps, .. } => semantics::filter_rows(rows, ps),
            StageView::Project { indexes, .. } => semantics::project_rows(rows, indexes),
            StageView::Probe { builds, build_is_left, ps, .. } => semantics::probe_rows(
                builds,
                rows,
                build_is_left,
                ps,
            ),
            StageView::Hybrid { builds, build_is_left, ps, keys, spilled, .. } =>
                semantics::probe_rows(
                    builds,
                    bag::select(rows, is_resident(keys, spilled)),
                    build_is_left,
                    ps,
                ),
        }
    }

    /// The errors that rows can meet at the stage where the device answers.
    pub open spec fn excuses(self, e: DbError, size: int, rows: Seq<RowView>) -> bool {
        match self {
            StageView::Filter { ps, .. } => semantics::fails(rows, ps, e),
            StageView::Project { .. } => false,
            StageView::Probe { builds, build_is_left, ps, .. } => semantics::pairs_fail(
                builds,
                rows,
                build_is_left,
                ps,
                e,
            ),
            StageView::Hybrid { builds, build_is_left, ps, .. } => semantics::pairs_fail(
                builds,
                rows,
                build_is_left,
                ps,
                e,
            ) || too_large(e, rows, size),
        }
    }
}

/// What stays the same in a sink while rows are pushed.
pub enum Shape {
    Output(Seq<DataType>, bool),
    Node(StageView, Seq<RowView>, Set<int>, Box<Shape>),
    Materialize(Schema, usize),
    Build(Schema, Seq<int>),
    HybridBuild(Schema, Seq<int>),
    Partition(Schema, Seq<int>, int, spec_fn(u64) -> bool, bool),
    Sort(Schema, Seq<CompiledSortSpec>),
}

impl Shape {
    /// The number of stages.
    pub open spec fn depth(self) -> nat
        decreases self,
    {
        match self {
            Shape::Node(_, _, _, next) => 1 + next.depth(),
            _ => 0,
        }
    }

    /// The blocks that the stages read and do not write.
    pub open spec fn held(self) -> Set<int>
        decreases self,
    {
        match self {
            Shape::Node(_, _, held, next) => held.union(next.held()),
            _ => Set::empty(),
        }
    }

    /// No row that comes is written to a block.
    pub open spec fn dry(self) -> bool
        decreases self,
    {
        match self {
            Shape::Node(view, _, _, next) => !(view is Hybrid) && next.dry(),
            Shape::Output(_, _) => true,
            Shape::Build(_, _) => true,
            _ => false,
        }
    }

    /// The types of the rows that come.
    pub open spec fn types(self) -> Seq<DataType> {
        match self {
            Shape::Output(types, _) => types,
            Shape::Node(view, _, _, _) => view.types(),
            Shape::Materialize(schema, _) => schema.types(),
            Shape::Build(schema, _) => schema.types(),
            Shape::HybridBuild(schema, _) => schema.types(),
            Shape::Partition(schema, _, _, _, _) => schema.types(),
            Shape::Sort(schema, _) => schema.types(),
        }
    }

    /// Rows that come stay in memory, and nothing is asked of the device.
    pub open spec fn local(self) -> bool {
        self is Output || self is Build
    }

    /// The errors that a row can meet on its way where the device answers and the
    /// rows are all that come: a comparison without an outcome, a row that is
    /// stored and too long for a block of the size, a table without room, an
    /// output that refuses rows.
    pub open spec fn excuses(self, e: DbError, size: int, rows: Seq<RowView>) -> bool
        decreases self,
    {
        match self {
            Shape::Output(_, obliging) => !obliging,
            Shape::Node(view, base, _, next) => view.excuses(e, size, rows)
                || next.excuses(e, size, base + view.image(rows)),
            Shape::Build(_, _) => e == DbError::BudgetExceeded || too_large(e, rows, size),
            _ => too_large(e, rows, size),
        }
    }
}

/// What a stage makes of rows that are among others.
proof fn lemma_image_within(view: StageView, a: Seq<RowView>, b: Seq<RowView>)
    requires
        bag::within(a, b),
    ensures
        bag::within(view.image(a), view.image(b)),
{
    match view {
        StageView::Filter { ps, .. } => semantics::lemma_filter_within(a, b, ps),
        StageView::Project { indexes, .. } => semantics::lemma_project_within(a, b, indexes),
        StageView::Probe { builds, build_is_left, ps, .. } => {
            bag::lemma_within_front(builds, builds);
            semantics::lemma_probe_within(builds, a, builds, b, build_is_left, ps);
        },
        StageView::Hybrid { builds, build_is_left, ps, keys, spilled, .. } => {
            let pick = is_resident(keys, spilled);
            bag::lemma_within_select(a, b, pick);
            bag::lemma_within_front(builds, builds);
            semantics::lemma_probe_within(
                builds,
                bag::select(a, pick),
                builds,
                bag::select(b, pick),
                build_is_left,
                ps,
            );
        },
    }
}

/// What some of the rows can meet, all can.
pub broadcast proof fn lemma_excuses_within(
    shape: Shape,
    e: DbError,
    size: int,
    a: Seq<RowView>,
    b: Seq<RowView>,
)
    requires
        #[trigger] shape.excuses(e, size, a),
        #[trigger] bag::within(a, b),
    ensures
        shape.excuses(e, size, b),
    decreases shape,
{
    if too_large(e, a, size) {
        scratch_run::lemma_oversized_within(a, b, size);
    }
    if let Shape::Node(view, base, _, next) = shape {
        match view {
            StageView::Filter { ps, .. } => {
                if semantics::fails(a, ps, e) {
                    semantics::lemma_fails_within(a, b, ps, e);
                }
            },
            StageView::Project { .. } => {},
            StageView::Probe { builds, build_is_left, ps, .. } => {
                bag::lemma_within_front(builds, builds);
                if semantics::pairs_fail(builds, a, build_is_left, ps, e) {
                    semantics::lemma_pairs_fail_within(builds, a, builds, b, build_is_left, ps, e);
                }
            },
            StageView::Hybrid { builds, build_is_left, ps, .. } => {
                bag::lemma_within_front(builds, builds);
                if semantics::pairs_fail(builds, a, build_is_left, ps, e) {
                    semantics::lemma_pairs_fail_within(builds, a, builds, b, build_is_left, ps, e);
                }
            },
        }
        if next.excuses(e, size, base + view.image(a)) {
            lemma_image_within(view, a, b);
            bag::lemma_within_front(base, base);
            bag::lemma_within_concat(base, view.image(a), base, view.image(b));
            lemma_excuses_within(
                *next,
                e,
                size,
                base + view.image(a),
                base + view.image(b),
            );
        }
    }
}

/// A row is refused because it is too long for a block.
pub open spec fn too_large(e: DbError, rows: Seq<RowView>, size: int) -> bool {
    e == DbError::RowTooLarge && scratch_run::oversized(rows, size)
}

/// Lets rows pass that meet predicates.
pub struct FilterStage {
    pub predicates: Vec<CompiledPredicate>,
    pub types: Ghost<Seq<DataType>>,
}

/// Picks values of rows.
pub struct ProjectStage {
    pub indexes: Vec<usize>,
    pub types: Ghost<Seq<DataType>>,
}

/// Joins rows with each of the rows that are kept.
pub struct LoopStage {
    pub build: MaterializedRows,
    pub predicates: Vec<CompiledPredicate>,
    pub build_is_left: bool,
    pub types: Ghost<Seq<DataType>>,
    pub builds: Ghost<Seq<RowView>>,
}

/// Joins rows with those of a table that have the same digest.
pub struct HashStage {
    pub build: CompactHashRows,
    pub probe_keys: Vec<usize>,
    pub predicates: Vec<CompiledPredicate>,
    pub build_is_left: bool,
    pub types: Ghost<Seq<DataType>>,
    pub build_keys: Ghost<Seq<int>>,
    pub builds: Ghost<Seq<RowView>>,
}

/// Joins rows with those of the partitions in memory, and sends the others to
/// runs.
pub struct HybridStage {
    pub schema: Schema,
    pub filter: JoinBloomFilter,
    pub partitions: Vec<HybridBuildPartition>,
    pub writers: PartitionWriters,
    pub probe_keys: Vec<usize>,
    pub predicates: Vec<CompiledPredicate>,
    pub build_is_left: bool,
    pub types: Ghost<Seq<DataType>>,
    pub build_keys: Ghost<Seq<int>>,
    pub builds: Ghost<Seq<RowView>>,
}

/// A stage on the way of rows.
pub enum Stage {
    Filter(FilterStage),
    Project(ProjectStage),
    Loop(LoopStage),
    Hash(HashStage),
    Hybrid(HybridStage),
}

/// The types of a joined row.
pub open spec fn joined_types(
    build: Seq<DataType>,
    probe: Seq<DataType>,
    build_is_left: bool,
) -> Seq<DataType> {
    if build_is_left {
        build + probe
    } else {
        probe + build
    }
}

/// Which partitions were sent to their runs.
pub open spec fn spilled_flags(ps: Seq<HybridBuildPartition>) -> Seq<bool> {
    Seq::new(ps.len(), |j: int| ps[j].spilled)
}

impl HybridStage {
    /// The digests that the filter shows.
    pub open spec fn shown(self) -> spec_fn(u64) -> bool {
        |d: u64| self.filter.shows(d)
    }

    /// The partitions hold the build side, and the runs what was deferred.
    pub open spec fn wf<R: Input, W: Output>(
        self,
        disk: DiskClient<R, W>,
        scratch: ScratchSpace,
        out: Seq<DataType>,
        log: Seq<RowView>,
    ) -> bool {
        let keys = row::as_ints(self.probe_keys@);
        &&& out == joined_types(self.schema.types(), self.types@, self.build_is_left)
        &&& self.filter.wf()
        &&& self.writers.wf(disk, scratch)
        &&& self.writers.parts().len() == PARTITION_FANOUT
        &&& row_codec::all_conform(self.builds@, self.schema.types())
        &&& hash_build::residents_ok(self.partitions@, self.builds@, self.build_keys@)
        &&& keys::keyed(
            self.build_keys@,
            keys,
            self.schema@.len(),
            self.types@.len(),
            self.build_is_left,
            executor::compiled_views(self.predicates@),
        )
        &&& forall|j: int|
            0 <= j < PARTITION_FANOUT ==> #[trigger] self.writers.parts()[j] == bag::select(
                log,
                is_deferred(keys, spilled_flags(self.partitions@), j, self.shown()),
            )
    }
}

impl Stage {
    /// What the stage makes of the rows that come to it.
    pub open spec fn view(self) -> StageView {
        match self {
            Stage::Filter(s) => StageView::Filter {
                types: s.types@,
                ps: executor::compiled_views(s.predicates@),
            },
            Stage::Project(s) => StageView::Project {
                types: s.types@,
                indexes: row::as_ints(s.indexes@),
            },
            Stage::Loop(s) => StageView::Probe {
                types: s.types@,
                builds: s.builds@,
                build_is_left: s.build_is_left,
                ps: executor::compiled_views(s.predicates@),
            },
            Stage::Hash(s) => StageView::Probe {
                types: s.types@,
                builds: s.builds@,
                build_is_left: s.build_is_left,
                ps: executor::compiled_views(s.predicates@),
            },
            Stage::Hybrid(s) => StageView::Hybrid {
                types: s.types@,
                builds: s.builds@,
                build_is_left: s.build_is_left,
                ps: executor::compiled_views(s.predicates@),
                keys: row::as_ints(s.probe_keys@),
                spilled: spilled_flags(s.partitions@),
                shown: s.shown(),
            },
        }
    }

    /// The blocks that the stage writes.
    pub open spec fn own(self) -> Set<int> {
        match self {
            Stage::Hybrid(s) => s.writers.own(),
            _ => Set::empty(),
        }
    }

    /// The blocks that the stage reads and does not write.
    pub open spec fn held(self) -> Set<int> {
        match self {
            Stage::Loop(s) => s.build.own(),
            _ => Set::empty(),
        }
    }

    /// The stage holds what it needs, and its results have the types.
    pub open spec fn wf<R: Input, W: Output>(
        self,
        disk: DiskClient<R, W>,
        scratch: ScratchSpace,
        out: Seq<DataType>,
        log: Seq<RowView>,
    ) -> bool {
        match self {
            Stage::Filter(s) => out == s.types@,
            Stage::Project(s) => {
                &&& out.len() == s.indexes@.len()
                &&& forall|i: int|
                    0 <= i < s.indexes@.len() ==> (#[trigger] s.indexes@[i]) < s.types@.len()
                &&& forall|i: int|
                    0 <= i < s.indexes@.len() ==> out[i] == s.types@[(
                    #[trigger] s.indexes@[i]) as int]
            },
            Stage::Loop(s) => {
                &&& out == joined_types(s.build.schema.types(), s.types@, s.build_is_left)
                &&& s.build.keeps(disk, scratch, s.builds@)
            },
            Stage::Hash(s) => {
                &&& out == joined_types(s.build.schema.types(), s.types@, s.build_is_left)
                &&& row_codec::all_conform(s.builds@, s.build.schema.types())
                &&& hash_build::table_of(s.build.rows_by_key, s.builds@, s.build_keys@)
                &&& keys::keyed(
                    s.build_keys@,
                    row::as_ints(s.probe_keys@),
                    s.build.schema@.len(),
                    s.types@.len(),
                    s.build_is_left,
                    executor::compiled_views(s.predicates@),
                )
            },
            Stage::Hybrid(s) => s.wf(disk, scratch, out, log),
        }
    }

    proof fn lemma_wf_kept<R: Input, W: Output>(
        self,
        d0: DiskClient<R, W>,
        s0: ScratchSpace,
        d1: DiskClient<R, W>,
        s1: ScratchSpace,
        own: Set<int>,
        out: Seq<DataType>,
        log: Seq<RowView>,
    )
        requires
            self.wf(d0, s0, out, log),
            scratch_run::kept(d0, s0, d1, s1, own),
            self.own().disjoint(own),
            self.held().disjoint(own),
        ensures
            self.wf(d1, s1, out, log),
    {
        match self {
            Stage::Loop(s) => {
                s.build.lemma_keeps(d0, s0, d1, s1, own, s.builds@);
            },
            Stage::Hybrid(s) => {
                s.writers.lemma_wf_kept(d0, s0, d1, s1, own);
            },
            _ => {},
        }
    }

    proof fn lemma_own_in_use<R: Input, W: Output>(
        self,
        disk: DiskClient<R, W>,
        scratch: ScratchSpace,
        out: Seq<DataType>,
        log: Seq<RowView>,
    )
        requires
            self.wf(disk, scratch, out, log),
        ensures
            scratch_run::in_use(self.own(), scratch),
            scratch_run::in_use(self.held(), scratch),
    {
        if let Stage::Hybrid(s) = self {
            s.writers.lemma_own_in_use(disk, scratch);
        }
    }
}

/// Hands rows to an output.
pub struct OutputSink<F: RowOutput> {
    pub output: F,
    pub types: Ghost<Seq<DataType>>,
}

/// A stage and where its results go.
pub struct SinkNode<F: RowOutput> {
    pub stage: Stage,
    pub next: Box<RowSink<F>>,
    pub log: Ghost<Seq<RowView>>,
    pub base: Ghost<Seq<RowView>>,
}

/// Where rows go.
pub enum RowSink<F: RowOutput> {
    Output(OutputSink<F>),
    Node(SinkNode<F>),
    Materialize(Materializer),
    Build(HashBuilder),
    HybridBuild(HybridBuilder),
    Partition(Partitioner),
    Sort(SortCollector),
}

impl<F: RowOutput> RowSink<F> {
    /// The rows that came.
    pub open spec fn log(self) -> Seq<RowView> {
        match self {
            RowSink::Output(s) => s.output.emitted(),
            RowSink::Node(s) => s.log@,
            RowSink::Materialize(s) => s.log(),
            RowSink::Build(s) => s.log(),
            RowSink::HybridBuild(s) => s.log(),
            RowSink::Partition(s) => s.log(),
            RowSink::Sort(s) => s.log(),
        }
    }

    /// The types of the rows that come.
    pub open spec fn types(self) -> Seq<DataType> {
        match self {
            RowSink::Output(s) => s.types@,
            RowSink::Node(s) => s.stage.view().types(),
            RowSink::Materialize(s) => s.types(),
            RowSink::Build(s) => s.types(),
            RowSink::HybridBuild(s) => s.types(),
            RowSink::Partition(s) => s.types(),
            RowSink::Sort(s) => s.types(),
        }
    }

    /// The blocks that the stages read and do not write.
    pub open spec fn held(self) -> Set<int> {
        self.shape().held()
    }

    /// No row that comes is written to a block.
    pub open spec fn dry(self) -> bool {
        self.shape().dry()
    }

    /// The blocks in which rows are kept.
    pub open spec fn own(self) -> Set<int>
        decreases self,
    {
        match self {
            RowSink::Output(_) => Set::empty(),
            RowSink::Node(s) => s.stage.own().union(s.next.own()),
            RowSink::Materialize(s) => s.own(),
            RowSink::Build(_) => Set::empty(),
            RowSink::HybridBuild(s) => s.own(),
            RowSink::Partition(s) => s.own(),
            RowSink::Sort(s) => s.own(),
        }
    }

    /// What stays the same while rows are pushed.
    pub open spec fn shape(self) -> Shape
        decreases self,
    {
        match self {
            RowSink::Output(s) => Shape::Output(s.types@, s.output.obliging()),
            RowSink::Node(s) => Shape::Node(
                s.stage.view(),
                s.base@,
                s.stage.held(),
                Box::new(s.next.shape()),
            ),
            RowSink::Materialize(s) => Shape::Materialize(s.schema(), s.budget()),
            RowSink::Build(s) => Shape::Build(s.schema(), s.keys()),
            RowSink::HybridBuild(s) => Shape::HybridBuild(s.schema(), s.keys()),
            RowSink::Partition(s) => Shape::Partition(
                s.schema(),
                s.keys(),
                s.depth(),
                s.shown(),
                s.filters(),
            ),
            RowSink::Sort(s) => Shape::Sort(s.schema(), s.specs()),
        }
    }

    /// What came has arrived: each stage has handed on what it makes of its
    /// rows, as far as the device can be trusted.
    pub open spec fn wf<R: Input, W: Output>(
        self,
        disk: DiskClient<R, W>,
        scratch: ScratchSpace,
    ) -> bool
        decreases self,
    {
        match self {
            RowSink::Output(_) => true,
            RowSink::Node(s) => {
                &&& s.stage.wf(disk, scratch, s.next.types(), s.log@)
                &&& s.next.wf(disk, scratch)
                &&& s.stage.own().disjoint(s.next.own())
                &&& s.stage.held().disjoint(s.next.own())
                &&& s.stage.own().disjoint(s.next.held())
                &&& row_codec::all_conform(s.log@, s.stage.view().types())
                &&& frame::trusty(disk, scratch) ==> s.next.log() == s.base@ + s.stage.view().image(
                    s.log@,
                )
            },
            RowSink::Materialize(s) => s.wf(disk, scratch),
            RowSink::Build(s) => s.wf(),
            RowSink::HybridBuild(s) => s.wf(disk, scratch),
            RowSink::Partition(s) => s.wf(disk, scratch),
            RowSink::Sort(s) => s.wf(disk, scratch),
        }
    }

    /// What came stays where other blocks change.
    pub proof fn lemma_wf_kept<R: Input, W: Output>(
        self,
        d0: DiskClient<R, W>,
        s0: ScratchSpace,
        d1: DiskClient<R, W>,
        s1: ScratchSpace,
        own: Set<int>,
    )
        requires
            self.wf(d0, s0),
            scratch_run::kept(d0, s0, d1, s1, own),
            self.own().disjoint(own),
            self.held().disjoint(own),
        ensures
            self.wf(d1, s1),
        decreases self,
    {
        match self {
            RowSink::Output(_) => {},
            RowSink::Node(s) => {
                assert(s.stage.held().disjoint(own)) by {
                    assert forall|b: int| !(#[trigger] s.stage.held().contains(b) && own.contains(
                        b,
                    )) by {
                        if s.stage.held().contains(b) {
                            assert(self.held().contains(b));
                        }
                    }
                }
                assert(s.next.held().disjoint(own)) by {
                    assert forall|b: int| !(#[trigger] s.next.held().contains(b) && own.contains(
                        b,
                    )) by {
                        if s.next.held().contains(b) {
                            assert(self.held().contains(b));
                        }
                    }
                }
                assert(s.stage.own().disjoint(own)) by {
                    assert forall|b: int| !(#[trigger] s.stage.own().contains(b) && own.contains(
                        b,
                    )) by {
                        if s.stage.own().contains(b) {
                            assert(self.own().contains(b));
                        }
                    }
                }
                assert(s.next.own().disjoint(own)) by {
                    assert forall|b: int| !(#[trigger] s.next.own().contains(b) && own.contains(
                        b,
                    )) by {
                        if s.next.own().contains(b) {
                            assert(self.own().contains(b));
                        }
                    }
                }
                s.stage.lemma_wf_kept(d0, s0, d1, s1, own, s.next.types(), s.log@);
                s.next.lemma_wf_kept(d0, s0, d1, s1, own);
            },
            RowSink::Materialize(s) => s.lemma_wf_kept(d0, s0, d1, s1, own),
            RowSink::Build(_) => {},
            RowSink::HybridBuild(s) => s.lemma_wf_kept(d0, s0, d1, s1, own),
            RowSink::Partition(s) => s.lemma_wf_kept(d0, s0, d1, s1, own),
            RowSink::Sort(s) => s.lemma_wf_kept(d0, s0, d1, s1, own),
        }
    }

    /// The blocks are in use.
    pub proof fn lemma_own_in_use<R: Input, W: Output>(
        self,
        disk: DiskClient<R, W>,
        scratch: ScratchSpace,
    )
        requires
            self.wf(disk, scratch),
        ensures
            scratch_run::in_use(self.own(), scratch),
            scratch_run::in_use(self.held(), scratch),
        decreases self,
    {
        match self {
            RowSink::Output(_) => {},
            RowSink::Node(s) => {
                s.stage.lemma_own_in_use(disk, scratch, s.next.types(), s.log@);
                s.next.lemma_own_in_use(disk, scratch);
            },
            RowSink::Materialize(s) => s.lemma_own_in_use(disk, scratch),
            RowSink::Build(_) => {},
            RowSink::HybridBuild(s) => s.lemma_own_in_use(disk, scratch),
            RowSink::Partition(s) => s.lemma_own_in_use(disk, scratch),
            RowSink::Sort(s) => s.lemma_own_in_use(disk, scratch),
        }
    }

    /// Sinks of the same shape take the same rows.
    pub proof fn lemma_shape_types(self, other: RowSink<F>)
        requires
            self.shape() == other.shape(),
        ensures
            self.types() == other.types(),
            self.types() == self.shape().types(),
    {
    }

    /// A stage before this sink.
    pub fn behind<R: Input, W: Output>(
        self,
        stage: Stage,
        disk: &DiskClient<R, W>,
        scratch: &ScratchSpace,
    ) -> (r: RowSink<F>)
        requires
            self.wf(*disk, *scratch),
            stage.wf(*disk, *scratch, self.types(), Seq::<RowView>::empty()),
            stage.own().disjoint(self.own()),
            stage.held().disjoint(self.own()),
            stage.own().disjoint(self.held()),
        ensures
            r.wf(*disk, *scratch),
            r.log() == Seq::<RowView>::empty(),
            r.types() == stage.view().types(),
            r.shape() == Shape::Node(
                stage.view(),
                self.log(),
                stage.held(),
                Box::new(self.shape()),
            ),
            r.own() == stage.own().union(self.own()),
            r.held() == stage.held().union(self.held()),
            r matches RowSink::Node(node) && node.stage == stage && *node.next == self,
            forall|e: DbError, size: int, rows: Seq<RowView>| #[trigger]
                r.shape().excuses(e, size, rows) == (stage.view().excuses(
                    e,
                    size,
                    rows,
                ) || self.shape().excuses(
                    e,
                    size,
                    self.log() + stage.view().image(rows),
                )),
    {
        let ghost base = self.log();
        proof {
            self.lemma_shape_types(self);
            let none = Seq::<RowView>::empty();
            assert(stage.view().image(none) =~= none);
            assert(base + none =~= base);
        }
        RowSink::Node(
            SinkNode {
                stage,
                next: Box::new(self),
                log: Ghost(Seq::empty()),
                base: Ghost(base),
            },
        )
    }
}

/// What a push into a sink, or a number of them, does.
pub open spec fn advanced<R: Input, W: Output, F: RowOutput>(
    before: RowSink<F>,
    d0: DiskClient<R, W>,
    s0: ScratchSpace,
    after: RowSink<F>,
    d1: DiskClient<R, W>,
    s1: ScratchSpace,
) -> bool {
    &&& scratch_run::grown(before.own(), s0, after.own())
    &&& after.wf(d1, s1)
    &&& after.shape() == before.shape()
}

/// The blocks that pushes into a sink took are the sink's, and all others in
/// use were so before.
pub open spec fn settled<F: RowOutput>(
    before: RowSink<F>,
    s0: ScratchSpace,
    after: RowSink<F>,
    s1: ScratchSpace,
) -> bool {
    scratch_run::tidy(before.own(), s0, after.own(), s1)
}

/// Hands a joined row on, if it meets the predicates.
fn emit_match<R: Input, W: Output, F: RowOutput>(
    next: &mut RowSink<F>,
    build: &Row,
    probe: &Row,
    build_is_left: bool,
    predicates: &Vec<CompiledPredicate>,
    disk: &mut DiskClient<R, W>,
    scratch: &mut ScratchSpace,
) -> (r: Result<(), DbError>)
    requires
        old(next).wf(*old(disk), *old(scratch)),
        old(scratch).wf(),
        data::conforms(
            semantics::joined_row(build@, probe@, build_is_left),
            old(next).types(),
        ),
    ensures
        scratch_run::kept(
            *old(disk),
            *old(scratch),
            *final(disk),
            *final(scratch),
            old(next).own(),
        ),
        r is Ok ==> advanced(
            *old(next),
            *old(disk),
            *old(scratch),
            *final(next),
            *final(disk),
            *final(scratch),
        ),
        old(next).dry() ==> *final(scratch) == *old(scratch),
        r is Ok ==> settled(*old(next), *old(scratch), *final(next), *final(scratch)),
        r is Ok ==> final(next).log() == if semantics::holds(
            semantics::joined_row(build@, probe@, build_is_left),
            executor::compiled_views(predicates@),
        ) {
            old(next).log().push(semantics::joined_row(build@, probe@, build_is_left))
        } else {
            old(next).log()
        },
        semantics::predicates_result(
            semantics::joined_row(build@, probe@, build_is_left),
            executor::compiled_views(predicates@),
        ) matches Err(e) ==> r == Err::<(), DbError>(e),
        r matches Err(e) ==> semantics::predicates_result(
            semantics::joined_row(build@, probe@, build_is_left),
            executor::compiled_views(predicates@),
        ) == Err::<bool, DbError>(e) || !scratch_run::able(*final(disk), *final(scratch))
            || (semantics::holds(
            semantics::joined_row(build@, probe@, build_is_left),
            executor::compiled_views(predicates@),
        ) && old(next).shape().excuses(
            e,
            old(scratch).size() as int,
            old(next).log().push(semantics::joined_row(build@, probe@, build_is_left)),
        )),
    decreases old(next).shape().depth(), 7nat,
{
    proof {
        frame::lemma_kept_refl(*disk, *scratch, next.own());
    }
    let joined = if build_is_left {
        Row::combine(build, probe)
    } else {
        Row::combine(probe, build)
    };
    if row_satisfies_predicates(&joined, predicates)? {
        next.push(joined, disk, scratch)?;
    }
    Ok(())
}

/// The types of a joined row are those of its parts.
proof fn lemma_joined_conforms(
    build: RowView,
    probe: RowView,
    build_types: Seq<DataType>,
    probe_types: Seq<DataType>,
    build_is_left: bool,
)
    requires
        data::conforms(build, build_types),
        data::conforms(probe, probe_types),
    ensures
        data::conforms(
            semantics::joined_row(build, probe, build_is_left),
            joined_types(build_types, probe_types, build_is_left),
        ),
{
}

/// One build row more.
proof fn lemma_matches_step(
    builds: Seq<RowView>,
    i: int,
    probe: RowView,
    build_is_left: bool,
    ps: Seq<CompiledView>,
)
    requires
        0 <= i < builds.len(),
    ensures
        semantics::matches_of(builds.take(i + 1), probe, build_is_left, ps)
            == if semantics::holds(
            semantics::joined_row(builds[i], probe, build_is_left),
            ps,
        ) {
            semantics::matches_of(builds.take(i), probe, build_is_left, ps).push(
                semantics::joined_row(builds[i], probe, build_is_left),
            )
        } else {
            semantics::matches_of(builds.take(i), probe, build_is_left, ps)
        },
{
    assert(builds.take(i + 1).drop_last() =~= builds.take(i));
}

/// Joins a row with each of those in memory.
#[verifier::rlimit(40)]
fn join_rows<R: Input, W: Output, F: RowOutput>(
    next: &mut RowSink<F>,
    rows: &Vec<Row>,
    types: Ghost<Seq<DataType>>,
    probe: &Row,
    probe_types: Ghost<Seq<DataType>>,
    build_is_left: bool,
    predicates: &Vec<CompiledPredicate>,
    disk: &mut DiskClient<R, W>,
    scratch: &mut ScratchSpace,
) -> (r: Result<(), DbError>)
    requires
        old(next).wf(*old(disk), *old(scratch)),
        old(scratch).wf(),
        row_codec::all_conform(row::row_views(rows@), types@),
        data::conforms(probe@, probe_types@),
        old(next).types() == joined_types(types@, probe_types@, build_is_left),
    ensures
        scratch_run::kept(
            *old(disk),
            *old(scratch),
            *final(disk),
            *final(scratch),
            old(next).own(),
        ),
        r is Ok ==> advanced(
            *old(next),
            *old(disk),
            *old(scratch),
            *final(next),
            *final(disk),
            *final(scratch),
        ),
        old(next).dry() ==> *final(scratch) == *old(scratch),
        r is Ok ==> settled(*old(next), *old(scratch), *final(next), *final(scratch)),
        r is Ok ==> final(next).log() == old(next).log() + semantics::matches_of(
            row::row_views(rows@),
            probe@,
            build_is_left,
            executor::compiled_views(predicates@),
        ),
        r matches Err(e) ==> !scratch_run::able(*final(disk), *final(scratch))
            || semantics::probe_fails(
            row::row_views(rows@),
            probe@,
            build_is_left,
            executor::compiled_views(predicates@),
            e,
        ) || old(next).shape().excuses(
            e,
            old(scratch).size() as int,
            old(next).log() + semantics::matches_of(
                row::row_views(rows@),
                probe@,
                build_is_left,
                executor::compiled_views(predicates@),
            ),
        ),
    decreases old(next).shape().depth() + 1, 1nat,
{
    let ghost (d0, s0) = (*disk, *scratch);
    let ghost start = *next;
    let ghost builds = row::row_views(rows@);
    let ghost ps = executor::compiled_views(predicates@);
    let total: usize = rows.len();
    let mut i: usize = 0;
    proof {
        frame::lemma_kept_refl(*disk, *scratch, start.own());
        assert(builds.take(0) =~= Seq::<RowView>::empty());
        assert(start.log() + Seq::<RowView>::empty() =~= start.log());
    }
    while i < total
        invariant
            i <= total,
            total == rows@.len(),
            builds == row::row_views(rows@),
            ps == executor::compiled_views(predicates@),
            row_codec::all_conform(builds, types@),
            data::conforms(probe@, probe_types@),
            start.types() == joined_types(types@, probe_types@, build_is_left),
            scratch.wf(),
            scratch_run::kept(d0, s0, *disk, *scratch, start.own()),
            advanced(start, d0, s0, *next, *disk, *scratch),
            start.dry() ==> *scratch == s0,
            settled(start, s0, *next, *scratch),
            next.log() == start.log() + semantics::matches_of(
                builds.take(i as int),
                probe@,
                build_is_left,
                ps,
            ),
            d0 == *old(disk),
            s0 == *old(scratch),
            start == *old(next),
        decreases total - i,
    {
        let ghost (d1, s1) = (*disk, *scratch);
        let ghost before = *next;
        proof {
            start.lemma_shape_types(*next);
            assert(data::conforms(builds[i as int], types@));
            lemma_joined_conforms(
                builds[i as int],
                probe@,
                types@,
                probe_types@,
                build_is_left,
            );
        }
        let result = emit_match(
            next,
            &rows[i],
            probe,
            build_is_left,
            predicates,
            disk,
            scratch,
        );
        proof {
            frame::lemma_kept_trans(
                d0,
                s0,
                d1,
                s1,
                *disk,
                *scratch,
                start.own(),
                before.own(),
            );
            if result is Err {
                let e = result->Err_0;
                let size = s0.size() as int;
                let pair = semantics::joined_row(builds[i as int], probe@, build_is_left);
                let rows = (start.log() + semantics::matches_of(
                    builds.take(i as int),
                    probe@,
                    build_is_left,
                    ps,
                )).push(pair);
                if semantics::holds(pair, ps) && start.shape().excuses(
                    e,
                    size,
                    rows,
                ) {
                    lemma_matches_excuses(
                        start.shape(),
                        start.log(),
                        builds,
                        i as int,
                        probe@,
                        build_is_left,
                        ps,
                        e,
                        size,
                    );
                }
            }
        }
        result?;
        proof {
            frame::lemma_grown_trans(d0, s0, d1, s1, start.own(), before.own(), next.own());
            lemma_matches_step(builds, i as int, probe@, build_is_left, ps);
            let front = semantics::matches_of(builds.take(i as int), probe@, build_is_left, ps);
            let pair = semantics::joined_row(builds[i as int], probe@, build_is_left);
            assert((start.log() + front).push(pair) =~= start.log() + front.push(pair));
        }
        i = i + 1;
    }
    assert(builds.take(i as int) =~= builds);
    Ok(())
}

/// The blocks of a run that is read hold what they held.
pub proof fn lemma_run_still<R: Input, W: Output>(
    ids: Seq<u64>,
    d0: DiskClient<R, W>,
    s0: ScratchSpace,
    d1: DiskClient<R, W>,
    s1: ScratchSpace,
    own: Set<int>,
)
    requires
        scratch_run::in_use(scratch_run::ids_set(ids), s0),
        scratch_run::kept(d0, s0, d1, s1, own),
        scratch_run::ids_set(ids).disjoint(own),
    ensures
        forall|k: int|
            0 <= k < ids.len() ==> d1.scratch()[#[trigger] ids[k] as int]
                == d0.scratch()[ids[k] as int],
        scratch_run::in_use(scratch_run::ids_set(ids), s1),
        frame::trusty(d1, s1) ==> scratch_run::above(ids, d1.layout().anon_start as int),
{
    frame::lemma_in_use_kept(d0, s0, d1, s1, own, scratch_run::ids_set(ids));
    assert forall|k: int| 0 <= k < ids.len() implies d1.scratch()[#[trigger] ids[k] as int]
        == d0.scratch()[ids[k] as int] by {
        assert(scratch_run::ids_set(ids).contains(ids[k] as int));
    }
    if frame::trusty(d1, s1) {
        frame::lemma_run_above(d1, s1, ids);
    }
}

/// Joins a row with each of those of a run.
#[verifier::rlimit(40)]
fn join_run<R: Input, W: Output, F: RowOutput>(
    next: &mut RowSink<F>,
    run: &ScratchRun,
    schema: &Schema,
    builds: Ghost<Seq<RowView>>,
    probe: &Row,
    probe_types: Ghost<Seq<DataType>>,
    build_is_left: bool,
    predicates: &Vec<CompiledPredicate>,
    disk: &mut DiskClient<R, W>,
    scratch: &mut ScratchSpace,
) -> (r: Result<(), DbError>)
    requires
        old(next).wf(*old(disk), *old(scratch)),
        old(scratch).wf(),
        scratch_run::in_use(scratch_run::ids_set(run@), *old(scratch)),
        scratch_run::ids_set(run@).disjoint(old(next).own()),
        scratch_run::run_rows(old(disk).scratch(), run@, schema.types()) == Ok::<
            Seq<RowView>,
            DbError,
        >(builds@),
        data::conforms(probe@, probe_types@),
        old(next).types() == joined_types(schema.types(), probe_types@, build_is_left),
    ensures
        scratch_run::kept(
            *old(disk),
            *old(scratch),
            *final(disk),
            *final(scratch),
            old(next).own(),
        ),
        r is Ok ==> advanced(
            *old(next),
            *old(disk),
            *old(scratch),
            *final(next),
            *final(disk),
            *final(scratch),
        ),
        old(next).dry() ==> *final(scratch) == *old(scratch),
        r is Ok ==> settled(*old(next), *old(scratch), *final(next), *final(scratch)),
        r is Ok && frame::trusty(*final(disk), *final(scratch)) ==> final(next).log() == old(
            next).log() + semantics::matches_of(
            builds@,
            probe@,
            build_is_left,
            executor::compiled_views(predicates@),
        ),
        r matches Err(e) ==> !scratch_run::able(*final(disk), *final(scratch))
            || semantics::probe_fails(
            builds@,
            probe@,
            build_is_left,
            executor::compiled_views(predicates@),
            e,
        ) || old(next).shape().excuses(
            e,
            old(scratch).size() as int,
            old(next).log() + semantics::matches_of(
                builds@,
                probe@,
                build_is_left,
                executor::compiled_views(predicates@),
            ),
        ),
    decreases old(next).shape().depth() + 1, 1nat,
{
    let ghost (d0, s0) = (*disk, *scratch);
    let ghost start = *next;
    let ghost types = schema.types();
    let ghost ps = executor::compiled_views(predicates@);
    let mut cursor = ScratchRunCursor::with_batch(run, SCRATCH_STREAM_BATCH_BLOCKS);
    let ghost mut done: int = 0;
    proof {
        frame::lemma_kept_refl(*disk, *scratch, start.own());
        assert(builds@.take(0) =~= Seq::<RowView>::empty());
        assert(builds@.skip(0) =~= builds@);
        assert(start.log() + Seq::<RowView>::empty() =~= start.log());
        assert(cursor.rest(d0.scratch(), types) == Ok::<Seq<RowView>, DbError>(builds@));
    }
    loop
        invariant
            0 <= done,
            types == schema.types(),
            ps == executor::compiled_views(predicates@),
            cursor.wf(types),
            cursor.ids() == run@,
            cursor.batch() == SCRATCH_STREAM_BATCH_BLOCKS,
            scratch_run::in_use(scratch_run::ids_set(run@), s0),
            scratch_run::ids_set(run@).disjoint(start.own()),
            data::conforms(probe@, probe_types@),
            start.types() == joined_types(types, probe_types@, build_is_left),
            scratch.wf(),
            scratch_run::kept(d0, s0, *disk, *scratch, start.own()),
            advanced(start, d0, s0, *next, *disk, *scratch),
            start.dry() ==> *scratch == s0,
            settled(start, s0, *next, *scratch),
            frame::trusty(*disk, *scratch) ==> {
                &&& done <= builds@.len()
                &&& cursor.rest(d0.scratch(), types) == Ok::<Seq<RowView>, DbError>(
                    builds@.skip(done),
                )
                &&& next.log() == start.log() + semantics::matches_of(
                    builds@.take(done),
                    probe@,
                    build_is_left,
                    ps,
                )
            },
            d0 == *old(disk),
            s0 == *old(scratch),
            start == *old(next),
        decreases cursor.blocks_left(), cursor.held(),
    {
        let ghost (d1, s1) = (*disk, *scratch);
        let ghost before = *next;
        let ghost old_cursor = cursor;
        proof {
            lemma_run_still(run@, d0, s0, d1, s1, start.own());
            cursor.lemma_rest_same(d0.scratch(), d1.scratch(), types);
        }
        let result = cursor.next_row(schema, disk);
        let ghost (d2, s2) = (*disk, *scratch);
        proof {
            frame::lemma_kept_read(d1, s1, d2, Set::<int>::empty());
            frame::lemma_kept_trans(
                d0,
                s0,
                d1,
                s1,
                d2,
                s2,
                start.own(),
                Set::<int>::empty(),
            );
            before.lemma_wf_kept(d1, s1, d2, s2, Set::<int>::empty());
        }
        match result? {
            Some(row) => {
                proof {
                    start.lemma_shape_types(*next);
                    lemma_joined_conforms(row@, probe@, types, probe_types@, build_is_left);
                }
                let result = emit_match(
                    next,
                    &row,
                    probe,
                    build_is_left,
                    predicates,
                    disk,
                    scratch,
                );
                proof {
                    frame::lemma_kept_trans(
                        d0,
                        s0,
                        d2,
                        s2,
                        *disk,
                        *scratch,
                        start.own(),
                        before.own(),
                    );
                    if frame::trusty(*disk, *scratch) {
                        assert(frame::trusty(d2, s2));
                        cursor.lemma_rest_same(d0.scratch(), d1.scratch(), types);
                        let rest = builds@.skip(done);
                        let tail = cursor.rest(d1.scratch(), types)->Ok_0;
                        assert(seq![row@] + tail == rest);
                        assert((seq![row@] + tail).len() == 1 + tail.len());
                        assert((seq![row@] + tail)[0] == row@);
                        assert(rest.len() == builds@.len() - done);
                        assert(rest[0] == builds@[done]);
                        assert(builds@[done] == row@);
                        if result is Err {
                            let e = result->Err_0;
                            let size = s0.size() as int;
                            let pair = semantics::joined_row(builds@[done], probe@, build_is_left);
                            let rows = (start.log() + semantics::matches_of(
                                builds@.take(done),
                                probe@,
                                build_is_left,
                                ps,
                            )).push(pair);
                            if semantics::holds(pair, ps) && start.shape().excuses(
                                e,
                                size,
                                rows,
                            ) {
                                lemma_matches_excuses(
                                    start.shape(),
                                    start.log(),
                                    builds@,
                                    done,
                                    probe@,
                                    build_is_left,
                                    ps,
                                    e,
                                    size,
                                );
                            }
                        }
                    }
                }
                result?;
                proof {
                    frame::lemma_grown_trans(
                        d0,
                        s0,
                        d2,
                        s2,
                        start.own(),
                        before.own(),
                        next.own(),
                    );
                    if frame::trusty(*disk, *scratch) {
                        let rest = builds@.skip(done);
                        let tail = cursor.rest(d1.scratch(), types)->Ok_0;
                        assert(tail =~= builds@.skip(done + 1)) by {
                            assert(rest.skip(1) =~= builds@.skip(done + 1));
                            assert((seq![row@] + tail).skip(1) =~= tail);
                        }
                        lemma_matches_step(builds@, done, probe@, build_is_left, ps);
                        let front = semantics::matches_of(
                            builds@.take(done),
                            probe@,
                            build_is_left,
                            ps,
                        );
                        let pair = semantics::joined_row(row@, probe@, build_is_left);
                        assert((start.log() + front).push(pair) =~= start.log() + front.push(
                            pair,
                        ));
                    }
                    done = done + 1;
                }
            },
            None => {
                proof {
                    if frame::trusty(*disk, *scratch) {
                        assert(builds@.skip(done) =~= Seq::<RowView>::empty());
                        assert(builds@.skip(done).len() == builds@.len() - done);
                        assert(builds@.take(done) =~= builds@);
                    }
                }
                return Ok(());
            },
        }
    }
}

/// Joins a row with those of a table that have its digest.
#[verifier::rlimit(40)]
fn join_bucket<R: Input, W: Output, F: RowOutput>(
    next: &mut RowSink<F>,
    table: &JoinHashTable,
    digest: u64,
    schema: &Schema,
    probe: &Row,
    probe_types: Ghost<Seq<DataType>>,
    build_is_left: bool,
    predicates: &Vec<CompiledPredicate>,
    disk: &mut DiskClient<R, W>,
    scratch: &mut ScratchSpace,
) -> (r: Result<(), DbError>)
    requires
        old(next).wf(*old(disk), *old(scratch)),
        old(scratch).wf(),
        table.wf(),
        row_codec::all_conform(table.rows_for(digest), schema.types()),
        data::conforms(probe@, probe_types@),
        old(next).types() == joined_types(schema.types(), probe_types@, build_is_left),
    ensures
        scratch_run::kept(
            *old(disk),
            *old(scratch),
            *final(disk),
            *final(scratch),
            old(next).own(),
        ),
        r is Ok ==> advanced(
            *old(next),
            *old(disk),
            *old(scratch),
            *final(next),
            *final(disk),
            *final(scratch),
        ),
        old(next).dry() ==> *final(scratch) == *old(scratch),
        r is Ok ==> settled(*old(next), *old(scratch), *final(next), *final(scratch)),
        r is Ok ==> final(next).log() == old(next).log() + semantics::matches_of(
            table.rows_for(digest),
            probe@,
            build_is_left,
            executor::compiled_views(predicates@),
        ),
        r matches Err(e) ==> !scratch_run::able(*final(disk), *final(scratch))
            || semantics::probe_fails(
            table.rows_for(digest),
            probe@,
            build_is_left,
            executor::compiled_views(predicates@),
            e,
        ) || old(next).shape().excuses(
            e,
            old(scratch).size() as int,
            old(next).log() + semantics::matches_of(
                table.rows_for(digest),
                probe@,
                build_is_left,
                executor::compiled_views(predicates@),
            ),
        ),
    decreases old(next).shape().depth() + 1, 1nat,
{
    let ghost (d0, s0) = (*disk, *scratch);
    let ghost start = *next;
    let ghost builds = table.rows_for(digest);
    let ghost ps = executor::compiled_views(predicates@);
    proof {
        frame::lemma_kept_refl(*disk, *scratch, start.own());
        assert(builds.take(0) =~= Seq::<RowView>::empty());
        assert(start.log() + Seq::<RowView>::empty() =~= start.log());
    }
    let bucket = match table.get(digest) {
        Some(bucket) => bucket,
        None => {
            return Ok(());
        },
    };
    let total: usize = bucket.len();
    let mut i: usize = 0;
    proof {
        assert(hash::stored(bucket@).len() == scratch_run::encodings(builds).len());
    }
    while i < total
        invariant
            i <= total,
            total == bucket@.len(),
            total == builds.len(),
            builds == table.rows_for(digest),
            hash::stored(bucket@) == scratch_run::encodings(builds),
            ps == executor::compiled_views(predicates@),
            row_codec::all_conform(builds, schema.types()),
            data::conforms(probe@, probe_types@),
            start.types() == joined_types(schema.types(), probe_types@, build_is_left),
            scratch.wf(),
            scratch_run::kept(d0, s0, *disk, *scratch, start.own()),
            advanced(start, d0, s0, *next, *disk, *scratch),
            start.dry() ==> *scratch == s0,
            settled(start, s0, *next, *scratch),
            next.log() == start.log() + semantics::matches_of(
                builds.take(i as int),
                probe@,
                build_is_left,
                ps,
            ),
            d0 == *old(disk),
            s0 == *old(scratch),
            start == *old(next),
        decreases total - i,
    {
        let ghost (d1, s1) = (*disk, *scratch);
        let ghost before = *next;
        proof {
            start.lemma_shape_types(*next);
            assert(data::conforms(builds[i as int], schema.types()));
            assert(hash::stored(bucket@)[i as int] == scratch_run::encodings(builds)[i as int]);
            row_codec::lemma_row_round_trip(builds[i as int], schema.types(), Seq::empty());
            let e = row::encoded_row(builds[i as int]);
            assert(e + Seq::<u8>::empty() =~= e);
            lemma_joined_conforms(
                builds[i as int],
                probe@,
                schema.types(),
                probe_types@,
                build_is_left,
            );
        }
        let build = decode_row_from_bytes(&bucket[i], schema)?;
        let result = emit_match(
            next,
            &build,
            probe,
            build_is_left,
            predicates,
            disk,
            scratch,
        );
        proof {
            frame::lemma_kept_trans(
                d0,
                s0,
                d1,
                s1,
                *disk,
                *scratch,
                start.own(),
                before.own(),
            );
            if result is Err {
                let e = result->Err_0;
                let size = s0.size() as int;
                let pair = semantics::joined_row(builds[i as int], probe@, build_is_left);
                let rows = (start.log() + semantics::matches_of(
                    builds.take(i as int),
                    probe@,
                    build_is_left,
                    ps,
                )).push(pair);
                if semantics::holds(pair, ps) && start.shape().excuses(
                    e,
                    size,
                    rows,
                ) {
                    lemma_matches_excuses(
                        start.shape(),
                        start.log(),
                        builds,
                        i as int,
                        probe@,
                        build_is_left,
                        ps,
                        e,
                        size,
                    );
                }
            }
        }
        result?;
        proof {
            frame::lemma_grown_trans(d0, s0, d1, s1, start.own(), before.own(), next.own());
            lemma_matches_step(builds, i as int, probe@, build_is_left, ps);
            let front = semantics::matches_of(builds.take(i as int), probe@, build_is_left, ps);
            let pair = semantics::joined_row(builds[i as int], probe@, build_is_left);
            assert((start.log() + front).push(pair) =~= start.log() + front.push(pair));
        }
        i = i + 1;
    }
    assert(builds.take(i as int) =~= builds);
    Ok(())
}

impl<F: RowOutput> RowSink<F> {
    /// A sink that hands rows of the schema to an output.
    pub fn to_output(output: F, schema: &Schema) -> (r: RowSink<F>)
        ensures
            r matches RowSink::Output(s) && s.output == output,
            r.types() == schema.types(),
            r.own() == Set::<int>::empty(),
    {
        RowSink::Output(OutputSink { output, types: Ghost(schema.types()) })
    }

    /// The output, where rows go to one.
    pub fn into_output(self) -> (r: Option<F>)
        ensures
            match self {
                RowSink::Output(s) => r == Some(s.output),
                _ => r is None,
            },
    {
        match self {
            RowSink::Output(s) => Some(s.output),
            _ => None,
        }
    }
}

impl<F: RowOutput> RowSink<F> {
    /// Takes a row.
    #[verifier::rlimit(40)]
    pub fn push<R: Input, W: Output>(
        &mut self,
        row: Row,
        disk: &mut DiskClient<R, W>,
        scratch: &mut ScratchSpace,
    ) -> (r: Result<(), DbError>)
        requires
            old(self).wf(*old(disk), *old(scratch)),
            old(scratch).wf(),
            data::conforms(row@, old(self).types()),
        ensures
            scratch_run::kept(
                *old(disk),
                *old(scratch),
                *final(disk),
                *final(scratch),
                old(self).own(),
            ),
            r is Ok ==> advanced(
                *old(self),
                *old(disk),
                *old(scratch),
                *final(self),
                *final(disk),
                *final(scratch),
            ),
            old(self).dry() ==> *final(scratch) == *old(scratch),
            r is Ok ==> settled(*old(self), *old(scratch), *final(self), *final(scratch)),
            r is Ok ==> final(self).log() == old(self).log().push(row@),
            old(self).shape().local() ==> *final(disk) == *old(disk) && *final(scratch) == *old(
                scratch),
            r matches Err(e) ==> !(old(self).shape().local() || scratch_run::able(
                *final(disk),
                *final(scratch),
            )) || old(self).shape().excuses(
                e,
                old(scratch).size() as int,
                old(self).log().push(row@),
            ),
        decreases old(self).shape().depth(), 6nat,
    {
        proof {
            frame::lemma_kept_refl(*disk, *scratch, self.own());
            assert(self.log().push(row@)[self.log().len() as int] == row@);
            self.lemma_shape_types(*self);
        }
        match self {
            RowSink::Output(s) => s.output.emit(row),
            RowSink::Node(s) => s.push(row, disk, scratch),
            RowSink::Materialize(s) => s.push(row, disk, scratch),
            RowSink::Build(s) => s.push(row),
            RowSink::HybridBuild(s) => s.push(row, disk, scratch),
            RowSink::Partition(s) => s.push(row, disk, scratch),
            RowSink::Sort(s) => s.push(row, disk, scratch),
        }
    }
}

/// A stage took a row and handed on what it makes of it.
proof fn lemma_node_step<R: Input, W: Output, F: RowOutput>(
    before: SinkNode<F>,
    after: SinkNode<F>,
    r: RowView,
    delta: Seq<RowView>,
    d0: DiskClient<R, W>,
    s0: ScratchSpace,
    d1: DiskClient<R, W>,
    s1: ScratchSpace,
)
    requires
        RowSink::Node(before).wf(d0, s0),
        data::conforms(r, before.stage.view().types()),
        after.stage.view() == before.stage.view(),
        after.stage.own() == before.stage.own(),
        after.stage.held() == before.stage.held(),
        after.stage.wf(d1, s1, before.next.types(), after.log@),
        after.base@ == before.base@,
        after.log@ == before.log@.push(r),
        scratch_run::kept(d0, s0, d1, s1, before.next.own()),
        advanced(*before.next, d0, s0, *after.next, d1, s1),
        settled(*before.next, s0, *after.next, s1),
        frame::trusty(d1, s1) ==> after.next.log() == before.next.log() + delta,
        before.stage.view().image(before.log@.push(r)) == before.stage.view().image(before.log@)
            + delta,
    ensures
        scratch_run::kept(d0, s0, d1, s1, RowSink::Node(before).own()),
        advanced(RowSink::Node(before), d0, s0, RowSink::Node(after), d1, s1),
        settled(RowSink::Node(before), s0, RowSink::Node(after), s1),
{
    let whole = RowSink::Node(before);
    let view = before.stage.view();
    before.stage.lemma_own_in_use(d0, s0, before.next.types(), before.log@);
    assert forall|b: int| #[trigger] before.next.own().contains(b) implies whole.own().contains(
        b,
    ) by {}
    frame::lemma_kept_more(d0, s0, d1, s1, before.next.own(), whole.own());
    assert(before.stage.own().disjoint(after.next.own())) by {
        assert forall|b: int| !(#[trigger] before.stage.own().contains(b)
            && after.next.own().contains(b)) by {
            if before.stage.own().contains(b) {
                assert(s0.allocated(b));
            }
        }
    }
    assert(before.stage.held().disjoint(after.next.own())) by {
        assert forall|b: int| !(#[trigger] before.stage.held().contains(b)
            && after.next.own().contains(b)) by {
            if before.stage.held().contains(b) {
                assert(s0.allocated(b));
            }
        }
    }
    assert forall|b: int| #[trigger] RowSink::Node(after).own().contains(b) implies whole.own().contains(
        b,
    ) || !s0.allocated(b) by {
        if after.next.own().contains(b) && s0.allocated(b) {
            assert(before.next.own().contains(b));
        }
    }
    before.next.lemma_shape_types(*after.next);
    partition::lemma_conform_push(before.log@, r, view.types());
    if frame::trusty(d1, s1) {
        let image = view.image(before.log@);
        assert((before.base@ + image) + delta =~= before.base@ + (image + delta));
    }
}

/// What the next sink can meet of a stage's results, the stage can of its rows.
proof fn lemma_node_excuses<R: Input, W: Output, F: RowOutput>(
    node: SinkNode<F>,
    e: DbError,
    size: int,
    r: RowView,
    delta: Seq<RowView>,
    disk: DiskClient<R, W>,
    scratch: ScratchSpace,
)
    requires
        RowSink::Node(node).wf(disk, scratch),
        frame::trusty(disk, scratch),
        node.stage.view().image(node.log@.push(r)) == node.stage.view().image(node.log@) + delta,
        node.next.shape().excuses(
            e,
            size,
            node.next.log() + delta,
        ),
    ensures
        RowSink::Node(node).shape().excuses(e, size, node.log@.push(r)),
{
    let image = node.stage.view().image(node.log@);
    assert((node.base@ + image) + delta =~= node.base@ + (image + delta));
}

/// What a sink can meet of a pair of rows, it can of all that match.
proof fn lemma_matches_excuses(
    shape: Shape,
    log: Seq<RowView>,
    builds: Seq<RowView>,
    i: int,
    probe: RowView,
    build_is_left: bool,
    ps: Seq<CompiledView>,
    e: DbError,
    size: int,
)
    requires
        0 <= i < builds.len(),
        semantics::holds(semantics::joined_row(builds[i], probe, build_is_left), ps),
        shape.excuses(
            e,
            size,
            (log + semantics::matches_of(builds.take(i), probe, build_is_left, ps)).push(
                semantics::joined_row(builds[i], probe, build_is_left),
            ),
        ),
    ensures
        shape.excuses(
            e,
            size,
            log + semantics::matches_of(builds, probe, build_is_left, ps),
        ),
{
    let pair = semantics::joined_row(builds[i], probe, build_is_left);
    let front = semantics::matches_of(builds.take(i), probe, build_is_left, ps);
    let part = builds.take(i + 1);
    let more = semantics::matches_of(part, probe, build_is_left, ps);
    let all = semantics::matches_of(builds, probe, build_is_left, ps);
    lemma_matches_step(builds, i, probe, build_is_left, ps);
    assert((log + front).push(pair) =~= log + more);
    bag::lemma_within_front(part, builds);
    semantics::lemma_matches_within(part, builds, probe, build_is_left, ps);
    bag::lemma_within_front(log, log);
    bag::lemma_within_concat(log, more, log, all);
    lemma_excuses_within(shape, e, size, log + more, log + all);
}

/// A stage that keeps nothing of a row is as it was where others change.
proof fn lemma_stage_still<R: Input, W: Output>(
    stage: Stage,
    d0: DiskClient<R, W>,
    s0: ScratchSpace,
    d1: DiskClient<R, W>,
    s1: ScratchSpace,
    own: Set<int>,
    out: Seq<DataType>,
    log: Seq<RowView>,
    r: RowView,
)
    requires
        stage.wf(d0, s0, out, log),
        scratch_run::kept(d0, s0, d1, s1, own),
        stage.own().disjoint(own),
        stage.held().disjoint(own),
        stage matches Stage::Hybrid(s) ==> is_resident(
            row::as_ints(s.probe_keys@),
            spilled_flags(s.partitions@),
        )(r) || !s.filter.shows(hash::digest(r, row::as_ints(s.probe_keys@))),
    ensures
        stage.wf(d1, s1, out, log.push(r)),
{
    stage.lemma_wf_kept(d0, s0, d1, s1, own, out, log);
    if let Stage::Hybrid(s) = stage {
        let keys = row::as_ints(s.probe_keys@);
        let flags = spilled_flags(s.partitions@);
        assert forall|j: int| 0 <= j < PARTITION_FANOUT implies #[trigger] s.writers.parts()[j]
            == bag::select(log.push(r), is_deferred(keys, flags, j, s.shown())) by {
            bag::lemma_select_push(log, r, is_deferred(keys, flags, j, s.shown()));
            assert(!is_deferred(keys, flags, j, s.shown())(r));
        }
    }
}

/// Hands a row on, if it meets the predicates.
fn push_filter<R: Input, W: Output, F: RowOutput>(
    stage: &FilterStage,
    next: &mut RowSink<F>,
    row: Row,
    disk: &mut DiskClient<R, W>,
    scratch: &mut ScratchSpace,
) -> (r: Result<(), DbError>)
    requires
        old(next).wf(*old(disk), *old(scratch)),
        old(scratch).wf(),
        data::conforms(row@, old(next).types()),
    ensures
        scratch_run::kept(
            *old(disk),
            *old(scratch),
            *final(disk),
            *final(scratch),
            old(next).own(),
        ),
        r is Ok ==> advanced(
            *old(next),
            *old(disk),
            *old(scratch),
            *final(next),
            *final(disk),
            *final(scratch),
        ),
        old(next).dry() ==> *final(scratch) == *old(scratch),
        r is Ok ==> settled(*old(next), *old(scratch), *final(next), *final(scratch)),
        r is Ok ==> final(next).log() == old(next).log() + if semantics::holds(
            row@,
            executor::compiled_views(stage.predicates@),
        ) {
            seq![row@]
        } else {
            Seq::empty()
        },
        semantics::predicates_result(
            row@,
            executor::compiled_views(stage.predicates@),
        ) matches Err(e) ==> r == Err::<(), DbError>(e),
        r matches Err(e) ==> semantics::predicates_result(
            row@,
            executor::compiled_views(stage.predicates@),
        ) == Err::<bool, DbError>(e) || !scratch_run::able(*final(disk), *final(scratch))
            || (semantics::holds(row@, executor::compiled_views(stage.predicates@)) && old(
            next).shape().excuses(
            e,
            old(scratch).size() as int,
            old(next).log() + seq![row@],
        )),
    decreases old(next).shape().depth() + 1, 1nat,
{
    proof {
        frame::lemma_kept_refl(*disk, *scratch, next.own());
        assert(next.log() + Seq::<RowView>::empty() =~= next.log());
        assert(next.log() + seq![row@] =~= next.log().push(row@));
    }
    if row_satisfies_predicates(&row, &stage.predicates)? {
        next.push(row, disk, scratch)?;
    }
    Ok(())
}

/// Hands the picked values of a row on.
fn push_project<R: Input, W: Output, F: RowOutput>(
    stage: &ProjectStage,
    next: &mut RowSink<F>,
    row: Row,
    disk: &mut DiskClient<R, W>,
    scratch: &mut ScratchSpace,
) -> (r: Result<(), DbError>)
    requires
        old(next).wf(*old(disk), *old(scratch)),
        old(scratch).wf(),
        data::conforms(row@, stage.types@),
        Stage::Project(*stage).wf(
            *old(disk),
            *old(scratch),
            old(next).types(),
            Seq::<RowView>::empty(),
        ),
    ensures
        scratch_run::kept(
            *old(disk),
            *old(scratch),
            *final(disk),
            *final(scratch),
            old(next).own(),
        ),
        r is Ok ==> advanced(
            *old(next),
            *old(disk),
            *old(scratch),
            *final(next),
            *final(disk),
            *final(scratch),
        ),
        old(next).dry() ==> *final(scratch) == *old(scratch),
        r is Ok ==> settled(*old(next), *old(scratch), *final(next), *final(scratch)),
        r is Ok ==> final(next).log() == old(next).log() + seq![
            row::project_row(row@, row::as_ints(stage.indexes@)),
        ],
        r matches Err(e) ==> !scratch_run::able(*final(disk), *final(scratch))
            || old(next).shape().excuses(
            e,
            old(scratch).size() as int,
            old(next).log() + seq![row::project_row(row@, row::as_ints(stage.indexes@))],
        ),
    decreases old(next).shape().depth() + 1, 1nat,
{
    let ghost out = row::project_row(row@, row::as_ints(stage.indexes@));
    proof {
        frame::lemma_kept_refl(*disk, *scratch, next.own());
        assert(next.log() + seq![out] =~= next.log().push(out));
        assert(data::conforms(out, next.types())) by {
            assert forall|i: int| 0 <= i < out.len() implies (#[trigger] out[i]).data_type()
                == next.types()[i] && out[i].storable() by {
                let k = stage.indexes@[i];
                assert(row@[k as int].data_type() == stage.types@[k as int]);
            }
        }
    }
    let projected = row.into_project(&stage.indexes)?;
    next.push(projected, disk, scratch)
}

/// Joins a row with each of those that are kept.
fn push_loop<R: Input, W: Output, F: RowOutput>(
    stage: &LoopStage,
    next: &mut RowSink<F>,
    row: Row,
    disk: &mut DiskClient<R, W>,
    scratch: &mut ScratchSpace,
) -> (r: Result<(), DbError>)
    requires
        old(next).wf(*old(disk), *old(scratch)),
        old(scratch).wf(),
        data::conforms(row@, stage.types@),
        stage.build.own().disjoint(old(next).own()),
        Stage::Loop(*stage).wf(
            *old(disk),
            *old(scratch),
            old(next).types(),
            Seq::<RowView>::empty(),
        ),
    ensures
        scratch_run::kept(
            *old(disk),
            *old(scratch),
            *final(disk),
            *final(scratch),
            old(next).own(),
        ),
        r is Ok ==> advanced(
            *old(next),
            *old(disk),
            *old(scratch),
            *final(next),
            *final(disk),
            *final(scratch),
        ),
        old(next).dry() ==> *final(scratch) == *old(scratch),
        r is Ok ==> settled(*old(next), *old(scratch), *final(next), *final(scratch)),
        r is Ok && frame::trusty(*final(disk), *final(scratch)) ==> final(next).log() == old(
            next).log() + semantics::matches_of(
            stage.builds@,
            row@,
            stage.build_is_left,
            executor::compiled_views(stage.predicates@),
        ),
        r matches Err(e) ==> !scratch_run::able(*final(disk), *final(scratch))
            || semantics::probe_fails(
            stage.builds@,
            row@,
            stage.build_is_left,
            executor::compiled_views(stage.predicates@),
            e,
        ) || old(next).shape().excuses(
            e,
            old(scratch).size() as int,
            old(next).log() + semantics::matches_of(
                stage.builds@,
                row@,
                stage.build_is_left,
                executor::compiled_views(stage.predicates@),
            ),
        ),
    decreases old(next).shape().depth() + 1, 2nat,
{
    match &stage.build.run {
        Some(run) => join_run(
            next,
            run,
            &stage.build.schema,
            stage.builds,
            &row,
            stage.types,
            stage.build_is_left,
            &stage.predicates,
            disk,
            scratch,
        ),
        None => join_rows(
            next,
            &stage.build.rows,
            Ghost(stage.build.schema.types()),
            &row,
            stage.types,
            stage.build_is_left,
            &stage.predicates,
            disk,
            scratch,
        ),
    }
}

/// Joins a row with those of the table that match it.
fn push_hash<R: Input, W: Output, F: RowOutput>(
    stage: &HashStage,
    next: &mut RowSink<F>,
    row: Row,
    disk: &mut DiskClient<R, W>,
    scratch: &mut ScratchSpace,
) -> (r: Result<(), DbError>)
    requires
        old(next).wf(*old(disk), *old(scratch)),
        old(scratch).wf(),
        data::conforms(row@, stage.types@),
        Stage::Hash(*stage).wf(
            *old(disk),
            *old(scratch),
            old(next).types(),
            Seq::<RowView>::empty(),
        ),
    ensures
        scratch_run::kept(
            *old(disk),
            *old(scratch),
            *final(disk),
            *final(scratch),
            old(next).own(),
        ),
        r is Ok ==> advanced(
            *old(next),
            *old(disk),
            *old(scratch),
            *final(next),
            *final(disk),
            *final(scratch),
        ),
        old(next).dry() ==> *final(scratch) == *old(scratch),
        r is Ok ==> settled(*old(next), *old(scratch), *final(next), *final(scratch)),
        r is Ok ==> final(next).log() == old(next).log() + semantics::matches_of(
            stage.builds@,
            row@,
            stage.build_is_left,
            executor::compiled_views(stage.predicates@),
        ),
        r matches Err(e) ==> !scratch_run::able(*final(disk), *final(scratch))
            || semantics::probe_fails(
            stage.builds@,
            row@,
            stage.build_is_left,
            executor::compiled_views(stage.predicates@),
            e,
        ) || old(next).shape().excuses(
            e,
            old(scratch).size() as int,
            old(next).log() + semantics::matches_of(
                stage.builds@,
                row@,
                stage.build_is_left,
                executor::compiled_views(stage.predicates@),
            ),
        ),
    decreases old(next).shape().depth() + 1, 2nat,
{
    proof {
        frame::lemma_kept_refl(*disk, *scratch, next.own());
    }
    let key: u64 = join_key_digest_for_row(&row, &stage.probe_keys)?;
    proof {
        let pick = keys::has_digest(stage.build_keys@, key);
        let types = stage.build.schema.types();
        bag::lemma_within_front(stage.builds@, stage.builds@);
        bag::lemma_within_select(stage.builds@, stage.builds@, pick);
        assert forall|e: DbError| #[trigger]
            semantics::probe_fails(
                bag::select(stage.builds@, pick),
                row@,
                stage.build_is_left,
                executor::compiled_views(stage.predicates@),
                e,
            ) implies semantics::probe_fails(
            stage.builds@,
            row@,
            stage.build_is_left,
            executor::compiled_views(stage.predicates@),
            e,
        ) by {
            semantics::lemma_probe_fails_within(
                bag::select(stage.builds@, pick),
                stage.builds@,
                row@,
                stage.build_is_left,
                executor::compiled_views(stage.predicates@),
                e,
            );
        }
        partition::lemma_conform_select(stage.builds@, pick, types);
        lemma_conform_wide(stage.builds@, types);
        keys::lemma_matches_digest(
            stage.builds@,
            stage.build_keys@,
            row@,
            row::as_ints(stage.probe_keys@),
            stage.build.schema@.len(),
            stage.build_is_left,
            executor::compiled_views(stage.predicates@),
        );
    }
    join_bucket(
        next,
        &stage.build.rows_by_key,
        key,
        &stage.build.schema,
        &row,
        stage.types,
        stage.build_is_left,
        &stage.predicates,
        disk,
        scratch,
    )
}

/// Joins a row with those of its partition in memory.
fn join_resident<R: Input, W: Output, F: RowOutput>(
    stage: &HybridStage,
    next: &mut RowSink<F>,
    row: &Row,
    key: u64,
    index: usize,
    disk: &mut DiskClient<R, W>,
    scratch: &mut ScratchSpace,
) -> (r: Result<(), DbError>)
    requires
        old(next).wf(*old(disk), *old(scratch)),
        old(scratch).wf(),
        data::conforms(row@, stage.types@),
        stage.routed(row@, key, index as int),
        !stage.partitions@[index as int].spilled,
        old(next).types() == joined_types(stage.schema.types(), stage.types@, stage.build_is_left),
        row_codec::all_conform(stage.builds@, stage.schema.types()),
        hash_build::residents_ok(stage.partitions@, stage.builds@, stage.build_keys@),
        keys::keyed(
            stage.build_keys@,
            row::as_ints(stage.probe_keys@),
            stage.schema@.len(),
            stage.types@.len(),
            stage.build_is_left,
            executor::compiled_views(stage.predicates@),
        ),
    ensures
        scratch_run::kept(
            *old(disk),
            *old(scratch),
            *final(disk),
            *final(scratch),
            old(next).own(),
        ),
        r is Ok ==> advanced(
            *old(next),
            *old(disk),
            *old(scratch),
            *final(next),
            *final(disk),
            *final(scratch),
        ),
        old(next).dry() ==> *final(scratch) == *old(scratch),
        r is Ok ==> settled(*old(next), *old(scratch), *final(next), *final(scratch)),
        r is Ok ==> final(next).log() == old(next).log() + semantics::matches_of(
            stage.builds@,
            row@,
            stage.build_is_left,
            executor::compiled_views(stage.predicates@),
        ),
        r matches Err(e) ==> !scratch_run::able(*final(disk), *final(scratch))
            || semantics::probe_fails(
            stage.builds@,
            row@,
            stage.build_is_left,
            executor::compiled_views(stage.predicates@),
            e,
        ) || old(next).shape().excuses(
            e,
            old(scratch).size() as int,
            old(next).log() + semantics::matches_of(
                stage.builds@,
                row@,
                stage.build_is_left,
                executor::compiled_views(stage.predicates@),
            ),
        ),
    decreases old(next).shape().depth() + 1, 2nat,
{
    proof {
        lemma_resident_bucket(*stage, key, index as int, row@);
        let bucket = stage.partitions@[index as int].rows_by_key.rows_for(key);
        assert forall|e: DbError| #[trigger]
            semantics::probe_fails(
                bucket,
                row@,
                stage.build_is_left,
                executor::compiled_views(stage.predicates@),
                e,
            ) implies semantics::probe_fails(
            stage.builds@,
            row@,
            stage.build_is_left,
            executor::compiled_views(stage.predicates@),
            e,
        ) by {
            semantics::lemma_probe_fails_within(
                bucket,
                stage.builds@,
                row@,
                stage.build_is_left,
                executor::compiled_views(stage.predicates@),
                e,
            );
        }
    }
    join_bucket(
        next,
        &stage.partitions[index].rows_by_key,
        key,
        &stage.schema,
        row,
        stage.types,
        stage.build_is_left,
        &stage.predicates,
        disk,
        scratch,
    )
}

/// Rows with types are as wide as there are types.
pub proof fn lemma_conform_wide(rows: Seq<RowView>, types: Seq<DataType>)
    requires
        row_codec::all_conform(rows, types),
    ensures
        semantics::all_wide(rows, types.len()),
{
    assert forall|i: int| 0 <= i < rows.len() implies (#[trigger] rows[i]).len()
        == types.len() by {
        assert(data::conforms(rows[i], types));
    }
}

/// What a stage makes of one row more.
proof fn lemma_image_step(view: StageView, log: Seq<RowView>, r: RowView)
    ensures
        view.image(log.push(r)) == view.image(log) + match view {
            StageView::Filter { ps, .. } => if semantics::holds(r, ps) {
                seq![r]
            } else {
                Seq::empty()
            },
            StageView::Project { indexes, .. } => seq![row::project_row(r, indexes)],
            StageView::Probe { builds, build_is_left, ps, .. } => semantics::matches_of(
                builds,
                r,
                build_is_left,
                ps,
            ),
            StageView::Hybrid { builds, build_is_left, ps, keys, spilled, .. } => if is_resident(
                keys,
                spilled,
            )(r) {
                semantics::matches_of(builds, r, build_is_left, ps)
            } else {
                Seq::empty()
            },
        },
{
    match view {
        StageView::Filter { ps, .. } => {
            semantics::lemma_filter_push(log, r, ps);
            let front = semantics::filter_rows(log, ps);
            assert(front + seq![r] =~= front.push(r));
            assert(front + Seq::<RowView>::empty() =~= front);
        },
        StageView::Project { indexes, .. } => {
            assert(view.image(log.push(r)) =~= view.image(log) + seq![
                row::project_row(r, indexes),
            ]);
        },
        StageView::Probe { builds, build_is_left, ps, .. } => {
            semantics::lemma_probe_rows_push(builds, log, r, build_is_left, ps);
        },
        StageView::Hybrid { builds, build_is_left, ps, keys, spilled, .. } => {
            let pick = is_resident(keys, spilled);
            bag::lemma_select_push(log, r, pick);
            let front = bag::select(log, pick);
            semantics::lemma_probe_rows_push(builds, front, r, build_is_left, ps);
            let image = semantics::probe_rows(builds, front, build_is_left, ps);
            assert(image + Seq::<RowView>::empty() =~= image);
        },
    }
}

/// A stage sent a row to a run of its own.
proof fn lemma_node_deferred<R: Input, W: Output, F: RowOutput>(
    before: SinkNode<F>,
    after: SinkNode<F>,
    r: RowView,
    d0: DiskClient<R, W>,
    s0: ScratchSpace,
    d1: DiskClient<R, W>,
    s1: ScratchSpace,
)
    requires
        RowSink::Node(before).wf(d0, s0),
        data::conforms(r, before.stage.view().types()),
        after.next == before.next,
        after.stage.view() == before.stage.view(),
        after.stage.held() == before.stage.held(),
        after.stage.wf(d1, s1, before.next.types(), after.log@),
        after.base@ == before.base@,
        after.log@ == before.log@.push(r),
        scratch_run::kept(d0, s0, d1, s1, before.stage.own()),
        scratch_run::grown(before.stage.own(), s0, after.stage.own()),
        scratch_run::tidy(before.stage.own(), s0, after.stage.own(), s1),
        before.stage.view().image(before.log@.push(r)) == before.stage.view().image(before.log@),
    ensures
        advanced(RowSink::Node(before), d0, s0, RowSink::Node(after), d1, s1),
        settled(RowSink::Node(before), s0, RowSink::Node(after), s1),
{
    let whole = RowSink::Node(before);
    before.next.lemma_own_in_use(d0, s0);
    assert(before.next.own().disjoint(before.stage.own()));
    assert(before.next.held().disjoint(before.stage.own()));
    before.next.lemma_wf_kept(d0, s0, d1, s1, before.stage.own());
    assert(after.stage.own().disjoint(before.next.own())) by {
        assert forall|b: int| !(#[trigger] after.stage.own().contains(b)
            && before.next.own().contains(b)) by {
            if before.next.own().contains(b) {
                assert(s0.allocated(b));
            }
        }
    }
    assert(after.stage.own().disjoint(before.next.held())) by {
        assert forall|b: int| !(#[trigger] after.stage.own().contains(b)
            && before.next.held().contains(b)) by {
            if before.next.held().contains(b) {
                assert(s0.allocated(b));
            }
        }
    }
    assert forall|b: int| #[trigger] RowSink::Node(after).own().contains(b) implies whole.own().contains(
        b,
    ) || !s0.allocated(b) by {
        if after.stage.own().contains(b) && s0.allocated(b) {
            assert(before.stage.own().contains(b));
        }
    }
    partition::lemma_conform_push(before.log@, r, before.stage.view().types());
}

impl<F: RowOutput> SinkNode<F> {
    /// Takes a row.
    fn push<R: Input, W: Output>(
        &mut self,
        row: Row,
        disk: &mut DiskClient<R, W>,
        scratch: &mut ScratchSpace,
    ) -> (r: Result<(), DbError>)
        requires
            RowSink::Node(*old(self)).wf(*old(disk), *old(scratch)),
            old(scratch).wf(),
            data::conforms(row@, old(self).stage.view().types()),
        ensures
            scratch_run::kept(
                *old(disk),
                *old(scratch),
                *final(disk),
                *final(scratch),
                RowSink::Node(*old(self)).own(),
            ),
            r is Ok ==> advanced(
                RowSink::Node(*old(self)),
                *old(disk),
                *old(scratch),
                RowSink::Node(*final(self)),
                *final(disk),
                *final(scratch),
            ),
            RowSink::Node(*old(self)).dry() ==> *final(scratch) == *old(scratch),
            r is Ok ==> settled(
                RowSink::Node(*old(self)),
                *old(scratch),
                RowSink::Node(*final(self)),
                *final(scratch),
            ),
            r is Ok ==> final(self).log@ == old(self).log@.push(row@),
            r matches Err(e) ==> !scratch_run::able(*final(disk), *final(scratch))
                || RowSink::Node(*old(self)).shape().excuses(
                e,
                old(scratch).size() as int,
                old(self).log@.push(row@),
            ),
        decreases RowSink::Node(*old(self)).shape().depth(), 5nat,
    {
        let ghost start = *self;
        let ghost whole = RowSink::Node(start);
        let ghost log = self.log@;
        let ghost view = self.stage.view();
        let ghost (d0, s0) = (*disk, *scratch);
        let ghost r = row@;
        proof {
            start.next.lemma_shape_types(*start.next);
            assert(log.push(r)[log.len() as int] == r);
        }
        let result = match &self.stage {
            Stage::Filter(s) => push_filter(s, &mut self.next, row, disk, scratch),
            Stage::Project(s) => push_project(s, &mut self.next, row, disk, scratch),
            Stage::Loop(s) => push_loop(s, &mut self.next, row, disk, scratch),
            Stage::Hash(s) => push_hash(s, &mut self.next, row, disk, scratch),
            Stage::Hybrid(_) => {
                return self.push_hybrid(row, disk, scratch);
            },
        };
        proof {
            frame::lemma_kept_more(
                d0,
                s0,
                *disk,
                *scratch,
                start.next.own(),
                whole.own(),
            );
        }
        let ghost delta = match view {
            StageView::Filter { ps, .. } => if semantics::holds(r, ps) {
                seq![r]
            } else {
                Seq::empty()
            },
            StageView::Project { indexes, .. } => seq![row::project_row(r, indexes)],
            StageView::Probe { builds, build_is_left, ps, .. } => semantics::matches_of(
                builds,
                r,
                build_is_left,
                ps,
            ),
            _ => Seq::empty(),
        };
        proof {
            lemma_image_step(view, log, r);
            if result is Err && scratch_run::able(*disk, *scratch) {
                let e = result->Err_0;
                let size = s0.size() as int;
                if start.next.shape().excuses(e, size, start.next.log() + delta) {
                    lemma_node_excuses(start, e, size, r, delta, d0, s0);
                }
            }
        }
        result?;
        proof {
            self.log@ = log.push(r);
            lemma_stage_still(
                start.stage,
                d0,
                s0,
                *disk,
                *scratch,
                start.next.own(),
                start.next.types(),
                log,
                r,
            );
            lemma_node_step(start, *self, r, delta, d0, s0, *disk, *scratch);
        }
        Ok(())
    }

    /// Takes a row at a stage with partitions.
    fn push_hybrid<R: Input, W: Output>(
        &mut self,
        row: Row,
        disk: &mut DiskClient<R, W>,
        scratch: &mut ScratchSpace,
    ) -> (r: Result<(), DbError>)
        requires
            RowSink::Node(*old(self)).wf(*old(disk), *old(scratch)),
            old(scratch).wf(),
            data::conforms(row@, old(self).stage.view().types()),
            old(self).stage is Hybrid,
        ensures
            scratch_run::kept(
                *old(disk),
                *old(scratch),
                *final(disk),
                *final(scratch),
                RowSink::Node(*old(self)).own(),
            ),
            r is Ok ==> advanced(
                RowSink::Node(*old(self)),
                *old(disk),
                *old(scratch),
                RowSink::Node(*final(self)),
                *final(disk),
                *final(scratch),
            ),
            r is Ok ==> settled(
                RowSink::Node(*old(self)),
                *old(scratch),
                RowSink::Node(*final(self)),
                *final(scratch),
            ),
            r is Ok ==> final(self).log@ == old(self).log@.push(row@),
            r matches Err(e) ==> !scratch_run::able(*final(disk), *final(scratch))
                || RowSink::Node(*old(self)).shape().excuses(
                e,
                old(scratch).size() as int,
                old(self).log@.push(row@),
            ),
        decreases RowSink::Node(*old(self)).shape().depth(), 4nat,
    {
        let ghost start = *self;
        let ghost r = row@;
        proof {
            frame::lemma_kept_refl(*disk, *scratch, RowSink::Node(start).own());
        }
        let (key, index, spilled, shown) = match &self.stage {
            Stage::Hybrid(stage) => stage.route(&row)?,
            _ => {
                return Ok(());
            },
        };
        if !spilled {
            return self.push_resident(row, key, index, disk, scratch);
        }
        if shown {
            return self.push_deferred(row, index, disk, scratch);
        }
        proof {
            let stage = start.stage->Hybrid_0;
            let log = start.log@;
            assert(!is_resident(
                row::as_ints(stage.probe_keys@),
                spilled_flags(stage.partitions@),
            )(r));
            frame::lemma_kept_refl(*disk, *scratch, start.next.own());
            self.log@ = log.push(r);
            lemma_image_step(start.stage.view(), log, r);
            lemma_stage_still(
                start.stage,
                *disk,
                *scratch,
                *disk,
                *scratch,
                start.next.own(),
                start.next.types(),
                log,
                r,
            );
            let none = Seq::<RowView>::empty();
            assert(start.next.log() + none =~= start.next.log());
            lemma_node_step(start, *self, r, none, *disk, *scratch, *disk, *scratch);
        }
        Ok(())
    }

    /// Joins a row with those of its partition in memory.
    fn push_resident<R: Input, W: Output>(
        &mut self,
        row: Row,
        key: u64,
        index: usize,
        disk: &mut DiskClient<R, W>,
        scratch: &mut ScratchSpace,
    ) -> (r: Result<(), DbError>)
        requires
            RowSink::Node(*old(self)).wf(*old(disk), *old(scratch)),
            old(scratch).wf(),
            data::conforms(row@, old(self).stage.view().types()),
            old(self).stage matches Stage::Hybrid(stage) && stage.routed(
                row@,
                key,
                index as int,
            ) && !stage.partitions@[index as int].spilled,
        ensures
            scratch_run::kept(
                *old(disk),
                *old(scratch),
                *final(disk),
                *final(scratch),
                RowSink::Node(*old(self)).own(),
            ),
            r is Ok ==> advanced(
                RowSink::Node(*old(self)),
                *old(disk),
                *old(scratch),
                RowSink::Node(*final(self)),
                *final(disk),
                *final(scratch),
            ),
            r is Ok ==> settled(
                RowSink::Node(*old(self)),
                *old(scratch),
                RowSink::Node(*final(self)),
                *final(scratch),
            ),
            r is Ok ==> final(self).log@ == old(self).log@.push(row@),
            r matches Err(e) ==> !scratch_run::able(*final(disk), *final(scratch))
                || RowSink::Node(*old(self)).shape().excuses(
                e,
                old(scratch).size() as int,
                old(self).log@.push(row@),
            ),
        decreases RowSink::Node(*old(self)).shape().depth(), 3nat,
    {
        let ghost start = *self;
        let ghost whole = RowSink::Node(start);
        let ghost log = self.log@;
        let ghost (d0, s0) = (*disk, *scratch);
        let ghost r = row@;
        let ghost first = start.stage->Hybrid_0;
        let ghost keys = row::as_ints(first.probe_keys@);
        let result = match &self.stage {
            Stage::Hybrid(stage) => join_resident(
                stage,
                &mut self.next,
                &row,
                key,
                index,
                disk,
                scratch,
            ),
            _ => Ok(()),
        };
        proof {
            frame::lemma_kept_more(
                d0,
                s0,
                *disk,
                *scratch,
                start.next.own(),
                whole.own(),
            );
        }
        let ghost delta = semantics::matches_of(
            first.builds@,
            r,
            first.build_is_left,
            executor::compiled_views(first.predicates@),
        );
        proof {
            assert(is_resident(keys, spilled_flags(first.partitions@))(r));
            lemma_image_step(start.stage.view(), log, r);
            assert(log.push(r)[log.len() as int] == r);
            if result is Err && scratch_run::able(*disk, *scratch) {
                let e = result->Err_0;
                let size = s0.size() as int;
                if start.next.shape().excuses(e, size, start.next.log() + delta) {
                    lemma_node_excuses(start, e, size, r, delta, d0, s0);
                }
            }
        }
        result?;
        proof {
            self.log@ = log.push(r);
            lemma_stage_still(
                start.stage,
                d0,
                s0,
                *disk,
                *scratch,
                start.next.own(),
                start.next.types(),
                log,
                r,
            );
            lemma_node_step(start, *self, r, delta, d0, s0, *disk, *scratch);
        }
        Ok(())
    }

    /// Sends a row to the run of its partition.
    #[verifier::rlimit(40)]
    fn push_deferred<R: Input, W: Output>(
        &mut self,
        row: Row,
        index: usize,
        disk: &mut DiskClient<R, W>,
        scratch: &mut ScratchSpace,
    ) -> (r: Result<(), DbError>)
        requires
            RowSink::Node(*old(self)).wf(*old(disk), *old(scratch)),
            old(scratch).wf(),
            data::conforms(row@, old(self).stage.view().types()),
            old(self).stage matches Stage::Hybrid(stage) && stage.routed(
                row@,
                hash::digest(row@, row::as_ints(stage.probe_keys@)),
                index as int,
            ) && stage.partitions@[index as int].spilled && stage.filter.shows(
                hash::digest(row@, row::as_ints(stage.probe_keys@)),
            ),
        ensures
            scratch_run::kept(
                *old(disk),
                *old(scratch),
                *final(disk),
                *final(scratch),
                RowSink::Node(*old(self)).own(),
            ),
            r is Ok ==> advanced(
                RowSink::Node(*old(self)),
                *old(disk),
                *old(scratch),
                RowSink::Node(*final(self)),
                *final(disk),
                *final(scratch),
            ),
            r is Ok ==> settled(
                RowSink::Node(*old(self)),
                *old(scratch),
                RowSink::Node(*final(self)),
                *final(scratch),
            ),
            r is Ok ==> final(self).log@ == old(self).log@.push(row@),
            r matches Err(e) ==> !scratch_run::able(*final(disk), *final(scratch))
                || RowSink::Node(*old(self)).shape().excuses(
                e,
                old(scratch).size() as int,
                old(self).log@.push(row@),
            ),
    {
        let ghost start = *self;
        let ghost whole = RowSink::Node(start);
        let ghost log = self.log@;
        let ghost (d0, s0) = (*disk, *scratch);
        let ghost r = row@;
        let ghost first = start.stage->Hybrid_0;
        let ghost keys = row::as_ints(first.probe_keys@);
        let ghost flags = spilled_flags(first.partitions@);
        proof {
            frame::lemma_kept_refl(*disk, *scratch, whole.own());
            assert(log.push(r)[log.len() as int] == r);
        }
        let stage = match &mut self.stage {
            Stage::Hybrid(stage) => stage,
            _ => {
                return Ok(());
            },
        };
        let result = stage.writers.push(index, &row, disk, scratch);
        proof {
            frame::lemma_kept_more(d0, s0, *disk, *scratch, first.writers.own(), whole.own());
        }
        result?;
        proof {
            self.log@ = log.push(r);
            assert(flags[index as int]);
            assert(!is_resident(keys, flags)(r));
            lemma_image_step(start.stage.view(), log, r);
            let none = Seq::<RowView>::empty();
            let image = start.stage.view().image(log);
            assert(image + none =~= image);
            let last = self.stage->Hybrid_0;
            assert forall|j: int| 0 <= j < PARTITION_FANOUT implies #[trigger] last.writers.parts()[j]
                == bag::select(log.push(r), is_deferred(keys, flags, j, last.shown())) by {
                assert(first.writers.parts()[j] == bag::select(
                    log,
                    is_deferred(keys, flags, j, first.shown()),
                ));
                bag::lemma_select_push(log, r, is_deferred(keys, flags, j, first.shown()));
                assert(is_deferred(keys, flags, j, first.shown())(r) == (j == index));
            }
            lemma_node_deferred(start, *self, r, d0, s0, *disk, *scratch);
        }
        Ok(())
    }
}

impl HybridStage {
    /// Where a row belongs.
    pub open spec fn routed(self, r: RowView, key: u64, index: int) -> bool {
        let keys = row::as_ints(self.probe_keys@);
        &&& hash::keys_below(keys, r.len() as int)
        &&& key == hash::digest(r, keys)
        &&& index == hash::partition_of(key, 0)
        &&& 0 <= index < PARTITION_FANOUT
    }

    /// The digest and the partition of a row, whether the partition was sent to
    /// its run, and whether the filter shows the digest.
    fn route(&self, row: &Row) -> (r: Result<(u64, usize, bool, bool), DbError>)
        requires
            self.filter.wf(),
            self.partitions@.len() == PARTITION_FANOUT,
        ensures
            match r {
                Ok((key, index, spilled, shown)) => {
                    &&& self.routed(row@, key, index as int)
                    &&& spilled == self.partitions@[index as int].spilled
                    &&& shown == self.filter.shows(key)
                },
                Err(e) => e == DbError::BadIndex && !hash::keys_below(
                    row::as_ints(self.probe_keys@),
                    row@.len() as int,
                ),
            },
    {
        let key: u64 = join_key_digest_for_row(row, &self.probe_keys)?;
        let index: usize = partition_index_for_digest(key, 0);
        let spilled: bool = self.partitions[index].spilled;
        let shown: bool = self.filter.may_contain(key);
        Ok((key, index, spilled, shown))
    }
}

/// The rows of a partition in memory with the digest of a probe row are all
/// that can match it.
proof fn lemma_resident_bucket(stage: HybridStage, key: u64, index: int, r: RowView)
    requires
        stage.routed(r, key, index),
        !stage.partitions@[index].spilled,
        row_codec::all_conform(stage.builds@, stage.schema.types()),
        hash_build::residents_ok(stage.partitions@, stage.builds@, stage.build_keys@),
        keys::keyed(
            stage.build_keys@,
            row::as_ints(stage.probe_keys@),
            stage.schema@.len(),
            stage.types@.len(),
            stage.build_is_left,
            executor::compiled_views(stage.predicates@),
        ),
        data::conforms(r, stage.types@),
    ensures
        stage.partitions@[index].rows_by_key.wf(),
        row_codec::all_conform(
            stage.partitions@[index].rows_by_key.rows_for(key),
            stage.schema.types(),
        ),
        bag::within(stage.partitions@[index].rows_by_key.rows_for(key), stage.builds@),
        semantics::matches_of(
            stage.partitions@[index].rows_by_key.rows_for(key),
            r,
            stage.build_is_left,
            executor::compiled_views(stage.predicates@),
        ) == semantics::matches_of(
            stage.builds@,
            r,
            stage.build_is_left,
            executor::compiled_views(stage.predicates@),
        ),
{
    assert(hash_build::resident_ok(
        stage.partitions@[index],
        stage.builds@,
        stage.build_keys@,
        index,
    ));
    let pick = keys::has_digest(stage.build_keys@, key);
    let types = stage.schema.types();
    assert(stage.partitions@[index].rows_by_key.rows_for(key) == bag::select(
        stage.builds@,
        pick,
    ));
    bag::lemma_within_front(stage.builds@, stage.builds@);
    bag::lemma_within_select(stage.builds@, stage.builds@, pick);
    partition::lemma_conform_select(stage.builds@, pick, types);
    lemma_conform_wide(stage.builds@, types);
    keys::lemma_matches_digest(
        stage.builds@,
        stage.build_keys@,
        r,
        row::as_ints(stage.probe_keys@),
        stage.schema@.len(),
        stage.build_is_left,
        executor::compiled_views(stage.predicates@),
    );
}

} // verus!
