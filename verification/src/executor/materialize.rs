//! Rows that are kept to be walked again: in memory, or in a run where they do
//! not fit.

use vstd::prelude::*;

use crate::data;
use crate::data::{Data, DataType};
use crate::error::DbError;
use crate::executor::frame;
use crate::io::{Input, Output};
use crate::row;
use crate::row::{Row, Schema};
use crate::semantics::RowView;
use crate::storage::block_allocator::{ScratchRun, ScratchSpace};
use crate::storage::disk_client::DiskClient;
use crate::storage::row_codec;
use crate::storage::scratch_run;
use crate::storage::scratch_run::ScratchRunWriter;

verus! {

/// The least memory that rows take.
pub open spec fn least_bytes(rows: Seq<RowView>) -> nat
    decreases rows.len(),
{
    if rows.len() == 0 {
        0
    } else {
        least_bytes(rows.drop_last()) + vstd::layout::size_of::<Row>() + rows.last().len()
            * vstd::layout::size_of::<Data>() + row::text_bytes(rows.last())
    }
}

/// Rows in memory or in a run.
pub struct MaterializedRows {
    pub schema: Schema,
    pub rows: Vec<Row>,
    pub run: Option<ScratchRun>,
}

impl MaterializedRows {
    /// The blocks of the run.
    pub open spec fn own(self) -> Set<int> {
        match self.run {
            Some(run) => scratch_run::ids_set(run@),
            None => Set::empty(),
        }
    }

    /// What is kept is these rows.
    pub open spec fn keeps<R: Input, W: Output>(
        self,
        disk: DiskClient<R, W>,
        scratch: ScratchSpace,
        rows: Seq<RowView>,
    ) -> bool {
        &&& row_codec::all_conform(rows, self.schema.types())
        &&& match self.run {
            Some(run) => {
                &&& self.rows@.len() == 0
                &&& scratch_run::in_use(scratch_run::ids_set(run@), scratch)
                &&& scratch_run::run_rows(disk.scratch(), run@, self.schema.types()) == Ok::<
                    Seq<RowView>,
                    DbError,
                >(rows)
            },
            None => row::row_views(self.rows@) == rows,
        }
    }

    /// What is kept stays where other blocks change.
    pub proof fn lemma_keeps<R: Input, W: Output>(
        self,
        d0: DiskClient<R, W>,
        s0: ScratchSpace,
        d1: DiskClient<R, W>,
        s1: ScratchSpace,
        own: Set<int>,
        rows: Seq<RowView>,
    )
        requires
            self.keeps(d0, s0, rows),
            scratch_run::kept(d0, s0, d1, s1, own),
            self.own().disjoint(own),
        ensures
            self.keeps(d1, s1, rows),
            scratch_run::in_use(self.own(), s1),
    {
        if let Some(run) = self.run {
            frame::lemma_in_use_kept(d0, s0, d1, s1, own, self.own());
            assert forall|k: int| 0 <= k < run@.len() implies d0.scratch()[#[trigger] run@[k] as int]
                == d1.scratch()[run@[k] as int] by {
                assert(self.own().contains(run@[k] as int));
            }
            scratch_run::lemma_run_rows_same(
                d0.scratch(),
                d1.scratch(),
                run@,
                self.schema.types(),
            );
        }
    }

    /// Gives the blocks of the run back.
    pub fn release<R: Input, W: Output>(self, disk: &DiskClient<R, W>, scratch: &mut ScratchSpace)
        requires
            old(scratch).wf(),
            scratch_run::in_use(self.own(), *old(scratch)),
        ensures
            scratch_run::kept(*disk, *old(scratch), *disk, *final(scratch), self.own()),
            final(scratch).next() == old(scratch).next(),
            forall|b: int| #[trigger]
                final(scratch).allocated(b) <==> old(scratch).allocated(b) && !self.own().contains(
                    b,
                ),
    {
        if let Some(run) = self.run {
            frame::release_run(run, disk, scratch);
        }
    }
}

/// Rows on their way to be kept.
pub struct Materializer {
    schema: Schema,
    rows: Vec<Row>,
    bytes: usize,
    writer: Option<ScratchRunWriter>,
    budget: usize,
    log: Ghost<Seq<RowView>>,
}

impl Materializer {
    /// The rows that were pushed.
    pub closed spec fn log(self) -> Seq<RowView> {
        self.log@
    }

    /// The columns of the rows.
    pub closed spec fn schema(self) -> Schema {
        self.schema
    }

    /// The types of the rows.
    pub open spec fn types(self) -> Seq<DataType> {
        self.schema().types()
    }

    /// The memory that the rows may take.
    pub closed spec fn budget(self) -> usize {
        self.budget
    }

    /// The blocks in which rows are kept.
    pub closed spec fn own(self) -> Set<int> {
        match self.writer {
            Some(writer) => writer.own(),
            None => Set::empty(),
        }
    }

    /// What was pushed is kept.
    pub closed spec fn wf<R: Input, W: Output>(
        self,
        disk: DiskClient<R, W>,
        scratch: ScratchSpace,
    ) -> bool {
        &&& row_codec::all_conform(self.log@, self.schema.types())
        &&& match self.writer {
            Some(writer) => {
                &&& writer.wf(disk, scratch)
                &&& writer.items() == scratch_run::encodings(self.log@)
                &&& writer.block_size() == scratch.size()
            },
            None => {
                &&& row::row_views(self.rows@) == self.log@
                &&& row::saturated(least_bytes(self.log@)) <= self.bytes <= self.budget
            },
        }
    }

    /// What was pushed stays where other blocks change.
    pub proof fn lemma_wf_kept<R: Input, W: Output>(
        self,
        d0: DiskClient<R, W>,
        s0: ScratchSpace,
        d1: DiskClient<R, W>,
        s1: ScratchSpace,
        own: Set<int>,
    )
        requires
            self.wf(d0, s0),
            scratch_run::kept(d0, s0, d1, s1, own),
            self.own().disjoint(own),
        ensures
            self.wf(d1, s1),
    {
        if let Some(writer) = self.writer {
            writer.lemma_wf_kept(d0, s0, d1, s1, own);
        }
    }

    /// The blocks are in use.
    pub proof fn lemma_own_in_use<R: Input, W: Output>(
        self,
        disk: DiskClient<R, W>,
        scratch: ScratchSpace,
    )
        requires
            self.wf(disk, scratch),
        ensures
            scratch_run::in_use(self.own(), scratch),
    {
        if let Some(writer) = self.writer {
            writer.lemma_own_in_use(disk, scratch);
        }
    }

    /// Nothing yet. Rows go to a run once they take more memory than the
    /// budget.
    pub fn new<R: Input, W: Output>(
        schema: Schema,
        budget: usize,
        disk: &DiskClient<R, W>,
        scratch: &ScratchSpace,
    ) -> (r: Materializer)
        ensures
            r.log() == Seq::<RowView>::empty(),
            r.schema() == schema,
            r.budget() == budget,
            r.own() == Set::<int>::empty(),
            r.wf(*disk, *scratch),
    {
        let r = Materializer {
            schema,
            rows: Vec::new(),
            bytes: 0,
            writer: None,
            budget,
            log: Ghost(Seq::empty()),
        };
        assert(row::row_views(r.rows@) =~= Seq::<RowView>::empty());
        r
    }

    /// Takes a row.
    pub fn push<R: Input, W: Output>(
        &mut self,
        row: Row,
        disk: &mut DiskClient<R, W>,
        scratch: &mut ScratchSpace,
    ) -> (r: Result<(), DbError>)
        requires
            old(self).wf(*old(disk), *old(scratch)),
            old(scratch).wf(),
            data::conforms(row@, old(self).types()),
        ensures
            scratch_run::kept(
                *old(disk),
                *old(scratch),
                *final(disk),
                *final(scratch),
                old(self).own(),
            ),
            r is Ok ==> {
                &&& scratch_run::grown(old(self).own(), *old(scratch), final(self).own())
                &&& scratch_run::tidy(
                    old(self).own(),
                    *old(scratch),
                    final(self).own(),
                    *final(scratch),
                )
                &&& final(self).wf(*final(disk), *final(scratch))
                &&& final(self).schema() == old(self).schema()
                &&& final(self).budget() == old(self).budget()
                &&& final(self).log() == old(self).log().push(row@)
            },
            r matches Err(e) ==> !scratch_run::able(*final(disk), *final(scratch)) || (e
                == DbError::RowTooLarge && scratch_run::oversized(
                old(self).log().push(row@),
                old(scratch).size() as int,
            )),
    {
        let ghost rows = self.log@;
        let ghost more = rows.push(row@);
        proof {
            assert(row_codec::all_conform(more, self.schema.types())) by {
                assert forall|i: int| 0 <= i < more.len() implies data::conforms(
                    #[trigger] more[i],
                    self.schema.types(),
                ) by {
                    if i < rows.len() {
                        assert(more[i] == rows[i]);
                    }
                }
            }
            assert(scratch_run::encodings(more) =~= scratch_run::encodings(rows).push(
                row::encoded_row(row@),
            ));
        }
        assert(more[rows.len() as int] == row@);
        assert(more.drop_last() =~= rows);
        if let Some(writer) = &mut self.writer {
            writer.push_row(&row, disk, scratch)?;
            proof {
                self.log@ = more;
            }
            return Ok(());
        }
        let row_bytes: usize = row.estimated_heap_bytes();
        if self.bytes.saturating_add(row_bytes) <= self.budget {
            self.bytes = self.bytes.saturating_add(row_bytes);
            let ghost held = self.rows@;
            self.rows.push(row);
            proof {
                frame::lemma_kept_refl(*disk, *scratch, self.own());
                assert(row::row_views(self.rows@) =~= row::row_views(held).push(row@));
                self.log@ = more;
            }
            return Ok(());
        }
        let writer = self.spill(&row, disk, scratch)?;
        // Once rows go to a run, the memory that held them is given back.
        self.rows = Vec::new();
        self.bytes = 0;
        self.writer = Some(writer);
        proof {
            self.log@ = more;
        }
        Ok(())
    }

    /// A writer with the rows that are held in memory and one more.
    fn spill<R: Input, W: Output>(
        &self,
        row: &Row,
        disk: &mut DiskClient<R, W>,
        scratch: &mut ScratchSpace,
    ) -> (r: Result<ScratchRunWriter, DbError>)
        requires
            self.writer is None,
            self.wf(*old(disk), *old(scratch)),
            old(scratch).wf(),
        ensures
            scratch_run::kept(
                *old(disk),
                *old(scratch),
                *final(disk),
                *final(scratch),
                Set::<int>::empty(),
            ),
            r matches Ok(writer) ==> {
                &&& scratch_run::grown(Set::<int>::empty(), *old(scratch), writer.own())
                &&& scratch_run::tidy(
                    Set::<int>::empty(),
                    *old(scratch),
                    writer.own(),
                    *final(scratch),
                )
                &&& writer.wf(*final(disk), *final(scratch))
                &&& writer.items() == scratch_run::encodings(self.log().push(row@))
                &&& writer.block_size() == final(scratch).size()
            },
            r matches Err(e) ==> !scratch_run::able(*final(disk), *final(scratch)) || (e
                == DbError::RowTooLarge && scratch_run::oversized(
                self.log().push(row@),
                old(scratch).size() as int,
            )),
    {
        let mut writer = ScratchRunWriter::new(disk, scratch, scratch.block_size());
        let ghost views = row::row_views(self.rows@);
        let ghost all = scratch_run::encodings(views);
        let total: usize = self.rows.len();
        let mut i: usize = 0;
        proof {
            frame::lemma_kept_refl(*disk, *scratch, Set::<int>::empty());
            assert(all.take(0) =~= Seq::<Seq<u8>>::empty());
        }
        while i < total
            invariant
                i <= total,
                total == self.rows@.len(),
                views == row::row_views(self.rows@),
                all == scratch_run::encodings(views),
                scratch.wf(),
                writer.wf(*disk, *scratch),
                writer.items() == all.take(i as int),
                writer.block_size() == old(scratch).size(),
                views == self.log(),
                scratch_run::kept(
                    *old(disk),
                    *old(scratch),
                    *disk,
                    *scratch,
                    Set::<int>::empty(),
                ),
                scratch_run::grown(Set::<int>::empty(), *old(scratch), writer.own()),
                scratch_run::tidy(Set::<int>::empty(), *old(scratch), writer.own(), *scratch),
            decreases total - i,
        {
            proof {
                assert(views[i as int] == self.rows@[i as int]@);
                assert(views.push(row@)[i as int] == views[i as int]);
            }
            writer.push_row(&self.rows[i], disk, scratch)?;
            assert(all.take(i + 1) =~= all.take(i as int).push(all[i as int]));
            i = i + 1;
        }
        assert(views.push(row@)[views.len() as int] == row@);
        writer.push_row(row, disk, scratch)?;
        assert(all.take(i as int).push(row::encoded_row(row@)) =~= scratch_run::encodings(
            views.push(row@),
        ));
        Ok(writer)
    }

    /// All that was pushed.
    pub fn finish<R: Input, W: Output>(
        self,
        disk: &mut DiskClient<R, W>,
        scratch: &mut ScratchSpace,
    ) -> (r: Result<MaterializedRows, DbError>)
        requires
            self.wf(*old(disk), *old(scratch)),
            old(scratch).wf(),
        ensures
            scratch_run::kept(
                *old(disk),
                *old(scratch),
                *final(disk),
                *final(scratch),
                self.own(),
            ),
            r matches Ok(kept) ==> {
                &&& scratch_run::grown(self.own(), *old(scratch), kept.own())
                &&& scratch_run::tidy(self.own(), *old(scratch), kept.own(), *final(scratch))
                &&& kept.schema == self.schema()
                &&& kept.keeps(*final(disk), *final(scratch), self.log())
                &&& kept.run is None ==> row::saturated(least_bytes(self.log())) <= self.budget()
            },
            r is Err ==> !scratch_run::able(*final(disk), *final(scratch)),
    {
        proof {
            frame::lemma_kept_refl(*disk, *scratch, self.own());
        }
        match self.writer {
            Some(writer) => {
                let run = writer.finish(disk, scratch)?;
                proof {
                    assert(scratch_run::encodings(self.log@) == writer.items());
                    assert(scratch_run::run_rows(disk.scratch(), run@, self.schema.types()) == Ok::<
                        Seq<RowView>,
                        DbError,
                    >(self.log@));
                }
                Ok(MaterializedRows { schema: self.schema, rows: Vec::new(), run: Some(run) })
            },
            None => Ok(MaterializedRows { schema: self.schema, rows: self.rows, run: None }),
        }
    }
}

} // verus!
