//! Running projections.

use vstd::prelude::*;

use crate::bag;
use crate::catalog::db_context::DbContext;
use crate::catalog::table::{ColumnView, TableSpec};
use crate::error::DbError;
use crate::executor::execute_op;
use crate::executor::frame;
use crate::executor::outcome;
use crate::executor::scan::{execute_scan_project, try_execute_scan_pipeline_op, Tried};
use crate::executor::sink::{ProjectStage, RowSink, Stage};
use crate::executor::sort::execute_sort;
use crate::executor::value;
use crate::io::{Input, Output};
use crate::query;
use crate::query::{
    clone_map, clone_sort_specs, OpView, ProjectData, QueryOp, SortData, SortSpecView,
};
use crate::query_support;
use crate::query_support::infer_schema;
use crate::row;
use crate::row::Schema;
use crate::semantics;
use crate::semantics::{Database, RowView};
use crate::storage::block_allocator::ScratchSpace;
use crate::storage::disk_client::DiskClient;
use crate::storage::scratch_run;
use crate::storage::scratch_run::RowOutput;
use crate::text::same_text;

verus! {

/// The types of the columns that are picked are those that they are picked
/// from.
pub proof fn lemma_projected_types(
    columns: Seq<ColumnView>,
    map: Seq<(Seq<char>, Seq<char>)>,
    indexes: Seq<int>,
)
    requires
        row::map_known(columns, map),
        indexes == row::map_indexes(columns, map),
    ensures
        row::types_of(row::map_columns(columns, map)).len() == indexes.len(),
        forall|i: int|
            0 <= i < indexes.len() ==> 0 <= #[trigger] indexes[i] < columns.len()
                && row::types_of(row::map_columns(columns, map))[i] == row::types_of(
                columns,
            )[indexes[i]],
{
    assert forall|i: int| 0 <= i < indexes.len() implies 0 <= #[trigger] indexes[i]
        < columns.len() && row::types_of(row::map_columns(columns, map))[i] == row::types_of(
        columns,
    )[indexes[i]] by {
        row::lemma_column_index(columns, map[i].0);
        assert(row::column_index(columns, map[i].0) is Some);
    }
}

/// Runs a projection: over a chain of operators on a table in one pass, over a
/// sort before it, and otherwise row by row.
#[verifier::spinoff_prover]
pub fn execute_project<R: Input, W: Output, F: RowOutput>(
    project: &ProjectData,
    ctx: &DbContext,
    disk: &mut DiskClient<R, W>,
    scratch: &mut ScratchSpace,
    memory_limit: usize,
    sink: RowSink<F>,
) -> (r: Result<(Schema, RowSink<F>), DbError>)
    requires
        old(scratch).wf(),
        sink.wf(*old(disk), *old(scratch)),
        outcome::takes(sink, project.op(), ctx.tables()),
    ensures
        scratch_run::kept(
            *old(disk),
            *old(scratch),
            *final(disk),
            *final(scratch),
            sink.own(),
        ),
        outcome::refused(
            project.op(),
            ctx.tables(),
            r,
            *old(disk),
            *old(scratch),
            *final(disk),
            *final(scratch),
        ),
        semantics::is_pipeline(project.op()) && sink.dry() ==> *final(scratch) == *old(scratch),
        r is Ok ==> outcome::read_whole(
            project.op(),
            ctx.tables(),
            *old(disk),
            *final(disk),
            *final(scratch),
        ),
        r matches Ok((schema, out)) ==> outcome::ran(
            project.op(),
            ctx.tables(),
            sink,
            *old(disk),
            *old(scratch),
            schema,
            out,
            *final(disk),
            *final(scratch),
        ),
        r matches Err(e) ==> outcome::excused(
            project.op(),
            ctx.tables(),
            sink,
            *old(disk),
            *old(scratch),
            e,
            *final(disk),
            *final(scratch),
        ),
    decreases project.op().size(), 5nat,
{
    let ghost (d0, s0) = (*disk, *scratch);
    let ghost start = sink;
    let ghost tables = ctx.tables();
    let ghost db = outcome::database_on(tables, d0);
    let ghost u = project.underlying@;
    let ghost map = query::map_views(project.column_name_map@);
    let copy = QueryOp::Project(
        ProjectData {
            column_name_map: clone_map(&project.column_name_map),
            underlying: Box::new((&*project.underlying).clone()),
        },
    );
    assert(copy@ == project.op());
    let sink = match try_execute_scan_pipeline_op(&copy, ctx, disk, scratch, memory_limit, sink)? {
        Tried::Done(schema, out) => {
            return Ok((schema, out));
        },
        Tried::Not(sink) => sink,
    };
    if let QueryOp::Scan(scan) = &*project.underlying {
        return execute_scan_project(
            scan,
            &project.column_name_map,
            ctx,
            disk,
            scratch,
            memory_limit,
            sink,
        );
    }
    if let QueryOp::Sort(sort) = &*project.underlying {
        return project_over_sort(project, sort, ctx, disk, scratch, memory_limit, sink);
    }
    proof {
        frame::lemma_kept_refl(d0, s0, start.own());
        if outcome::table_of(u) is Some {
            outcome::lemma_schema_refused(u, tables);
        }
        outcome::lemma_schema_error(u, tables);
    }
    let schema = infer_schema(&project.underlying, ctx)?;
    let (projected, indexes) = schema.project(&project.column_name_map)?;
    let ghost columns = schema@;
    proof {
        lemma_projected_types(columns, map, row::as_ints(indexes@));
    }
    let stage = Stage::Project(ProjectStage { indexes, types: Ghost(schema.types()) });
    let ghost view = stage.view();
    proof {
        lemma_project_stage(start.types(), columns, map, indexes@);
    }
    let inner = sink.behind(stage, disk, scratch);
    let ghost begun = inner;
    assert(begun.own() =~= start.own());
    proof {
        let rows = semantics::rows_of(u, db);
        assert(Seq::<RowView>::empty() + rows =~= rows);
    }
    let (_, out) = execute_op(&project.underlying, ctx, disk, scratch, memory_limit, inner)?;
    let ghost log = out.log();
    proof {
        outcome::lemma_node_done(
            start,
            d0,
            s0,
            begun,
            view,
            Set::<int>::empty(),
            d0,
            s0,
            out,
            *disk,
            *scratch,
        );
        if frame::trusty(*disk, *scratch) && semantics::sound(u, db) {
            let c = choose|c: Seq<RowView>| #[trigger]
                semantics::delivers(u, db, c) && log == begun.log() + c;
            assert(log =~= c);
            outcome::lemma_project_delivers(map, u, db, c);
            assert(outcome::executed(
                project.op(),
                db,
                start.log(),
                start.log() + semantics::project_rows(c, row::map_indexes(columns, map)),
            ));
        }
    }
    match out {
        RowSink::Node(node) => Ok((projected, *node.next)),
        _ => vstd::pervasive::unreached(),
    }
}

/// A stage that picks columns makes rows with the types of a projection.
pub proof fn lemma_project_stage(
    out: Seq<crate::data::DataType>,
    columns: Seq<ColumnView>,
    map: Seq<(Seq<char>, Seq<char>)>,
    indexes: Seq<usize>,
)
    requires
        row::map_known(columns, map),
        row::as_ints(indexes) == row::map_indexes(columns, map),
        out == row::types_of(row::map_columns(columns, map)),
    ensures
        out.len() == indexes.len(),
        forall|i: int| 0 <= i < indexes.len() ==> (#[trigger] indexes[i]) < columns.len(),
        forall|i: int|
            0 <= i < indexes.len() ==> out[i] == row::types_of(columns)[(
            #[trigger] indexes[i]) as int],
{
    let picks = row::as_ints(indexes);
    lemma_projected_types(columns, map, picks);
    assert forall|i: int| 0 <= i < indexes.len() implies (#[trigger] indexes[i]) < columns.len()
        && out[i] == row::types_of(columns)[indexes[i] as int] by {
        assert(picks[i] == indexes[i]);
    }
}

/// Names without those that came before.
pub open spec fn deduplicated(names: Seq<Seq<char>>) -> Seq<Seq<char>>
    decreases names.len(),
{
    if names.len() == 0 {
        Seq::empty()
    } else {
        let front = deduplicated(names.drop_last());
        if front.contains(names.last()) {
            front
        } else {
            front.push(names.last())
        }
    }
}

pub proof fn lemma_deduplicated(names: Seq<Seq<char>>, x: Seq<char>)
    ensures
        deduplicated(names).contains(x) <==> names.contains(x),
    decreases names.len(),
{
    if names.len() > 0 {
        let front = deduplicated(names.drop_last());
        let all = deduplicated(names);
        lemma_deduplicated(names.drop_last(), x);
        if names.contains(x) {
            let i = choose|i: int| 0 <= i < names.len() && names[i] == x;
            if i < names.len() - 1 {
                assert(names.drop_last()[i] == x);
                let k = choose|k: int| 0 <= k < front.len() && front[k] == x;
                assert(all[k] == x);
            } else if !front.contains(x) {
                assert(all[front.len() as int] == x);
            }
        }
        if all.contains(x) {
            let k = choose|k: int| 0 <= k < all.len() && all[k] == x;
            if k < front.len() {
                assert(front[k] == x);
                let i = choose|i: int| 0 <= i < names.len() - 1 && names.drop_last()[i] == x;
                assert(names[i] == x);
            } else {
                assert(names[names.len() - 1] == x);
            }
        }
    }
}

/// The columns that a projection and a sort under it need.
pub open spec fn needed_names(
    map: Seq<(Seq<char>, Seq<char>)>,
    specs: Seq<SortSpecView>,
) -> Seq<Seq<char>> {
    Seq::new(map.len(), |i: int| map[i].0) + Seq::new(specs.len(), |i: int| specs[i].column)
}

/// Columns under their own names.
pub open spec fn own_names(names: Seq<Seq<char>>) -> Seq<(Seq<char>, Seq<char>)> {
    Seq::new(names.len(), |i: int| (names[i], names[i]))
}

/// The map that picks the columns that a projection and a sort under it need,
/// each once and under its own name.
pub open spec fn reduced_map(
    map: Seq<(Seq<char>, Seq<char>)>,
    specs: Seq<SortSpecView>,
) -> Seq<(Seq<char>, Seq<char>)> {
    own_names(deduplicated(needed_names(map, specs)))
}

/// Appends a column under its own name, if it is not there.
pub fn push_name(map: &mut Vec<(String, String)>, name: &String, names: Ghost<Seq<Seq<char>>>)
    requires
        query::map_views(old(map)@) == own_names(deduplicated(names@)),
    ensures
        query::map_views(final(map)@) == own_names(deduplicated(names@.push(name@))),
{
    let ghost front = deduplicated(names@);
    let ghost before = query::map_views(map@);
    proof {
        assert(names@.push(name@).drop_last() =~= names@);
    }
    let mut i: usize = 0;
    while i < map.len()
        invariant
            i <= map@.len(),
            map@ == old(map)@,
            before == query::map_views(map@),
            front == deduplicated(names@),
            names@.push(name@).drop_last() == names@,
            before == own_names(front),
            before.len() == map@.len(),
            forall|k: int| 0 <= k < i ==> #[trigger] front[k] != name@,
        decreases map@.len() - i,
    {
        assert(before[i as int].0 == front[i as int]);
        if same_text(map[i].0.as_str(), name.as_str()) {
            assert(front[i as int] == name@);
            return;
        }
        i = i + 1;
    }
    assert(before.len() == front.len());
    assert(!front.contains(name@));
    map.push((name.clone(), name.clone()));
    proof {
        let all = deduplicated(names@.push(name@));
        assert(all == front.push(name@));
        assert(query::map_views(map@) =~= before.push((name@, name@)));
        assert(own_names(all) =~= own_names(front).push((name@, name@)));
    }
}

/// The projection to the columns that a projection and a sort under it need.
pub fn reduced_projection(project: &ProjectData, sort: &SortData) -> (r: ProjectData)
    ensures
        query::map_views(r.column_name_map@) == reduced_map(
            query::map_views(project.column_name_map@),
            query::sort_views(sort.sort_specs@),
        ),
        r.underlying@ == sort.underlying@,
{
    let ghost views = query::map_views(project.column_name_map@);
    let ghost specs = query::sort_views(sort.sort_specs@);
    let ghost all = needed_names(views, specs);
    let mut map: Vec<(String, String)> = Vec::new();
    let mut i: usize = 0;
    proof {
        assert(all.take(0) =~= Seq::<Seq<char>>::empty());
        assert(query::map_views(map@) =~= own_names(deduplicated(all.take(0))));
    }
    while i < project.column_name_map.len()
        invariant
            i <= project.column_name_map@.len(),
            views == query::map_views(project.column_name_map@),
            all == needed_names(views, specs),
            query::map_views(map@) == own_names(deduplicated(all.take(i as int))),
        decreases project.column_name_map@.len() - i,
    {
        proof {
            assert(all[i as int] == project.column_name_map@[i as int].0@);
            assert(all.take(i as int).push(all[i as int]) =~= all.take(i + 1));
        }
        push_name(&mut map, &project.column_name_map[i].0, Ghost(all.take(i as int)));
        i = i + 1;
    }
    let first: usize = i;
    let mut j: usize = 0;
    while j < sort.sort_specs.len()
        invariant
            j <= sort.sort_specs@.len(),
            first == views.len(),
            specs == query::sort_views(sort.sort_specs@),
            all == needed_names(views, specs),
            query::map_views(map@) == own_names(deduplicated(all.take(first + j))),
        decreases sort.sort_specs@.len() - j,
    {
        proof {
            assert(all[first + j] == sort.sort_specs@[j as int].column_name@);
            assert(all.take(first + j).push(all[first + j]) =~= all.take(first + j + 1));
        }
        push_name(&mut map, &sort.sort_specs[j].column_name, Ghost(all.take(first + j)));
        j = j + 1;
    }
    proof {
        assert(all.take(first + j) =~= all);
    }
    ProjectData {
        column_name_map: map,
        underlying: Box::new((&*sort.underlying).clone()),
    }
}

/// A projection of a sort, and a sort of a projection, read what is below them.
proof fn lemma_sound_below(
    map: Seq<(Seq<char>, Seq<char>)>,
    reduced: Seq<(Seq<char>, Seq<char>)>,
    specs: Seq<SortSpecView>,
    u: OpView,
    db: Database,
)
    ensures
        semantics::sound(
            OpView::Project(map, Box::new(OpView::Sort(specs, Box::new(u)))),
            db,
        ) == semantics::sound(u, db),
        semantics::sound(
            OpView::Sort(specs, Box::new(OpView::Project(reduced, Box::new(u)))),
            db,
        ) == semantics::sound(u, db),
{
    reveal_with_fuel(semantics::sound, 3);
    reveal_with_fuel(semantics::kinds, 3);
}

/// Runs a projection over a sort: the sort sees only the columns that are
/// needed.
#[verifier::spinoff_prover]
#[verifier::rlimit(30)]
fn project_over_sort<R: Input, W: Output, F: RowOutput>(
    project: &ProjectData,
    sort: &SortData,
    ctx: &DbContext,
    disk: &mut DiskClient<R, W>,
    scratch: &mut ScratchSpace,
    memory_limit: usize,
    sink: RowSink<F>,
) -> (r: Result<(Schema, RowSink<F>), DbError>)
    requires
        old(scratch).wf(),
        project.underlying@ == sort.op(),
        sink.wf(*old(disk), *old(scratch)),
        outcome::takes(sink, project.op(), ctx.tables()),
    ensures
        scratch_run::kept(
            *old(disk),
            *old(scratch),
            *final(disk),
            *final(scratch),
            sink.own(),
        ),
        outcome::refused(
            project.op(),
            ctx.tables(),
            r,
            *old(disk),
            *old(scratch),
            *final(disk),
            *final(scratch),
        ),
        r is Ok ==> outcome::read_whole(
            project.op(),
            ctx.tables(),
            *old(disk),
            *final(disk),
            *final(scratch),
        ),
        r matches Ok((schema, out)) ==> outcome::ran(
            project.op(),
            ctx.tables(),
            sink,
            *old(disk),
            *old(scratch),
            schema,
            out,
            *final(disk),
            *final(scratch),
        ),
        r matches Err(e) ==> outcome::excused(
            project.op(),
            ctx.tables(),
            sink,
            *old(disk),
            *old(scratch),
            e,
            *final(disk),
            *final(scratch),
        ),
    decreases project.op().size(), 4nat,
{
    let ghost (d0, s0) = (*disk, *scratch);
    let ghost start = sink;
    let ghost tables = ctx.tables();
    let ghost db = outcome::database_on(tables, d0);
    let ghost u = sort.underlying@;
    let ghost map = query::map_views(project.column_name_map@);
    let ghost specs = query::sort_views(sort.sort_specs@);
    proof {
        frame::lemma_kept_refl(d0, s0, start.own());
    }
    let reduced = reduced_projection(project, sort);
    let below = QueryOp::Project(reduced);
    let ghost rmap = reduced_map(map, specs);
    assert(below@ == OpView::Project(rmap, Box::new(u)));
    proof {
        lemma_project_refused(u, map, specs, tables);
        outcome::lemma_schema_error(below@, tables);
        lemma_sorted_excuses(u, map, specs, db, s0.size() as int);
    }
    let reduced_schema = infer_schema(&below, ctx)?;
    let (final_schema, final_indexes) = reduced_schema.project(&project.column_name_map)?;
    let reduced_sort = SortData {
        sort_specs: clone_sort_specs(&sort.sort_specs),
        underlying: Box::new(below),
    };
    let ghost columns = query_support::schema_of(u, tables)->Ok_0;
    let ghost rcols = reduced_schema@;
    proof {
        reveal_with_fuel(query_support::schema_of, 3);
        reveal_with_fuel(OpView::size, 3);
        reveal_with_fuel(outcome::gives_back, 3);
        lemma_reduced(columns, map, specs);
        assert(rcols == row::map_columns(columns, rmap));
        lemma_project_stage(start.types(), rcols, map, final_indexes@);
    }
    let stage = Stage::Project(
        ProjectStage { indexes: final_indexes, types: Ghost(reduced_schema.types()) },
    );
    let ghost view = stage.view();
    let inner = sink.behind(stage, disk, scratch);
    let ghost begun = inner;
    assert(begun.own() =~= start.own());
    proof {
        let sorted = OpView::Sort(specs, Box::new(OpView::Project(rmap, Box::new(u))));
        let rows = semantics::rows_of(sorted, db);
        assert(Seq::<RowView>::empty() + rows =~= rows);
        lemma_reduced_rows(u, map, specs, db);
        lemma_sound_below(map, rmap, specs, u, db);
    }
    let (_, out) = execute_sort(&reduced_sort, ctx, disk, scratch, memory_limit, inner)?;
    let ghost log = out.log();
    proof {
        assert(outcome::legible(reduced_sort.op(), db) == outcome::legible(project.op(), db)) by {
            reveal_with_fuel(semantics::is_pipeline, 3);
            reveal_with_fuel(outcome::legible, 2);
            assert(reduced_sort.op() == OpView::Sort(
                specs,
                Box::new(OpView::Project(rmap, Box::new(u))),
            ));
            assert(project.op() == OpView::Project(
                map,
                Box::new(OpView::Sort(specs, Box::new(u))),
            ));
        }
        outcome::lemma_node_done(
            start,
            d0,
            s0,
            begun,
            view,
            Set::<int>::empty(),
            d0,
            s0,
            out,
            *disk,
            *scratch,
        );
        lemma_reduced_known(u, map, specs, tables);
        if frame::trusty(*disk, *scratch) && semantics::sound(u, db) {
            let t = choose|c: Seq<RowView>| #[trigger]
                semantics::delivers(reduced_sort.op(), db, c) && log == begun.log() + c;
            assert(log =~= t);
            lemma_project_over_sort(u, map, specs, db, t);
            assert(outcome::executed(
                project.op(),
                db,
                start.log(),
                start.log() + semantics::project_rows(t, row::map_indexes(rcols, map)),
            ));
        }
    }
    match out {
        RowSink::Node(node) => Ok((final_schema, *node.next)),
        _ => vstd::pervasive::unreached(),
    }
}

/// A needed column is picked.
pub proof fn lemma_picked(
    columns: Seq<ColumnView>,
    map: Seq<(Seq<char>, Seq<char>)>,
    specs: Seq<SortSpecView>,
    name: Seq<char>,
) -> (p: int)
    requires
        row::map_known(columns, reduced_map(map, specs)),
        needed_names(map, specs).contains(name),
    ensures
        row::column_index(row::map_columns(columns, reduced_map(map, specs)), name) == Some(p),
        0 <= p < reduced_map(map, specs).len(),
        row::map_indexes(columns, reduced_map(map, specs))[p] == row::column_index(
            columns,
            name,
        )->0,
        row::column_index(columns, name) is Some,
        row::map_columns(columns, reduced_map(map, specs))[p].data_type == columns[row::column_index(
            columns,
            name,
        )->0].data_type,
{
    let rmap = reduced_map(map, specs);
    let rcols = row::map_columns(columns, rmap);
    let names = deduplicated(needed_names(map, specs));
    lemma_deduplicated(needed_names(map, specs), name);
    let k = choose|k: int| 0 <= k < names.len() && names[k] == name;
    assert(rcols[k].name == name);
    row::lemma_column_index(rcols, name);
    let p = row::column_index(rcols, name)->0;
    assert(rcols[p].name == rmap[p].1);
    assert(rmap[p].0 == name);
    assert(row::column_index(columns, rmap[p].0) is Some);
    p
}

/// Picking columns from those that are needed is picking them from all.
proof fn lemma_reduced(
    columns: Seq<ColumnView>,
    map: Seq<(Seq<char>, Seq<char>)>,
    specs: Seq<SortSpecView>,
)
    requires
        row::map_known(columns, reduced_map(map, specs)),
    ensures
        row::map_known(columns, map),
        row::map_known(row::map_columns(columns, reduced_map(map, specs)), map),
        row::map_columns(row::map_columns(columns, reduced_map(map, specs)), map)
            == row::map_columns(columns, map),
{
    let rcols = row::map_columns(columns, reduced_map(map, specs));
    assert forall|i: int| 0 <= i < map.len() implies {
        &&& row::column_index(columns, (#[trigger] map[i]).0) is Some
        &&& row::column_index(rcols, map[i].0) is Some
        &&& rcols[row::column_index(rcols, map[i].0)->0].data_type == columns[row::column_index(
            columns,
            map[i].0,
        )->0].data_type
    } by {
        assert(needed_names(map, specs)[i] == map[i].0);
        let p = lemma_picked(columns, map, specs, map[i].0);
    }
    assert(row::map_columns(rcols, map) =~= row::map_columns(columns, map));
}

pub proof fn lemma_reduced_known(
    u: OpView,
    map: Seq<(Seq<char>, Seq<char>)>,
    specs: Seq<SortSpecView>,
    tables: Seq<TableSpec>,
)
    requires
        semantics::op_known(
            OpView::Sort(
                specs,
                Box::new(OpView::Project(reduced_map(map, specs), Box::new(u))),
            ),
            tables,
        ),
    ensures
        semantics::op_known(
            OpView::Project(map, Box::new(OpView::Sort(specs, Box::new(u)))),
            tables,
        ),
{
    reveal_with_fuel(semantics::op_known, 3);
    reveal_with_fuel(query_support::schema_of, 3);
    let columns = query_support::schema_of(u, tables)->Ok_0;
    semantics::lemma_known_schema(u, tables);
    lemma_reduced(columns, map, specs);
    assert forall|i: int| 0 <= i < specs.len() implies query_support::has_column(
        columns,
        (#[trigger] specs[i]).column,
    ) by {
        assert(needed_names(map, specs)[map.len() + i] == specs[i].column);
        let p = lemma_picked(columns, map, specs, specs[i].column);
    }
}

/// Where a projection and a sort under it find their columns, so does the map to
/// the columns that they need.
proof fn lemma_needed_known(
    columns: Seq<ColumnView>,
    map: Seq<(Seq<char>, Seq<char>)>,
    specs: Seq<SortSpecView>,
)
    requires
        row::map_known(columns, map),
        semantics::sort_known(columns, specs),
    ensures
        row::map_known(columns, reduced_map(map, specs)),
{
    let names = needed_names(map, specs);
    let once = deduplicated(names);
    assert forall|i: int| 0 <= i < once.len() implies row::column_index(
        columns,
        (#[trigger] reduced_map(map, specs)[i]).0,
    ) is Some by {
        let x = once[i];
        assert(once.contains(x));
        lemma_deduplicated(names, x);
        let k = choose|k: int| 0 <= k < names.len() && names[k] == x;
        if k < map.len() {
            assert(map[k].0 == x);
        } else {
            assert(specs[k - map.len()].column == x);
            assert(query_support::has_column(columns, specs[k - map.len()].column));
        }
    }
}

/// A projection of a sort is refused as the sort of the columns that are needed
/// is.
proof fn lemma_project_refused(
    u: OpView,
    map: Seq<(Seq<char>, Seq<char>)>,
    specs: Seq<SortSpecView>,
    tables: Seq<TableSpec>,
)
    ensures
        ({
            let op = OpView::Project(map, Box::new(OpView::Sort(specs, Box::new(u))));
            let below = OpView::Project(reduced_map(map, specs), Box::new(u));
            match query_support::schema_of(below, tables) {
                Ok(columns) => {
                    &&& row::map_known(columns, map)
                    &&& outcome::refusal(OpView::Sort(specs, Box::new(below)), tables)
                        == outcome::refusal(op, tables)
                },
                Err(e) => outcome::table_of(op) is Some ==> outcome::refusal(op, tables) == Some(e),
            }
        }),
{
    reveal_with_fuel(semantics::op_known, 3);
    reveal_with_fuel(query_support::schema_of, 3);
    reveal_with_fuel(outcome::table_of, 3);
    let op = OpView::Project(map, Box::new(OpView::Sort(specs, Box::new(u))));
    let below = OpView::Project(reduced_map(map, specs), Box::new(u));
    let sorted = OpView::Sort(specs, Box::new(below));
    let columns = query_support::schema_of(u, tables)->Ok_0;
    if outcome::table_of(op) is Some {
        outcome::lemma_schema_refused(below, tables);
    }
    if semantics::op_known(op, tables) {
        semantics::lemma_known_schema(u, tables);
        lemma_needed_known(columns, map, specs);
        assert(semantics::op_known(below, tables));
        assert forall|i: int| 0 <= i < specs.len() implies query_support::has_column(
            row::map_columns(columns, reduced_map(map, specs)),
            (#[trigger] specs[i]).column,
        ) by {
            assert(needed_names(map, specs)[map.len() + i] == specs[i].column);
            let p = lemma_picked(columns, map, specs, specs[i].column);
        }
        assert(semantics::op_known(sorted, tables));
    }
    if semantics::op_known(sorted, tables) {
        lemma_reduced_known(u, map, specs, tables);
    }
    if query_support::schema_of(below, tables) is Ok {
        lemma_reduced(columns, map, specs);
    }
}

/// A sort of the columns that a projection over a sort needs can meet no other
/// errors than the projection.
proof fn lemma_sorted_excuses(
    u: OpView,
    map: Seq<(Seq<char>, Seq<char>)>,
    specs: Seq<SortSpecView>,
    db: Database,
    size: int,
)
    ensures
        ({
            let op = OpView::Project(map, Box::new(OpView::Sort(specs, Box::new(u))));
            let below = OpView::Project(reduced_map(map, specs), Box::new(u));
            let sorted = OpView::Sort(specs, Box::new(below));
            &&& semantics::op_known(op, db.tables) ==> semantics::op_known(below, db.tables)
                && semantics::op_known(sorted, db.tables)
            &&& forall|e: DbError| #[trigger]
                outcome::excuses(sorted, db, size, e) ==> outcome::excuses(op, db, size, e)
        }),
{
    let tables = db.tables;
    lemma_sound_below(map, reduced_map(map, specs), specs, u, db);
    reveal_with_fuel(semantics::op_known, 3);
    reveal_with_fuel(semantics::op_answerable, 3);
    reveal_with_fuel(query_support::schema_of, 3);
    let op = OpView::Project(map, Box::new(OpView::Sort(specs, Box::new(u))));
    let below = OpView::Project(reduced_map(map, specs), Box::new(u));
    let sorted = OpView::Sort(specs, Box::new(below));
    let columns = query_support::schema_of(u, tables)->Ok_0;
    if semantics::op_known(op, tables) {
        semantics::lemma_known_schema(u, tables);
        lemma_needed_known(columns, map, specs);
        assert forall|i: int| 0 <= i < specs.len() implies query_support::has_column(
            row::map_columns(columns, reduced_map(map, specs)),
            (#[trigger] specs[i]).column,
        ) by {
            assert(needed_names(map, specs)[map.len() + i] == specs[i].column);
            let p = lemma_picked(columns, map, specs, specs[i].column);
        }
        assert(semantics::op_known(sorted, tables));
    }
    let rows = semantics::rows_of(below, db);
    assert(outcome::outgrowing(sorted, db, size) == (scratch_run::oversized(rows, size)
        || outcome::outgrowing(below, db, size)));
    assert(outcome::outgrowing(op, db, size) == (scratch_run::oversized(rows, size)
        || outcome::outgrowing(below, db, size)));
}

/// Rows that are an image of others in some order are the image of the others
/// in some order.
pub proof fn lemma_lift(s: Seq<RowView>, t: Seq<RowView>, indexes: Seq<int>) -> (c: Seq<RowView>)
    requires
        bag::bag(semantics::project_rows(s, indexes)) == bag::bag(t),
    ensures
        bag::bag(c) == bag::bag(s),
        semantics::project_rows(c, indexes) == t,
    decreases t.len(),
{
    let image = semantics::project_rows(s, indexes);
    bag::lemma_bag_empty(image);
    bag::lemma_bag_empty(t);
    if t.len() == 0 {
        assert(semantics::project_rows(s, indexes) =~= t);
        s
    } else {
        let x = t.last();
        assert(t.contains(x));
        let k = bag::lemma_same_bag_index(t, image, x);
        let front = t.drop_last();
        bag::lemma_bag_remove(image, k);
        bag::lemma_bag_remove(t, t.len() - 1);
        assert(t.remove(t.len() - 1) =~= front);
        let rest = s.remove(k);
        assert(semantics::project_rows(rest, indexes) =~= image.remove(k));
        let c = lemma_lift(rest, front, indexes);
        bag::lemma_bag_remove(s, k);
        bag::lemma_bag_push(c, s[k]);
        let all = c.push(s[k]);
        let image_all = semantics::project_rows(all, indexes);
        assert(semantics::project_rows(c, indexes).len() == c.len());
        assert forall|i: int| 0 <= i < t.len() implies image_all[i] == t[i] by {
            if i < c.len() {
                assert(semantics::project_rows(c, indexes)[i] == front[i]);
            } else {
                assert(image[k] == row::project_row(s[k], indexes));
            }
        }
        assert(image_all =~= t);
        all
    }
}

/// The order of rows by columns that were picked is that of the rows.
pub proof fn lemma_reduced_order(
    columns: Seq<ColumnView>,
    map: Seq<(Seq<char>, Seq<char>)>,
    specs: Seq<SortSpecView>,
    n: int,
    a: RowView,
    b: RowView,
)
    requires
        row::map_known(columns, reduced_map(map, specs)),
        0 <= n <= specs.len(),
    ensures
        ({
            let rmap = reduced_map(map, specs);
            let rcols = row::map_columns(columns, rmap);
            let indexes = row::map_indexes(columns, rmap);
            let keys = semantics::sort_keys(columns, specs).skip(n);
            let rkeys = semantics::sort_keys(rcols, specs).skip(n);
            let ra = row::project_row(a, indexes);
            let rb = row::project_row(b, indexes);
            &&& semantics::row_order(ra, rb, rkeys) == semantics::row_order(a, b, keys)
            &&& semantics::comparable_rows(ra, rb, rkeys) == semantics::comparable_rows(
                a,
                b,
                keys,
            )
        }),
    decreases specs.len() - n,
{
    let rmap = reduced_map(map, specs);
    let rcols = row::map_columns(columns, rmap);
    let indexes = row::map_indexes(columns, rmap);
    let keys = semantics::sort_keys(columns, specs).skip(n);
    let rkeys = semantics::sort_keys(rcols, specs).skip(n);
    let ra = row::project_row(a, indexes);
    let rb = row::project_row(b, indexes);
    assert forall|k: int| 0 <= k < keys.len() implies {
        &&& ra[(#[trigger] rkeys[k]).index] == a[keys[k].index]
        &&& rb[rkeys[k].index] == b[keys[k].index]
        &&& rkeys[k].ascending == keys[k].ascending
    } by {
        assert(needed_names(map, specs)[map.len() + n + k] == specs[n + k].column);
        let p = lemma_picked(columns, map, specs, specs[n + k].column);
        assert(rkeys[k].index == p);
    }
    assert(semantics::comparable_rows(ra, rb, rkeys) == semantics::comparable_rows(a, b, keys)) by {
        if semantics::comparable_rows(ra, rb, rkeys) {
            assert forall|k: int| 0 <= k < keys.len() implies value::order(
                a[(#[trigger] keys[k]).index],
                b[keys[k].index],
            ) is Some by {
                assert(ra[rkeys[k].index] == a[keys[k].index]);
            }
        }
        if semantics::comparable_rows(a, b, keys) {
            assert forall|k: int| 0 <= k < rkeys.len() implies value::order(
                ra[(#[trigger] rkeys[k]).index],
                rb[rkeys[k].index],
            ) is Some by {
                assert(ra[rkeys[k].index] == a[keys[k].index]);
                assert(value::order(a[keys[k].index], b[keys[k].index]) is Some);
            }
        }
    }
    if n < specs.len() {
        lemma_reduced_order(columns, map, specs, n + 1, a, b);
        assert(ra[rkeys[0].index] == a[keys[0].index]);
        assert(keys.skip(1) =~= semantics::sort_keys(columns, specs).skip(n + 1));
        assert(rkeys.skip(1) =~= semantics::sort_keys(rcols, specs).skip(n + 1));
    }
}

/// Picking columns from rows with those that are needed is picking them from all.
proof fn lemma_reduced_rows(
    u: OpView,
    map: Seq<(Seq<char>, Seq<char>)>,
    specs: Seq<SortSpecView>,
    db: Database,
)
    requires
        query_support::schema_of(u, db.tables) is Ok,
        row::map_known(
            query_support::schema_of(u, db.tables)->Ok_0,
            reduced_map(map, specs),
        ),
    ensures
        semantics::project_rows(
            semantics::rows_of(
                OpView::Sort(
                    specs,
                    Box::new(OpView::Project(reduced_map(map, specs), Box::new(u))),
                ),
                db,
            ),
            row::map_indexes(
                row::map_columns(
                    query_support::schema_of(u, db.tables)->Ok_0,
                    reduced_map(map, specs),
                ),
                map,
            ),
        ) == semantics::rows_of(
            OpView::Project(map, Box::new(OpView::Sort(specs, Box::new(u)))),
            db,
        ),
{
    let columns = query_support::schema_of(u, db.tables)->Ok_0;
    let rmap = reduced_map(map, specs);
    let indexes = row::map_indexes(columns, rmap);
    let picks = row::map_indexes(row::map_columns(columns, rmap), map);
    let rows = semantics::rows_of(u, db);
    let below = OpView::Project(rmap, Box::new(u));
    let sorted_below = OpView::Sort(specs, Box::new(below));
    let sort = OpView::Sort(specs, Box::new(u));
    let op = OpView::Project(map, Box::new(sort));
    let t = semantics::project_rows(rows, indexes);
    assert(semantics::rows_of(below, db) == t);
    assert(semantics::rows_of(sorted_below, db) == t);
    assert(semantics::rows_of(sort, db) == rows);
    assert(query_support::schema_of(sort, db.tables)->Ok_0 == columns);
    let out = semantics::project_rows(t, picks);
    let direct = semantics::project_rows(rows, row::map_indexes(columns, map));
    assert(semantics::rows_of(op, db) == direct);
    assert forall|i: int| 0 <= i < rows.len() implies out[i] == direct[i] by {
        assert(t[i] == row::project_row(rows[i], indexes));
        assert forall|k: int| 0 <= k < map.len() implies out[i][k] == direct[i][k] by {
            assert(needed_names(map, specs)[k] == map[k].0);
            let p = lemma_picked(columns, map, specs, map[k].0);
            assert(picks[k] == p);
        }
        assert(out[i] =~= direct[i]);
    }
    assert(out =~= direct);
}

/// A right answer of a sort of the columns that are needed gives, with columns
/// picked from it, a right answer of the projection of the sort.
#[verifier::spinoff_prover]
pub proof fn lemma_project_over_sort(
    u: OpView,
    map: Seq<(Seq<char>, Seq<char>)>,
    specs: Seq<SortSpecView>,
    db: Database,
    t: Seq<RowView>,
)
    requires
        query_support::schema_of(u, db.tables) is Ok,
        row::map_known(
            query_support::schema_of(u, db.tables)->Ok_0,
            reduced_map(map, specs),
        ),
        semantics::delivers(
            OpView::Sort(
                specs,
                Box::new(OpView::Project(reduced_map(map, specs), Box::new(u))),
            ),
            db,
            t,
        ),
    ensures
        semantics::delivers(
            OpView::Project(map, Box::new(OpView::Sort(specs, Box::new(u)))),
            db,
            semantics::project_rows(
                t,
                row::map_indexes(
                    row::map_columns(
                        query_support::schema_of(u, db.tables)->Ok_0,
                        reduced_map(map, specs),
                    ),
                    map,
                ),
            ),
        ),
{
    let columns = query_support::schema_of(u, db.tables)->Ok_0;
    let rmap = reduced_map(map, specs);
    let rcols = row::map_columns(columns, rmap);
    let indexes = row::map_indexes(columns, rmap);
    let picks = row::map_indexes(rcols, map);
    let rows = semantics::rows_of(u, db);
    let below = OpView::Project(rmap, Box::new(u));
    let sorted_below = OpView::Sort(specs, Box::new(below));
    let sort = OpView::Sort(specs, Box::new(u));
    let op = OpView::Project(map, Box::new(sort));
    assert(query_support::schema_of(below, db.tables)->Ok_0 == rcols);
    assert(semantics::rows_of(below, db) == semantics::project_rows(rows, indexes));
    assert(semantics::rows_of(sorted_below, db) == semantics::rows_of(below, db));
    let c = lemma_lift(rows, t, indexes);
    let keys = semantics::sort_keys(columns, specs);
    let rkeys = semantics::sort_keys(rcols, specs);
    assert(keys.skip(0) =~= keys);
    assert(rkeys.skip(0) =~= rkeys);
    assert(semantics::rows_of(sort, db) == rows);
    if semantics::comparable(rows, keys) {
        let below_rows = semantics::project_rows(rows, indexes);
        assert(semantics::comparable(below_rows, rkeys)) by {
            assert forall|i: int, j: int|
                0 <= i < below_rows.len() && 0 <= j < below_rows.len()
                implies semantics::comparable_rows(
                #[trigger] below_rows[i],
                #[trigger] below_rows[j],
                rkeys,
            ) by {
                assert(semantics::comparable_rows(rows[i], rows[j], keys));
                lemma_reduced_order(columns, map, specs, 0, rows[i], rows[j]);
            }
        }
        assert(semantics::sorted(t, rkeys));
        assert forall|i: int, j: int| 0 <= i < j < c.len() implies !(semantics::row_order(
            #[trigger] c[i],
            #[trigger] c[j],
            keys,
        ) is Greater) by {
            lemma_reduced_order(columns, map, specs, 0, c[i], c[j]);
            assert(t[i] == row::project_row(c[i], indexes));
            assert(t[j] == row::project_row(c[j], indexes));
        }
    }
    assert(semantics::delivers(sort, db, c));
    let out = semantics::project_rows(t, picks);
    let direct = semantics::project_rows(c, row::map_indexes(columns, map));
    assert(out =~= direct) by {
        assert forall|i: int| 0 <= i < t.len() implies out[i] == direct[i] by {
            assert(t[i] == row::project_row(c[i], indexes));
            assert forall|k: int| 0 <= k < map.len() implies out[i][k] == direct[i][k] by {
                assert(needed_names(map, specs)[k] == map[k].0);
                let p = lemma_picked(columns, map, specs, map[k].0);
                assert(picks[k] == p);
            }
            assert(out[i] =~= direct[i]);
        }
    }
    outcome::lemma_project_delivers(map, sort, db, c);
    assert(query_support::schema_of(sort, db.tables)->Ok_0 == columns);
}

} // verus!
