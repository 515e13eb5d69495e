//! What queries mean: the rows of an operator over the tables of a database.

use vstd::multiset::Multiset;
use vstd::prelude::*;

use crate::bag;
use crate::catalog::db_context;
use crate::catalog::table::{ColumnView, TableSpec};
use crate::data::{DataType, DataValue};
use crate::error::DbError;
use crate::executor::value;
use crate::number::Order;
use crate::query::{ComparisionOperator, OpView, OperandView, PredicateView, SortSpecView};
use crate::query_support;
use crate::query_support::PredicateSide;
use crate::row;
use crate::storage::disk_client::DiskLayout;
use crate::storage::row_codec;

verus! {

/// The values of a row.
pub type RowView = Seq<DataValue>;

/// The tables of a database and the device that holds their files.
pub struct Database {
    pub tables: Seq<TableSpec>,
    pub layout: DiskLayout,
}

/// The right side of a predicate whose columns are known by their places.
pub enum RightView {
    Column(int),
    Literal(DataValue),
}

/// A predicate whose columns are known by their places.
pub struct CompiledView {
    pub left: int,
    pub operator: ComparisionOperator,
    pub right: RightView,
}

/// The columns of a predicate are there.
pub open spec fn predicate_known(columns: Seq<ColumnView>, p: PredicateView) -> bool {
    &&& query_support::has_column(columns, p.column)
    &&& p.value matches OperandView::Column(other) ==> query_support::has_column(columns, other)
}

/// A predicate with its columns by their places.
pub open spec fn compiled(columns: Seq<ColumnView>, p: PredicateView) -> CompiledView {
    CompiledView {
        left: row::column_index(columns, p.column)->0,
        operator: p.operator,
        right: match p.value {
            OperandView::Column(other) => RightView::Column(row::column_index(columns, other)->0),
            OperandView::Literal(v) => RightView::Literal(v),
        },
    }
}

/// The columns of all predicates are there.
pub open spec fn all_known(columns: Seq<ColumnView>, ps: Seq<PredicateView>) -> bool {
    forall|i: int| 0 <= i < ps.len() ==> predicate_known(columns, #[trigger] ps[i])
}

/// Predicates with their columns by their places.
pub open spec fn compiled_all(columns: Seq<ColumnView>, ps: Seq<PredicateView>) -> Seq<
    CompiledView,
> {
    Seq::new(ps.len(), |i: int| compiled(columns, ps[i]))
}

/// What a predicate answers on a row.
pub open spec fn predicate_result(row: RowView, p: CompiledView) -> Result<bool, DbError> {
    if p.left < 0 || p.left >= row.len() {
        Err(DbError::BadIndex)
    } else {
        match p.right {
            RightView::Literal(v) => value::comparison(row[p.left], p.operator, v),
            RightView::Column(i) => if i < 0 || i >= row.len() {
                Err(DbError::BadIndex)
            } else {
                value::comparison(row[p.left], p.operator, row[i])
            },
        }
    }
}

/// What predicates in turn answer on a row: the first answer that is not yes.
pub open spec fn predicates_result(row: RowView, ps: Seq<CompiledView>) -> Result<bool, DbError>
    decreases ps.len(),
{
    if ps.len() == 0 {
        Ok(true)
    } else {
        match predicate_result(row, ps[0]) {
            Ok(true) => predicates_result(row, ps.skip(1)),
            other => other,
        }
    }
}

/// The predicates fail with the error on one of the rows.
pub open spec fn fails(rows: Seq<RowView>, ps: Seq<CompiledView>, e: DbError) -> bool {
    exists|i: int|
        0 <= i < rows.len() && predicates_result(#[trigger] rows[i], ps) == Err::<bool, DbError>(e)
}

/// The predicates fail with the error on the row, joined with one of others.
pub open spec fn probe_fails(
    builds: Seq<RowView>,
    probe: RowView,
    build_is_left: bool,
    ps: Seq<CompiledView>,
    e: DbError,
) -> bool {
    exists|i: int|
        0 <= i < builds.len() && predicates_result(
            joined_row(#[trigger] builds[i], probe, build_is_left),
            ps,
        ) == Err::<bool, DbError>(e)
}

/// The predicates fail with the error on one of the rows, joined with one of
/// others.
pub open spec fn pairs_fail(
    builds: Seq<RowView>,
    probes: Seq<RowView>,
    build_is_left: bool,
    ps: Seq<CompiledView>,
    e: DbError,
) -> bool {
    exists|j: int|
        0 <= j < probes.len() && probe_fails(builds, #[trigger] probes[j], build_is_left, ps, e)
}

/// Predicates that fail on a row fail among others.
pub proof fn lemma_fails_within(
    a: Seq<RowView>,
    b: Seq<RowView>,
    ps: Seq<CompiledView>,
    e: DbError,
)
    requires
        fails(a, ps, e),
        bag::within(a, b),
    ensures
        fails(b, ps, e),
{
    let i = choose|i: int|
        0 <= i < a.len() && predicates_result(#[trigger] a[i], ps) == Err::<bool, DbError>(e);
    assert(a.contains(a[i]));
    bag::lemma_within_has(a, b, a[i]);
    let k = choose|k: int| 0 <= k < b.len() && b[k] == a[i];
    assert(predicates_result(b[k], ps) == Err::<bool, DbError>(e));
}

/// Predicates that fail on a joined row fail among others.
pub proof fn lemma_probe_fails_within(
    a: Seq<RowView>,
    b: Seq<RowView>,
    probe: RowView,
    build_is_left: bool,
    ps: Seq<CompiledView>,
    e: DbError,
)
    requires
        probe_fails(a, probe, build_is_left, ps, e),
        bag::within(a, b),
    ensures
        probe_fails(b, probe, build_is_left, ps, e),
{
    let i = choose|i: int|
        0 <= i < a.len() && predicates_result(
            joined_row(#[trigger] a[i], probe, build_is_left),
            ps,
        ) == Err::<bool, DbError>(e);
    assert(a.contains(a[i]));
    bag::lemma_within_has(a, b, a[i]);
    let k = choose|k: int| 0 <= k < b.len() && b[k] == a[i];
    assert(predicates_result(joined_row(b[k], probe, build_is_left), ps) == Err::<bool, DbError>(
        e,
    ));
}

/// Predicates that fail on joined rows fail among others.
pub proof fn lemma_pairs_fail_within(
    builds: Seq<RowView>,
    probes: Seq<RowView>,
    more_builds: Seq<RowView>,
    more_probes: Seq<RowView>,
    build_is_left: bool,
    ps: Seq<CompiledView>,
    e: DbError,
)
    requires
        pairs_fail(builds, probes, build_is_left, ps, e),
        bag::within(builds, more_builds),
        bag::within(probes, more_probes),
    ensures
        pairs_fail(more_builds, more_probes, build_is_left, ps, e),
{
    let j = choose|j: int|
        0 <= j < probes.len() && probe_fails(builds, #[trigger] probes[j], build_is_left, ps, e);
    lemma_probe_fails_within(builds, more_builds, probes[j], build_is_left, ps, e);
    assert(probes.contains(probes[j]));
    bag::lemma_within_has(probes, more_probes, probes[j]);
    let k = choose|k: int| 0 <= k < more_probes.len() && more_probes[k] == probes[j];
    assert(probe_fails(more_builds, more_probes[k], build_is_left, ps, e));
}

/// Which side is the build side does not matter to whether predicates fail.
pub proof fn lemma_pairs_fail_swapped(
    builds: Seq<RowView>,
    probes: Seq<RowView>,
    build_is_left: bool,
    ps: Seq<CompiledView>,
    e: DbError,
)
    requires
        pairs_fail(builds, probes, build_is_left, ps, e),
    ensures
        pairs_fail(probes, builds, !build_is_left, ps, e),
{
    let j = choose|j: int|
        0 <= j < probes.len() && probe_fails(builds, #[trigger] probes[j], build_is_left, ps, e);
    let i = choose|i: int|
        0 <= i < builds.len() && predicates_result(
            joined_row(#[trigger] builds[i], probes[j], build_is_left),
            ps,
        ) == Err::<bool, DbError>(e);
    assert(joined_row(probes[j], builds[i], !build_is_left) == joined_row(
        builds[i],
        probes[j],
        build_is_left,
    ));
    assert(probe_fails(probes, builds[i], !build_is_left, ps, e));
}

/// What a column holds: texts, numbers that have an order with all others, or
/// numbers with NaN among them.
pub enum Kind {
    Text,
    Number,
    Unordered,
}

/// The value is one of the kind.
pub open spec fn fits(v: DataValue, kind: Kind) -> bool {
    match kind {
        Kind::Text => v is Text,
        Kind::Number => value::number_of(v) matches Some(n) && !(n is NaN),
        Kind::Unordered => value::number_of(v) is Some,
    }
}

/// The values of the row are of the kinds.
pub open spec fn row_fits(row: RowView, kinds: Seq<Kind>) -> bool {
    &&& row.len() == kinds.len()
    &&& forall|c: int| 0 <= c < row.len() ==> fits(#[trigger] row[c], kinds[c])
}

/// The values of the rows are of the kinds.
pub open spec fn rows_fit(rows: Seq<RowView>, kinds: Seq<Kind>) -> bool {
    forall|i: int| 0 <= i < rows.len() ==> row_fits(#[trigger] rows[i], kinds)
}

/// The kind of a column of rows.
pub open spec fn kind_of(t: DataType, rows: Seq<RowView>, c: int) -> Kind {
    if t is String {
        Kind::Text
    } else if exists|i: int|
        0 <= i < rows.len() && value::number_of(#[trigger] rows[i][c]) == Some(
            crate::number::Num::NaN,
        ) {
        Kind::Unordered
    } else {
        Kind::Number
    }
}

/// Every value of one kind has an order with every value of the other.
pub open spec fn ordered_kinds(a: Kind, b: Kind) -> bool {
    (a is Text && b is Text) || (a is Number && b is Number)
}

/// Every value of the kind has an order with the value.
pub open spec fn ordered_with(k: Kind, v: DataValue) -> bool {
    match v {
        DataValue::Text(_) => k is Text,
        _ => k is Number && !(value::number_of(v)->0 is NaN),
    }
}

/// The predicate has an answer on every row of the kinds.
pub open spec fn answerable(p: CompiledView, kinds: Seq<Kind>) -> bool {
    &&& 0 <= p.left < kinds.len()
    &&& match p.right {
        RightView::Column(i) => 0 <= i < kinds.len() && ordered_kinds(kinds[p.left], kinds[i]),
        RightView::Literal(v) => ordered_with(kinds[p.left], v),
    }
}

/// The predicates have an answer on every row of the kinds.
pub open spec fn all_answerable(ps: Seq<CompiledView>, kinds: Seq<Kind>) -> bool {
    forall|i: int| 0 <= i < ps.len() ==> answerable(#[trigger] ps[i], kinds)
}

/// The places of the columns of a predicate are there.
pub open spec fn placed(p: CompiledView, width: int) -> bool {
    &&& 0 <= p.left < width
    &&& p.right matches RightView::Column(i) ==> 0 <= i < width
}

/// The places of the columns of all predicates are there.
pub open spec fn all_placed(ps: Seq<CompiledView>, width: int) -> bool {
    forall|i: int| 0 <= i < ps.len() ==> placed(#[trigger] ps[i], width)
}

/// Predicates fail on a row only where two values of the kinds that they compare
/// may have no order.
pub proof fn lemma_unanswered(row: RowView, ps: Seq<CompiledView>, kinds: Seq<Kind>)
    requires
        row_fits(row, kinds),
        all_placed(ps, kinds.len() as int),
    ensures
        predicates_result(row, ps) matches Err(e) ==> e == DbError::Incomparable
            && !all_answerable(ps, kinds),
    decreases ps.len(),
{
    if ps.len() > 0 {
        let rest = ps.skip(1);
        assert forall|i: int| 0 <= i < rest.len() implies placed(
            #[trigger] rest[i],
            kinds.len() as int,
        ) by {
            assert(placed(ps[i + 1], kinds.len() as int));
        }
        lemma_unanswered(row, rest, kinds);
        if !all_answerable(rest, kinds) {
            let i = choose|i: int| 0 <= i < rest.len() && !answerable(#[trigger] rest[i], kinds);
            assert(!answerable(ps[i + 1], kinds));
        }
        let p = ps[0];
        assert(placed(p, kinds.len() as int));
        assert(fits(row[p.left], kinds[p.left]));
        if let RightView::Column(i) = p.right {
            assert(fits(row[i], kinds[i]));
        }
        if answerable(p, kinds) {
            assert(predicate_result(row, p) is Ok);
        }
    }
}

/// Predicates fail on rows only where two values of the kinds that they compare
/// may have no order.
pub proof fn lemma_fails_unanswered(
    rows: Seq<RowView>,
    ps: Seq<CompiledView>,
    kinds: Seq<Kind>,
    e: DbError,
)
    requires
        rows_fit(rows, kinds),
        all_placed(ps, kinds.len() as int),
        fails(rows, ps, e),
    ensures
        e == DbError::Incomparable,
        !all_answerable(ps, kinds),
{
    let i = choose|i: int|
        0 <= i < rows.len() && predicates_result(#[trigger] rows[i], ps) == Err::<bool, DbError>(
            e,
        );
    assert(row_fits(rows[i], kinds));
    lemma_unanswered(rows[i], ps, kinds);
}

/// Predicates fail on joined rows only where two values of the kinds that they
/// compare may have no order.
pub proof fn lemma_pairs_unanswered(
    lefts: Seq<RowView>,
    rights: Seq<RowView>,
    ps: Seq<CompiledView>,
    lk: Seq<Kind>,
    rk: Seq<Kind>,
    e: DbError,
)
    requires
        rows_fit(lefts, lk),
        rows_fit(rights, rk),
        all_placed(ps, (lk + rk).len() as int),
        pairs_fail(lefts, rights, true, ps, e),
    ensures
        e == DbError::Incomparable,
        !all_answerable(ps, lk + rk),
{
    let j = choose|j: int|
        0 <= j < rights.len() && probe_fails(lefts, #[trigger] rights[j], true, ps, e);
    let i = choose|i: int|
        0 <= i < lefts.len() && predicates_result(
            joined_row(#[trigger] lefts[i], rights[j], true),
            ps,
        ) == Err::<bool, DbError>(e);
    assert(row_fits(lefts[i], lk));
    assert(row_fits(rights[j], rk));
    let row = joined_row(lefts[i], rights[j], true);
    assert forall|c: int| 0 <= c < row.len() implies fits(#[trigger] row[c], (lk + rk)[c]) by {
        if c < lk.len() {
            assert(row[c] == lefts[i][c]);
        } else {
            assert(row[c] == rights[j][c - lk.len()]);
        }
    }
    lemma_unanswered(row, ps, lk + rk);
}

/// Predicates on known columns have their places.
pub proof fn lemma_known_placed(columns: Seq<ColumnView>, ps: Seq<PredicateView>)
    requires
        all_known(columns, ps),
    ensures
        all_placed(compiled_all(columns, ps), columns.len() as int),
{
    let cs = compiled_all(columns, ps);
    assert forall|i: int| 0 <= i < cs.len() implies placed(
        #[trigger] cs[i],
        columns.len() as int,
    ) by {
        assert(predicate_known(columns, ps[i]));
        row::lemma_column_index(columns, ps[i].column);
        if let OperandView::Column(other) = ps[i].value {
            row::lemma_column_index(columns, other);
        }
    }
}

/// A row meets a predicate. Values that have no order meet none.
pub open spec fn meets(row: RowView, p: CompiledView) -> bool {
    predicate_result(row, p) == Ok::<bool, DbError>(true)
}

/// A row meets every predicate.
pub open spec fn holds(row: RowView, ps: Seq<CompiledView>) -> bool {
    forall|i: int| 0 <= i < ps.len() ==> meets(row, #[trigger] ps[i])
}

/// Predicates in turn say yes just where the row meets all of them.
pub proof fn lemma_predicates_result(row: RowView, ps: Seq<CompiledView>)
    ensures
        predicates_result(row, ps) == Ok::<bool, DbError>(true) <==> holds(row, ps),
    decreases ps.len(),
{
    if ps.len() > 0 {
        lemma_predicates_result(row, ps.skip(1));
        assert forall|i: int| 0 < i < ps.len() implies ps[i] == ps.skip(1)[i - 1] by {}
        if holds(row, ps) {
            assert(meets(row, ps[0]));
            assert(holds(row, ps.skip(1)));
        }
        if meets(row, ps[0]) && holds(row, ps.skip(1)) {
            assert forall|i: int| 0 <= i < ps.len() implies meets(row, #[trigger] ps[i]) by {
                if i > 0 {
                    assert(meets(row, ps.skip(1)[i - 1]));
                }
            }
        }
    }
}

/// The rows that meet every predicate, in their order.
pub open spec fn filter_rows(rows: Seq<RowView>, ps: Seq<CompiledView>) -> Seq<RowView>
    decreases rows.len(),
{
    if rows.len() == 0 {
        Seq::empty()
    } else {
        let front = filter_rows(rows.drop_last(), ps);
        if holds(rows.last(), ps) {
            front.push(rows.last())
        } else {
            front
        }
    }
}

/// The rows with the values at the indexes.
pub open spec fn project_rows(rows: Seq<RowView>, indexes: Seq<int>) -> Seq<RowView> {
    Seq::new(rows.len(), |i: int| row::project_row(rows[i], indexes))
}

/// A row joined with each of some rows.
pub open spec fn pair_rows(left: RowView, rights: Seq<RowView>) -> Seq<RowView> {
    Seq::new(rights.len(), |i: int| left + rights[i])
}

/// Each of some rows joined with each of others.
pub open spec fn cross_rows(lefts: Seq<RowView>, rights: Seq<RowView>) -> Seq<RowView>
    decreases lefts.len(),
{
    if lefts.len() == 0 {
        Seq::empty()
    } else {
        cross_rows(lefts.drop_last(), rights) + pair_rows(lefts.last(), rights)
    }
}

/// The rows of blocks, one behind the other.
pub open spec fn file_rows(blocks: Seq<Seq<u8>>, types: Seq<DataType>) -> Result<
    Seq<RowView>,
    DbError,
>
    decreases blocks.len(),
{
    if blocks.len() == 0 {
        Ok(Seq::empty())
    } else {
        match file_rows(blocks.drop_last(), types) {
            Err(e) => Err(e),
            Ok(front) => match row_codec::block_rows(blocks.last(), types) {
                Err(e) => Err(e),
                Ok(rows) => Ok(front + rows),
            },
        }
    }
}

/// The rows of a table.
pub open spec fn table_rows(table: TableSpec, layout: DiskLayout) -> Seq<RowView> {
    file_rows(layout.file_blocks(table.file_id@), row::types_of(table.columns()))->Ok_0
}

/// The rows of an operator, in the order of the plainest way to find them.
pub open spec fn rows_of(op: OpView, db: Database) -> Seq<RowView>
    decreases op,
{
    match op {
        OpView::Scan(id) => table_rows(db.tables[db_context::table_index(db.tables, id)->0], db.layout),
        OpView::Filter(ps, u) => filter_rows(
            rows_of(*u, db),
            compiled_all(query_support::schema_of(*u, db.tables)->Ok_0, ps),
        ),
        OpView::Project(map, u) => project_rows(
            rows_of(*u, db),
            row::map_indexes(query_support::schema_of(*u, db.tables)->Ok_0, map),
        ),
        OpView::Cross(l, r) => cross_rows(rows_of(*l, db), rows_of(*r, db)),
        OpView::Sort(_, u) => rows_of(*u, db),
    }
}

/// Every table and every column that an operator names is there.
pub open spec fn op_known(op: OpView, tables: Seq<TableSpec>) -> bool
    decreases op,
{
    match op {
        OpView::Scan(id) => db_context::table_index(tables, id) is Some,
        OpView::Filter(ps, u) => op_known(*u, tables) && all_known(
            query_support::schema_of(*u, tables)->Ok_0,
            ps,
        ),
        OpView::Project(map, u) => op_known(*u, tables) && row::map_known(
            query_support::schema_of(*u, tables)->Ok_0,
            map,
        ),
        OpView::Cross(l, r) => op_known(*l, tables) && op_known(*r, tables),
        OpView::Sort(specs, u) => op_known(*u, tables) && sort_known(
            query_support::schema_of(*u, tables)->Ok_0,
            specs,
        ),
    }
}

/// What the columns of an operator hold, as far as the tables show.
pub open spec fn kinds(op: OpView, db: Database) -> Seq<Kind>
    decreases op,
{
    match op {
        OpView::Scan(id) => match db_context::table_index(db.tables, id) {
            Some(k) => table_kinds(db.tables[k], db.layout),
            None => Seq::empty(),
        },
        OpView::Filter(_, u) => kinds(*u, db),
        OpView::Project(map, u) => {
            let below = kinds(*u, db);
            let columns = query_support::schema_of(*u, db.tables)->Ok_0;
            Seq::new(map.len(), |c: int| below[row::column_index(columns, map[c].0)->0 as int])
        },
        OpView::Cross(l, r) => kinds(*l, db) + kinds(*r, db),
        OpView::Sort(_, u) => kinds(*u, db),
    }
}

/// What the columns of a table hold.
pub open spec fn table_kinds(table: TableSpec, layout: DiskLayout) -> Seq<Kind> {
    Seq::new(
        table.columns().len(),
        |c: int| kind_of(table.columns()[c].data_type, table_rows(table, layout), c),
    )
}

/// The rows of a table are of the kinds of its columns.
pub proof fn lemma_table_kinds(table: TableSpec, layout: DiskLayout)
    requires
        crate::storage::row_codec::all_conform(
            table_rows(table, layout),
            row::types_of(table.columns()),
        ),
    ensures
        rows_fit(table_rows(table, layout), table_kinds(table, layout)),
{
    let rows = table_rows(table, layout);
    let kinds = table_kinds(table, layout);
    let types = row::types_of(table.columns());
    assert forall|i: int| 0 <= i < rows.len() implies row_fits(#[trigger] rows[i], kinds) by {
        assert(crate::data::conforms(rows[i], types));
        assert forall|c: int| 0 <= c < rows[i].len() implies fits(
            #[trigger] rows[i][c],
            kinds[c],
        ) by {
            assert(rows[i][c].data_type() == types[c]);
        }
    }
}

/// The predicates of an operator have an answer on all rows of what its columns
/// hold.
pub open spec fn op_answerable(op: OpView, db: Database) -> bool
    decreases op,
{
    match op {
        OpView::Scan(_) => true,
        OpView::Filter(ps, u) => op_answerable(*u, db) && filter_answerable(*u, ps, db),
        OpView::Project(_, u) => op_answerable(*u, db),
        OpView::Cross(l, r) => op_answerable(*l, db) && op_answerable(*r, db),
        OpView::Sort(_, u) => op_answerable(*u, db),
    }
}

/// Predicates have an answer on all rows of what an operator's columns hold.
pub open spec fn filter_answerable(op: OpView, ps: Seq<PredicateView>, db: Database) -> bool {
    let columns = query_support::schema_of(op, db.tables)->Ok_0;
    all_answerable(compiled_all(columns, ps), kinds(op, db))
}

/// An operator whose names are there has columns.
pub proof fn lemma_known_schema(op: OpView, tables: Seq<TableSpec>)
    requires
        op_known(op, tables),
    ensures
        query_support::schema_of(op, tables) is Ok,
    decreases op,
{
    match op {
        OpView::Scan(_) => {},
        OpView::Filter(_, u) => lemma_known_schema(*u, tables),
        OpView::Project(_, u) => lemma_known_schema(*u, tables),
        OpView::Cross(l, r) => {
            lemma_known_schema(*l, tables);
            lemma_known_schema(*r, tables);
        },
        OpView::Sort(_, u) => lemma_known_schema(*u, tables),
    }
}

/// A column to sort by, known by its place.
pub struct SortKey {
    pub index: int,
    pub ascending: bool,
}

/// Sort columns by their places.
pub open spec fn sort_keys(columns: Seq<ColumnView>, specs: Seq<SortSpecView>) -> Seq<SortKey> {
    Seq::new(
        specs.len(),
        |i: int|
            SortKey {
                index: row::column_index(columns, specs[i].column)->0,
                ascending: specs[i].ascending,
            },
    )
}

/// The sort columns are there.
pub open spec fn sort_known(columns: Seq<ColumnView>, specs: Seq<SortSpecView>) -> bool {
    forall|i: int| 0 <= i < specs.len() ==> query_support::has_column(
        columns,
        (#[trigger] specs[i]).column,
    )
}

/// The order of two values, where those without an order count as equal.
pub open spec fn key_order(a: DataValue, b: DataValue, ascending: bool) -> Order {
    let o = match value::order(a, b) {
        Some(o) => o,
        None => Order::Equal,
    };
    if ascending {
        o
    } else {
        o.reversed()
    }
}

/// The order of two rows: that of the first sort column on which they differ.
pub open spec fn row_order(a: RowView, b: RowView, keys: Seq<SortKey>) -> Order
    decreases keys.len(),
{
    if keys.len() == 0 {
        Order::Equal
    } else {
        let o = key_order(a[keys[0].index], b[keys[0].index], keys[0].ascending);
        if o is Equal {
            row_order(a, b, keys.skip(1))
        } else {
            o
        }
    }
}

/// No row comes behind one that it should come before.
pub open spec fn sorted(rows: Seq<RowView>, keys: Seq<SortKey>) -> bool {
    forall|i: int, j: int|
        0 <= i < j < rows.len() ==> !(row_order(#[trigger] rows[i], #[trigger] rows[j], keys)
            is Greater)
}

/// Two rows have an order on every sort column.
pub open spec fn comparable_rows(a: RowView, b: RowView, keys: Seq<SortKey>) -> bool {
    forall|k: int|
        0 <= k < keys.len() ==> value::order(
            a[(#[trigger] keys[k]).index],
            b[keys[k].index],
        ) is Some
}

/// Any two rows have an order on every sort column.
pub open spec fn comparable(rows: Seq<RowView>, keys: Seq<SortKey>) -> bool {
    forall|i: int, j: int|
        0 <= i < rows.len() && 0 <= j < rows.len() ==> comparable_rows(
            #[trigger] rows[i],
            #[trigger] rows[j],
            keys,
        )
}

/// An operator on the rows of one table, in which nothing is sorted.
pub open spec fn is_pipeline(op: OpView) -> bool
    decreases op,
{
    match op {
        OpView::Scan(_) => true,
        OpView::Filter(_, u) => is_pipeline(*u),
        OpView::Project(_, u) => is_pipeline(*u),
        _ => false,
    }
}

/// An operator whose rows come in the order of a sort.
pub open spec fn is_sorted_chain(op: OpView) -> bool
    decreases op,
{
    match op {
        OpView::Sort(_, _) => true,
        OpView::Filter(_, u) => is_sorted_chain(*u),
        OpView::Project(_, u) => is_sorted_chain(*u),
        _ => false,
    }
}

/// What a filter leaves of rows.
pub open spec fn is_filtered(
    out: Seq<RowView>,
    rows: Seq<RowView>,
    ps: Seq<CompiledView>,
) -> bool {
    out == filter_rows(rows, ps)
}

/// What a projection makes of rows.
pub open spec fn is_projected(
    out: Seq<RowView>,
    rows: Seq<RowView>,
    indexes: Seq<int>,
) -> bool {
    out == project_rows(rows, indexes)
}

/// Whether rows are a right answer of an operator: its rows, each as often as
/// it should occur. The rows of a pipeline come in the order of the table, and
/// those of a sort in its order, as far as the sort columns have one.
pub open spec fn delivers(op: OpView, db: Database, out: Seq<RowView>) -> bool
    decreases op,
{
    &&& bag::bag(out) == bag::bag(rows_of(op, db))
    &&& is_pipeline(op) ==> out == rows_of(op, db)
    &&& is_sorted_chain(op) ==> match op {
        OpView::Sort(specs, u) => {
            let keys = sort_keys(query_support::schema_of(*u, db.tables)->Ok_0, specs);
            comparable(rows_of(*u, db), keys) ==> sorted(out, keys)
        },
        OpView::Filter(ps, u) => exists|c: Seq<RowView>| #[trigger]
            is_filtered(
                out,
                c,
                compiled_all(query_support::schema_of(*u, db.tables)->Ok_0, ps),
            ) && delivers(*u, db, c),
        OpView::Project(map, u) => exists|c: Seq<RowView>| #[trigger]
            is_projected(
                out,
                c,
                row::map_indexes(query_support::schema_of(*u, db.tables)->Ok_0, map),
            ) && delivers(*u, db, c),
        _ => true,
    }
}

/// The files of the tables hold rows, below the scratch area, and columns that
/// are said to be in order on the device are.
pub open spec fn all_sound(db: Database) -> bool {
    forall|i: int| 0 <= i < db.tables.len() ==> table_sound(#[trigger] db.tables[i], db.layout)
}

/// The same of the tables that an operator reads.
pub open spec fn sound(op: OpView, db: Database) -> bool
    decreases op,
{
    match op {
        OpView::Scan(id) => match db_context::table_index(db.tables, id) {
            Some(k) => table_sound(db.tables[k], db.layout),
            None => true,
        },
        OpView::Filter(_, u) => sound(*u, db),
        OpView::Project(_, u) => sound(*u, db),
        OpView::Cross(l, r) => sound(*l, db) && sound(*r, db),
        OpView::Sort(_, u) => sound(*u, db),
    }
}

/// The same of the tables that either of two operators reads.
pub open spec fn both_sound(a: OpView, b: OpView, db: Database) -> bool {
    sound(a, db) && sound(b, db)
}

/// Where all tables are sound, those that an operator reads are.
pub broadcast proof fn lemma_all_sound(op: OpView, db: Database)
    requires
        all_sound(db),
    ensures
        #[trigger] sound(op, db),
    decreases op,
{
    match op {
        OpView::Scan(id) => {
            db_context::lemma_table_index(db.tables, id);
        },
        OpView::Filter(_, u) => lemma_all_sound(*u, db),
        OpView::Project(_, u) => lemma_all_sound(*u, db),
        OpView::Cross(l, r) => {
            lemma_all_sound(*l, db);
            lemma_all_sound(*r, db);
        },
        OpView::Sort(_, u) => lemma_all_sound(*u, db),
    }
}

/// The file of a table holds rows, below the scratch area, and columns that
/// are said to be in order on the device are.
pub open spec fn table_sound(table: TableSpec, layout: DiskLayout) -> bool {
    let (start, count) = layout.files[table.file_id@];
    &&& start + count <= layout.anon_start
    &&& file_rows(layout.file_blocks(table.file_id@), row::types_of(table.columns())) is Ok
    &&& forall|c: int|
        0 <= c < table.column_specs@.len()
            && crate::catalog::statistics::ordered_on_disk((#[trigger] table.column_specs@[c]).stats)
            ==> ascending(table_rows(table, layout), c)
}

/// The values of a column do not fall from one row to a later one.
pub open spec fn ascending(rows: Seq<RowView>, column: int) -> bool {
    forall|i: int, j: int|
        0 <= i < j < rows.len() ==> value::at_most(
            (#[trigger] rows[i])[column],
            (#[trigger] rows[j])[column],
        )
}

/// What a join makes of two rows.
pub open spec fn join_pair(l: RowView, r: RowView, ps: Seq<CompiledView>) -> Multiset<RowView> {
    if holds(l + r, ps) {
        Multiset::singleton(l + r)
    } else {
        Multiset::empty()
    }
}

/// What a join makes of some rows and others.
pub open spec fn join_bag(
    lefts: Seq<RowView>,
    rights: Seq<RowView>,
    ps: Seq<CompiledView>,
) -> Multiset<RowView> {
    bag::sum_over(lefts, |l: RowView| bag::sum_over(rights, |r: RowView| join_pair(l, r, ps)))
}

/// What a filter makes of a row.
pub open spec fn filter_one(r: RowView, ps: Seq<CompiledView>) -> Multiset<RowView> {
    if holds(r, ps) {
        Multiset::singleton(r)
    } else {
        Multiset::empty()
    }
}

/// The rows that meet predicates, without their order.
pub proof fn lemma_filter_bag(rows: Seq<RowView>, ps: Seq<CompiledView>)
    ensures
        bag::bag(filter_rows(rows, ps)) == bag::sum_over(rows, |r: RowView| filter_one(r, ps)),
    decreases rows.len(),
{
    if rows.len() == 0 {
        bag::lemma_bag_empty(filter_rows(rows, ps));
    } else {
        let front = filter_rows(rows.drop_last(), ps);
        lemma_filter_bag(rows.drop_last(), ps);
        bag::lemma_bag_push(front, rows.last());
        assert(bag::bag(front).add(Multiset::empty()) =~= bag::bag(front));
    }
}

/// Filtering two sequences, one behind the other.
pub proof fn lemma_filter_concat(a: Seq<RowView>, b: Seq<RowView>, ps: Seq<CompiledView>)
    ensures
        filter_rows(a + b, ps) == filter_rows(a, ps) + filter_rows(b, ps),
    decreases b.len(),
{
    if b.len() == 0 {
        assert(a + b =~= a);
        assert(filter_rows(a, ps) + Seq::<RowView>::empty() =~= filter_rows(a, ps));
    } else {
        lemma_filter_concat(a, b.drop_last(), ps);
        assert((a + b).drop_last() =~= a + b.drop_last());
        assert((a + b).last() == b.last());
        if holds(b.last(), ps) {
            assert(filter_rows(a, ps) + filter_rows(b.drop_last(), ps).push(b.last()) =~= (
            filter_rows(a, ps) + filter_rows(b.drop_last(), ps)).push(b.last()));
        }
    }
}

/// Filtering one row more.
pub proof fn lemma_filter_push(rows: Seq<RowView>, r: RowView, ps: Seq<CompiledView>)
    ensures
        filter_rows(rows.push(r), ps) == if holds(r, ps) {
            filter_rows(rows, ps).push(r)
        } else {
            filter_rows(rows, ps)
        },
{
    assert(rows.push(r).drop_last() =~= rows);
}

/// Every row that is left by a filter was there before and meets it.
pub proof fn lemma_filter_members(rows: Seq<RowView>, ps: Seq<CompiledView>)
    ensures
        forall|i: int|
            0 <= i < filter_rows(rows, ps).len() ==> rows.contains(
                #[trigger] filter_rows(rows, ps)[i],
            ) && holds(filter_rows(rows, ps)[i], ps),
        filter_rows(rows, ps).len() <= rows.len(),
    decreases rows.len(),
{
    if rows.len() > 0 {
        lemma_filter_members(rows.drop_last(), ps);
        let front = filter_rows(rows.drop_last(), ps);
        let out = filter_rows(rows, ps);
        assert forall|i: int| 0 <= i < out.len() implies rows.contains(#[trigger] out[i]) && holds(
            out[i],
            ps,
        ) by {
            if i < front.len() {
                assert(rows.drop_last().contains(front[i]));
                let k = choose|k: int|
                    0 <= k < rows.drop_last().len() && rows.drop_last()[k] == front[i];
                assert(rows[k] == front[i]);
            } else {
                assert(rows[rows.len() - 1] == out[i]);
            }
        }
    }
}

/// The bag of a row joined with each of some rows, filtered.
proof fn lemma_pair_bag(l: RowView, rights: Seq<RowView>, ps: Seq<CompiledView>)
    ensures
        bag::bag(filter_rows(pair_rows(l, rights), ps)) == bag::sum_over(
            rights,
            |r: RowView| join_pair(l, r, ps),
        ),
    decreases rights.len(),
{
    let pairs = pair_rows(l, rights);
    if rights.len() == 0 {
        bag::lemma_bag_empty(filter_rows(pairs, ps));
    } else {
        lemma_pair_bag(l, rights.drop_last(), ps);
        let front = filter_rows(pair_rows(l, rights.drop_last()), ps);
        assert(pairs.drop_last() =~= pair_rows(l, rights.drop_last()));
        bag::lemma_bag_push(front, pairs.last());
        assert(bag::bag(front).add(Multiset::empty()) =~= bag::bag(front));
    }
}

/// A filtered cross product, without its order.
pub proof fn lemma_join_bag(
    lefts: Seq<RowView>,
    rights: Seq<RowView>,
    ps: Seq<CompiledView>,
)
    ensures
        bag::bag(filter_rows(cross_rows(lefts, rights), ps)) == join_bag(lefts, rights, ps),
    decreases lefts.len(),
{
    if lefts.len() == 0 {
        bag::lemma_bag_empty(filter_rows(cross_rows(lefts, rights), ps));
    } else {
        let front = cross_rows(lefts.drop_last(), rights);
        let last = pair_rows(lefts.last(), rights);
        lemma_join_bag(lefts.drop_last(), rights, ps);
        lemma_pair_bag(lefts.last(), rights, ps);
        lemma_filter_concat(front, last, ps);
        bag::lemma_bag_concat(filter_rows(front, ps), filter_rows(last, ps));
    }
}

/// A join does not depend on the order of its sides.
pub proof fn lemma_join_same_bags(
    l1: Seq<RowView>,
    r1: Seq<RowView>,
    l2: Seq<RowView>,
    r2: Seq<RowView>,
    ps: Seq<CompiledView>,
)
    requires
        bag::bag(l1) == bag::bag(l2),
        bag::bag(r1) == bag::bag(r2),
    ensures
        join_bag(l1, r1, ps) == join_bag(l2, r2, ps),
{
    let g1 = |l: RowView| bag::sum_over(r1, |r: RowView| join_pair(l, r, ps));
    let g2 = |l: RowView| bag::sum_over(r2, |r: RowView| join_pair(l, r, ps));
    assert forall|i: int| 0 <= i < l1.len() implies g1(#[trigger] l1[i]) == g2(l1[i]) by {
        bag::lemma_sum_bag(r1, r2, |r: RowView| join_pair(l1[i], r, ps));
    }
    bag::lemma_sum_same(l1, g1, g2);
    bag::lemma_sum_bag(l1, l2, g2);
}

/// A join of the left side in two parts.
pub proof fn lemma_join_concat_left(
    a: Seq<RowView>,
    b: Seq<RowView>,
    rights: Seq<RowView>,
    ps: Seq<CompiledView>,
)
    ensures
        join_bag(a + b, rights, ps) == join_bag(a, rights, ps).add(join_bag(b, rights, ps)),
{
    bag::lemma_sum_concat(
        a,
        b,
        |l: RowView| bag::sum_over(rights, |r: RowView| join_pair(l, r, ps)),
    );
}

/// The rows of one side, joined with one row of the other.
pub open spec fn match_bag(
    builds: Seq<RowView>,
    probe: RowView,
    build_is_left: bool,
    ps: Seq<CompiledView>,
) -> Multiset<RowView> {
    bag::sum_over(
        builds,
        |b: RowView|
            if build_is_left {
                join_pair(b, probe, ps)
            } else {
                join_pair(probe, b, ps)
            },
    )
}

/// A join in the order of the rows of one side, each with those of the other.
pub open spec fn probe_bag(
    builds: Seq<RowView>,
    probes: Seq<RowView>,
    build_is_left: bool,
    ps: Seq<CompiledView>,
) -> Multiset<RowView> {
    bag::sum_over(probes, |p: RowView| match_bag(builds, p, build_is_left, ps))
}

/// A join is the same whichever side is walked first.
pub proof fn lemma_probe_bag(
    builds: Seq<RowView>,
    probes: Seq<RowView>,
    build_is_left: bool,
    ps: Seq<CompiledView>,
)
    ensures
        probe_bag(builds, probes, build_is_left, ps) == if build_is_left {
            join_bag(builds, probes, ps)
        } else {
            join_bag(probes, builds, ps)
        },
{
    let g = |p: RowView| match_bag(builds, p, build_is_left, ps);
    if build_is_left {
        let pair = |b: RowView, p: RowView| join_pair(b, p, ps);
        bag::lemma_sum_swap(builds, probes, pair);
        let swapped = |p: RowView| bag::sum_over(builds, |b: RowView| pair(b, p));
        assert forall|i: int| 0 <= i < probes.len() implies g(#[trigger] probes[i]) == swapped(
            probes[i],
        ) by {
            let p = probes[i];
            bag::lemma_sum_same(
                builds,
                |b: RowView|
                    if build_is_left {
                        join_pair(b, p, ps)
                    } else {
                        join_pair(p, b, ps)
                    },
                |b: RowView| pair(b, p),
            );
        }
        bag::lemma_sum_same(probes, g, swapped);
        let outer = |b: RowView| bag::sum_over(probes, |p: RowView| pair(b, p));
        let plain = |l: RowView| bag::sum_over(probes, |r: RowView| join_pair(l, r, ps));
        assert forall|i: int| 0 <= i < builds.len() implies outer(#[trigger] builds[i]) == plain(
            builds[i],
        ) by {
            let b = builds[i];
            bag::lemma_sum_same(probes, |p: RowView| pair(b, p), |r: RowView| join_pair(b, r, ps));
        }
        bag::lemma_sum_same(builds, outer, plain);
    } else {
        let plain = |l: RowView| bag::sum_over(builds, |r: RowView| join_pair(l, r, ps));
        assert forall|i: int| 0 <= i < probes.len() implies g(#[trigger] probes[i]) == plain(
            probes[i],
        ) by {
            let p = probes[i];
            bag::lemma_sum_same(
                builds,
                |b: RowView|
                    if build_is_left {
                        join_pair(b, p, ps)
                    } else {
                        join_pair(p, b, ps)
                    },
                |r: RowView| join_pair(p, r, ps),
            );
        }
        bag::lemma_sum_same(probes, g, plain);
    }
}

/// A row of the build side and one of the probe side in the order of the join.
pub open spec fn joined_row(build: RowView, probe: RowView, build_is_left: bool) -> RowView {
    if build_is_left {
        build + probe
    } else {
        probe + build
    }
}

/// The rows that a probe row makes with the rows of the build side, in their
/// order.
pub open spec fn matches_of(
    builds: Seq<RowView>,
    probe: RowView,
    build_is_left: bool,
    ps: Seq<CompiledView>,
) -> Seq<RowView>
    decreases builds.len(),
{
    if builds.len() == 0 {
        Seq::empty()
    } else {
        let front = matches_of(builds.drop_last(), probe, build_is_left, ps);
        let pair = joined_row(builds.last(), probe, build_is_left);
        if holds(pair, ps) {
            front.push(pair)
        } else {
            front
        }
    }
}

/// The rows that probe rows make, in their order.
pub open spec fn probe_rows(
    builds: Seq<RowView>,
    probes: Seq<RowView>,
    build_is_left: bool,
    ps: Seq<CompiledView>,
) -> Seq<RowView>
    decreases probes.len(),
{
    if probes.len() == 0 {
        Seq::empty()
    } else {
        probe_rows(builds, probes.drop_last(), build_is_left, ps) + matches_of(
            builds,
            probes.last(),
            build_is_left,
            ps,
        )
    }
}

/// The rows that a probe row makes, without their order.
pub proof fn lemma_matches_bag(
    builds: Seq<RowView>,
    probe: RowView,
    build_is_left: bool,
    ps: Seq<CompiledView>,
)
    ensures
        bag::bag(matches_of(builds, probe, build_is_left, ps)) == match_bag(
            builds,
            probe,
            build_is_left,
            ps,
        ),
    decreases builds.len(),
{
    if builds.len() == 0 {
        bag::lemma_bag_empty(matches_of(builds, probe, build_is_left, ps));
    } else {
        let front = matches_of(builds.drop_last(), probe, build_is_left, ps);
        let pair = joined_row(builds.last(), probe, build_is_left);
        lemma_matches_bag(builds.drop_last(), probe, build_is_left, ps);
        bag::lemma_bag_push(front, pair);
        assert(bag::bag(front).add(Multiset::empty()) =~= bag::bag(front));
    }
}

/// The rows that probe rows make, without their order.
pub proof fn lemma_probe_rows_bag(
    builds: Seq<RowView>,
    probes: Seq<RowView>,
    build_is_left: bool,
    ps: Seq<CompiledView>,
)
    ensures
        bag::bag(probe_rows(builds, probes, build_is_left, ps)) == probe_bag(
            builds,
            probes,
            build_is_left,
            ps,
        ),
    decreases probes.len(),
{
    if probes.len() == 0 {
        bag::lemma_bag_empty(probe_rows(builds, probes, build_is_left, ps));
    } else {
        let front = probe_rows(builds, probes.drop_last(), build_is_left, ps);
        let last = matches_of(builds, probes.last(), build_is_left, ps);
        lemma_probe_rows_bag(builds, probes.drop_last(), build_is_left, ps);
        lemma_matches_bag(builds, probes.last(), build_is_left, ps);
        bag::lemma_bag_concat(front, last);
    }
}

/// The rows that one probe row more makes.
pub proof fn lemma_probe_rows_push(
    builds: Seq<RowView>,
    probes: Seq<RowView>,
    p: RowView,
    build_is_left: bool,
    ps: Seq<CompiledView>,
)
    ensures
        probe_rows(builds, probes.push(p), build_is_left, ps) == probe_rows(
            builds,
            probes,
            build_is_left,
            ps,
        ) + matches_of(builds, p, build_is_left, ps),
{
    assert(probes.push(p).drop_last() =~= probes);
}

/// The place of a column of one side among those of both.
pub proof fn lemma_combined_index(left: Seq<ColumnView>, right: Seq<ColumnView>, name: Seq<char>)
    ensures
        row::column_index(left + right, name) == match row::column_index(left, name) {
            Some(i) => Some(i),
            None => match row::column_index(right, name) {
                Some(i) => Some(left.len() + i),
                None => None,
            },
        },
{
    let both = left + right;
    row::lemma_column_index(left, name);
    row::lemma_column_index(right, name);
    row::lemma_column_index(both, name);
    match row::column_index(both, name) {
        Some(i) => {
            if i < left.len() {
                assert(left[i] == both[i]);
            } else {
                assert(right[i - left.len()] == both[i]);
            }
        },
        None => {},
    }
    match row::column_index(left, name) {
        Some(i) => {
            assert(both[i] == left[i]);
        },
        None => {
            match row::column_index(right, name) {
                Some(i) => {
                    assert(both[left.len() + i] == right[i]);
                },
                None => {},
            }
        },
    }
}

/// A predicate on one side says the same of the row of that side as of the
/// joined row.
pub proof fn lemma_side_predicate(
    left: Seq<ColumnView>,
    right: Seq<ColumnView>,
    p: PredicateView,
    l: RowView,
    r: RowView,
)
    requires
        l.len() == left.len(),
        r.len() == right.len(),
    ensures
        query_support::predicate_side(p, left, right) is Left ==> predicate_known(left, p)
            && predicate_result(l + r, compiled(left + right, p)) == predicate_result(
            l,
            compiled(left, p),
        ),
        query_support::predicate_side(p, left, right) is Right ==> predicate_known(right, p)
            && predicate_result(l + r, compiled(left + right, p)) == predicate_result(
            r,
            compiled(right, p),
        ),
        !(query_support::predicate_side(p, left, right) is Cross) ==> predicate_known(
            left + right,
            p,
        ),
{
    lemma_combined_index(left, right, p.column);
    row::lemma_column_index(left, p.column);
    row::lemma_column_index(right, p.column);
    match p.value {
        OperandView::Column(other) => {
            lemma_combined_index(left, right, other);
            row::lemma_column_index(left, other);
            row::lemma_column_index(right, other);
        },
        OperandView::Literal(_) => {},
    }
}

/// A row meets predicates in an order just where it meets them in another.
pub proof fn lemma_holds_push(row: RowView, ps: Seq<CompiledView>, p: CompiledView)
    ensures
        holds(row, ps.push(p)) <==> holds(row, ps) && meets(row, p),
{
    let more = ps.push(p);
    if holds(row, more) {
        assert forall|i: int| 0 <= i < ps.len() implies meets(row, #[trigger] ps[i]) by {
            assert(meets(row, more[i]));
        }
        assert(meets(row, more[ps.len() as int]));
    }
}

/// A joined row meets predicates just where its parts meet those of their
/// sides and it meets the rest.
pub proof fn lemma_split_holds(
    left: Seq<ColumnView>,
    right: Seq<ColumnView>,
    ps: Seq<PredicateView>,
    l: RowView,
    r: RowView,
)
    requires
        l.len() == left.len(),
        r.len() == right.len(),
    ensures
        holds(l + r, compiled_all(left + right, ps)) <==> {
            &&& holds(
                l,
                compiled_all(
                    left,
                    query_support::side_predicates(ps, left, right, PredicateSide::Left),
                ),
            )
            &&& holds(
                r,
                compiled_all(
                    right,
                    query_support::side_predicates(ps, left, right, PredicateSide::Right),
                ),
            )
            &&& holds(
                l + r,
                compiled_all(
                    left + right,
                    query_support::side_predicates(ps, left, right, PredicateSide::Cross),
                ),
            )
        },
    decreases ps.len(),
{
    let both = left + right;
    if ps.len() > 0 {
        let front = ps.drop_last();
        let p = ps.last();
        lemma_split_holds(left, right, front, l, r);
        lemma_side_predicate(left, right, p, l, r);
        assert(compiled_all(both, ps) =~= compiled_all(both, front).push(compiled(both, p)));
        lemma_holds_push(l + r, compiled_all(both, front), compiled(both, p));
        let ls = query_support::side_predicates(front, left, right, PredicateSide::Left);
        let rs = query_support::side_predicates(front, left, right, PredicateSide::Right);
        let cs = query_support::side_predicates(front, left, right, PredicateSide::Cross);
        lemma_holds_push(l, compiled_all(left, ls), compiled(left, p));
        lemma_holds_push(r, compiled_all(right, rs), compiled(right, p));
        lemma_holds_push(l + r, compiled_all(both, cs), compiled(both, p));
        assert(compiled_all(left, ls.push(p)) =~= compiled_all(left, ls).push(compiled(left, p)));
        assert(compiled_all(right, rs.push(p)) =~= compiled_all(right, rs).push(
            compiled(right, p),
        ));
        assert(compiled_all(both, cs.push(p)) =~= compiled_all(both, cs).push(compiled(both, p)));
    }
}

/// Every row has as many values as there are columns.
pub open spec fn all_wide(rows: Seq<RowView>, width: nat) -> bool {
    forall|i: int| 0 <= i < rows.len() ==> (#[trigger] rows[i]).len() == width
}

/// A filtered cross product is the join of the filtered sides.
pub proof fn lemma_split_join(
    left: Seq<ColumnView>,
    right: Seq<ColumnView>,
    ps: Seq<PredicateView>,
    lefts: Seq<RowView>,
    rights: Seq<RowView>,
)
    requires
        all_wide(lefts, left.len()),
        all_wide(rights, right.len()),
    ensures
        join_bag(lefts, rights, compiled_all(left + right, ps)) == join_bag(
            filter_rows(
                lefts,
                compiled_all(
                    left,
                    query_support::side_predicates(ps, left, right, PredicateSide::Left),
                ),
            ),
            filter_rows(
                rights,
                compiled_all(
                    right,
                    query_support::side_predicates(ps, left, right, PredicateSide::Right),
                ),
            ),
            compiled_all(
                left + right,
                query_support::side_predicates(ps, left, right, PredicateSide::Cross),
            ),
        ),
{
    let all = compiled_all(left + right, ps);
    let lp = compiled_all(
        left,
        query_support::side_predicates(ps, left, right, PredicateSide::Left),
    );
    let rp = compiled_all(
        right,
        query_support::side_predicates(ps, left, right, PredicateSide::Right),
    );
    let cp = compiled_all(
        left + right,
        query_support::side_predicates(ps, left, right, PredicateSide::Cross),
    );
    let whole = |l: RowView| bag::sum_over(rights, |r: RowView| join_pair(l, r, all));
    let fr = filter_rows(rights, rp);
    let part = |l: RowView| bag::sum_over(fr, |r: RowView| join_pair(l, r, cp));
    let guarded = |l: RowView|
        if holds(l, lp) {
            part(l)
        } else {
            Multiset::empty()
        };
    assert forall|i: int| 0 <= i < lefts.len() implies whole(#[trigger] lefts[i]) == guarded(
        lefts[i],
    ) by {
        let l = lefts[i];
        let f = |r: RowView| join_pair(l, r, all);
        if holds(l, lp) {
            let g = |r: RowView| join_pair(l, r, cp);
            let h = |r: RowView|
                if holds(r, rp) {
                    g(r)
                } else {
                    Multiset::empty()
                };
            assert forall|j: int| 0 <= j < rights.len() implies f(#[trigger] rights[j]) == h(
                rights[j],
            ) by {
                lemma_split_holds(left, right, ps, l, rights[j]);
            }
            bag::lemma_sum_same(rights, f, h);
            lemma_sum_filter(rights, rp, g, h);
        } else {
            assert forall|j: int| 0 <= j < rights.len() implies f(#[trigger] rights[j])
                == Multiset::<RowView>::empty() by {
                lemma_split_holds(left, right, ps, l, rights[j]);
            }
            bag::lemma_sum_empty(rights, f);
        }
    }
    bag::lemma_sum_same(lefts, whole, guarded);
    lemma_sum_filter(lefts, lp, part, guarded);
}

/// A sum over filtered rows is one over all rows, those left out counting
/// nothing.
pub proof fn lemma_sum_filter(
    rows: Seq<RowView>,
    ps: Seq<CompiledView>,
    g: spec_fn(RowView) -> Multiset<RowView>,
    h: spec_fn(RowView) -> Multiset<RowView>,
)
    requires
        forall|r: RowView| #[trigger]
            h(r) == if holds(r, ps) {
                g(r)
            } else {
                Multiset::empty()
            },
    ensures
        bag::sum_over(filter_rows(rows, ps), g) == bag::sum_over(rows, h),
    decreases rows.len(),
{
    if rows.len() > 0 {
        lemma_sum_filter(rows.drop_last(), ps, g, h);
        let front = filter_rows(rows.drop_last(), ps);
        let last = rows.last();
        assert(h(last) == if holds(last, ps) {
            g(last)
        } else {
            Multiset::empty()
        });
        if holds(last, ps) {
            bag::lemma_sum_push(front, last, g);
        } else {
            assert(bag::sum_over(rows.drop_last(), h).add(Multiset::empty()) =~= bag::sum_over(
                rows.drop_last(),
                h,
            ));
        }
    }
}

/// Exchanging two rows reverses their order.
pub proof fn lemma_row_order_reverse(a: RowView, b: RowView, keys: Seq<SortKey>)
    ensures
        row_order(b, a, keys) == row_order(a, b, keys).reversed(),
    decreases keys.len(),
{
    if keys.len() > 0 {
        let i = keys[0].index;
        value::lemma_order_reverse(a[i], b[i]);
        lemma_row_order_reverse(a, b, keys.skip(1));
    }
}

/// The order of rows is transitive where their values have an order.
pub proof fn lemma_row_order_transitive(a: RowView, b: RowView, c: RowView, keys: Seq<SortKey>)
    requires
        comparable_rows(a, b, keys),
        comparable_rows(b, c, keys),
        !(row_order(a, b, keys) is Greater),
        !(row_order(b, c, keys) is Greater),
    ensures
        !(row_order(a, c, keys) is Greater),
        row_order(a, b, keys) is Less || row_order(b, c, keys) is Less ==> row_order(a, c, keys)
            is Less,
    decreases keys.len(),
{
    if keys.len() > 0 {
        let k = keys[0];
        let (x, y, z) = (a[k.index], b[k.index], c[k.index]);
        assert(value::order(x, y) is Some);
        assert(value::order(y, z) is Some);
        value::lemma_order_reverse(x, y);
        value::lemma_order_reverse(y, z);
        value::lemma_order_reverse(x, z);
        if k.ascending {
            value::lemma_order_transitive(x, y, z);
        } else {
            value::lemma_order_transitive(z, y, x);
        }
        let rest = keys.skip(1);
        if value::order(x, y) == Some(Order::Equal) && value::order(y, z) == Some(Order::Equal) {
            value::lemma_order_transitive(z, y, x);
            value::lemma_order_transitive(x, y, z);
            assert(comparable_rows(a, b, rest)) by {
                assert forall|i: int| 0 <= i < rest.len() implies value::order(
                    a[(#[trigger] rest[i]).index],
                    b[rest[i].index],
                ) is Some by {
                    assert(rest[i] == keys[i + 1]);
                }
            }
            assert(comparable_rows(b, c, rest)) by {
                assert forall|i: int| 0 <= i < rest.len() implies value::order(
                    b[(#[trigger] rest[i]).index],
                    c[rest[i].index],
                ) is Some by {
                    assert(rest[i] == keys[i + 1]);
                }
            }
            lemma_row_order_transitive(a, b, c, rest);
        }
    }
}

/// Rows whose values have an order have one in any order, and where some are
/// left out.
pub proof fn lemma_comparable_part(all: Seq<RowView>, part: Seq<RowView>, keys: Seq<SortKey>)
    requires
        comparable(all, keys),
        forall|i: int| 0 <= i < part.len() ==> all.contains(#[trigger] part[i]),
    ensures
        comparable(part, keys),
{
    assert forall|i: int, j: int|
        0 <= i < part.len() && 0 <= j < part.len() implies comparable_rows(
        #[trigger] part[i],
        #[trigger] part[j],
        keys,
    ) by {
        assert(all.contains(part[i]) && all.contains(part[j]));
        let a = choose|a: int| 0 <= a < all.len() && all[a] == part[i];
        let b = choose|b: int| 0 <= b < all.len() && all[b] == part[j];
        assert(comparable_rows(all[a], all[b], keys));
    }
}

/// Projecting the same rows gives the same rows.
pub proof fn lemma_project_bag(a: Seq<RowView>, b: Seq<RowView>, indexes: Seq<int>)
    requires
        bag::bag(a) == bag::bag(b),
    ensures
        bag::bag(project_rows(a, indexes)) == bag::bag(project_rows(b, indexes)),
{
    let f = |r: RowView| row::project_row(r, indexes);
    bag::lemma_images_bag(a, b, f);
    assert(bag::images(a, f) =~= project_rows(a, indexes));
    assert(bag::images(b, f) =~= project_rows(b, indexes));
}

/// Filtering the same rows leaves the same rows.
pub proof fn lemma_filter_same_bag(a: Seq<RowView>, b: Seq<RowView>, ps: Seq<CompiledView>)
    requires
        bag::bag(a) == bag::bag(b),
    ensures
        bag::bag(filter_rows(a, ps)) == bag::bag(filter_rows(b, ps)),
{
    lemma_filter_bag(a, ps);
    lemma_filter_bag(b, ps);
    bag::lemma_sum_bag(a, b, |r: RowView| filter_one(r, ps));
}

/// A row that meets the predicates is not filtered out.
proof fn lemma_filter_has(rows: Seq<RowView>, ps: Seq<CompiledView>, x: RowView)
    requires
        rows.contains(x),
        holds(x, ps),
    ensures
        filter_rows(rows, ps).contains(x),
    decreases rows.len(),
{
    let k = choose|k: int| 0 <= k < rows.len() && rows[k] == x;
    let out = filter_rows(rows, ps);
    if k == rows.len() - 1 {
        assert(out[out.len() - 1] == x);
    } else {
        let front = rows.drop_last();
        assert(front[k] == x);
        lemma_filter_has(front, ps, x);
        let part = filter_rows(front, ps);
        let j = choose|j: int| 0 <= j < part.len() && part[j] == x;
        assert(out[j] == x);
    }
}

/// Filtering rows that are among others gives rows that are among them and among
/// what filtering those gives.
pub proof fn lemma_filter_within(a: Seq<RowView>, b: Seq<RowView>, ps: Seq<CompiledView>)
    requires
        bag::within(a, b),
    ensures
        bag::within(filter_rows(a, ps), b),
        bag::within(filter_rows(a, ps), filter_rows(b, ps)),
{
    reveal(bag::within);
    lemma_filter_members(a, ps);
    assert forall|i: int| 0 <= i < filter_rows(a, ps).len() implies b.contains(
        #[trigger] filter_rows(a, ps)[i],
    ) && filter_rows(b, ps).contains(filter_rows(a, ps)[i]) by {
        let x = filter_rows(a, ps)[i];
        bag::lemma_within_has(a, b, x);
        lemma_filter_has(b, ps, x);
    }
}

/// Picking values of rows that are among others.
pub proof fn lemma_project_within(a: Seq<RowView>, b: Seq<RowView>, indexes: Seq<int>)
    requires
        bag::within(a, b),
    ensures
        bag::within(project_rows(a, indexes), project_rows(b, indexes)),
{
    reveal(bag::within);
    assert forall|i: int| 0 <= i < project_rows(a, indexes).len() implies project_rows(
        b,
        indexes,
    ).contains(#[trigger] project_rows(a, indexes)[i]) by {
        assert(b.contains(a[i]));
        let k = choose|k: int| 0 <= k < b.len() && b[k] == a[i];
        assert(project_rows(b, indexes)[k] == project_rows(a, indexes)[i]);
    }
}

/// A row that a probe row makes comes of a build row.
proof fn lemma_matches_members(
    builds: Seq<RowView>,
    probe: RowView,
    build_is_left: bool,
    ps: Seq<CompiledView>,
    x: RowView,
) -> (k: int)
    requires
        matches_of(builds, probe, build_is_left, ps).contains(x),
    ensures
        0 <= k < builds.len(),
        x == joined_row(builds[k], probe, build_is_left),
        holds(x, ps),
    decreases builds.len(),
{
    let out = matches_of(builds, probe, build_is_left, ps);
    let i = choose|i: int| 0 <= i < out.len() && out[i] == x;
    let front = matches_of(builds.drop_last(), probe, build_is_left, ps);
    if i < front.len() {
        assert(front[i] == x);
        lemma_matches_members(builds.drop_last(), probe, build_is_left, ps, x)
    } else {
        builds.len() - 1
    }
}

/// A build row makes its row.
proof fn lemma_matches_has(
    builds: Seq<RowView>,
    probe: RowView,
    build_is_left: bool,
    ps: Seq<CompiledView>,
    k: int,
)
    requires
        0 <= k < builds.len(),
        holds(joined_row(builds[k], probe, build_is_left), ps),
    ensures
        matches_of(builds, probe, build_is_left, ps).contains(
            joined_row(builds[k], probe, build_is_left),
        ),
    decreases builds.len(),
{
    let x = joined_row(builds[k], probe, build_is_left);
    let out = matches_of(builds, probe, build_is_left, ps);
    if k == builds.len() - 1 {
        assert(out[out.len() - 1] == x);
    } else {
        let front = builds.drop_last();
        assert(front[k] == builds[k]);
        lemma_matches_has(front, probe, build_is_left, ps, k);
        let part = matches_of(front, probe, build_is_left, ps);
        let j = choose|j: int| 0 <= j < part.len() && part[j] == x;
        assert(out[j] == x);
    }
}

/// What a probe row makes of build rows that are among others.
pub proof fn lemma_matches_within(
    a: Seq<RowView>,
    b: Seq<RowView>,
    probe: RowView,
    build_is_left: bool,
    ps: Seq<CompiledView>,
)
    requires
        bag::within(a, b),
    ensures
        bag::within(
            matches_of(a, probe, build_is_left, ps),
            matches_of(b, probe, build_is_left, ps),
        ),
{
    reveal(bag::within);
    let out = matches_of(a, probe, build_is_left, ps);
    assert forall|i: int| 0 <= i < out.len() implies matches_of(
        b,
        probe,
        build_is_left,
        ps,
    ).contains(#[trigger] out[i]) by {
        assert(out.contains(out[i]));
        let k = lemma_matches_members(a, probe, build_is_left, ps, out[i]);
        assert(b.contains(a[k]));
        let j = choose|j: int| 0 <= j < b.len() && b[j] == a[k];
        lemma_matches_has(b, probe, build_is_left, ps, j);
    }
}

/// What a probe row makes is among what all make.
pub proof fn lemma_probe_has(
    builds: Seq<RowView>,
    probes: Seq<RowView>,
    build_is_left: bool,
    ps: Seq<CompiledView>,
    k: int,
)
    requires
        0 <= k < probes.len(),
    ensures
        bag::within(
            matches_of(builds, probes[k], build_is_left, ps),
            probe_rows(builds, probes, build_is_left, ps),
        ),
    decreases probes.len(),
{
    reveal(bag::within);
    let part = matches_of(builds, probes[k], build_is_left, ps);
    let front = probe_rows(builds, probes.drop_last(), build_is_left, ps);
    let out = probe_rows(builds, probes, build_is_left, ps);
    if k < probes.len() - 1 {
        assert(probes.drop_last()[k] == probes[k]);
        lemma_probe_has(builds, probes.drop_last(), build_is_left, ps, k);
        bag::lemma_within_front(front, out);
        bag::lemma_within_trans(part, front, out);
    } else {
        assert forall|i: int| 0 <= i < part.len() implies out.contains(#[trigger] part[i]) by {
            assert(out[front.len() + i] == part[i]);
        }
    }
}

/// What probe rows make of build rows, where both are among others.
pub proof fn lemma_probe_within(
    builds: Seq<RowView>,
    probes: Seq<RowView>,
    more_builds: Seq<RowView>,
    more_probes: Seq<RowView>,
    build_is_left: bool,
    ps: Seq<CompiledView>,
)
    requires
        bag::within(builds, more_builds),
        bag::within(probes, more_probes),
    ensures
        bag::within(
            probe_rows(builds, probes, build_is_left, ps),
            probe_rows(more_builds, more_probes, build_is_left, ps),
        ),
    decreases probes.len(),
{
    reveal(bag::within);
    let all = probe_rows(more_builds, more_probes, build_is_left, ps);
    if probes.len() > 0 {
        let front = probe_rows(builds, probes.drop_last(), build_is_left, ps);
        let last = probes.last();
        let part = matches_of(builds, last, build_is_left, ps);
        assert(bag::within(probes.drop_last(), more_probes)) by {
            assert forall|i: int| 0 <= i < probes.len() - 1 implies more_probes.contains(
                #[trigger] probes.drop_last()[i],
            ) by {
                assert(more_probes.contains(probes[i]));
            }
        }
        lemma_probe_within(
            builds,
            probes.drop_last(),
            more_builds,
            more_probes,
            build_is_left,
            ps,
        );
        assert(more_probes.contains(probes[probes.len() - 1]));
        let k = choose|k: int| 0 <= k < more_probes.len() && more_probes[k] == last;
        lemma_matches_within(builds, more_builds, last, build_is_left, ps);
        lemma_probe_has(more_builds, more_probes, build_is_left, ps, k);
        bag::lemma_within_trans(part, matches_of(more_builds, last, build_is_left, ps), all);
        assert forall|i: int| 0 <= i < (front + part).len() implies all.contains(
            #[trigger] (front + part)[i],
        ) by {
            if i < front.len() {
                assert(all.contains(front[i]));
            } else {
                assert(all.contains(part[i - front.len()]));
            }
        }
    }
}

/// The rows of a join by probing are the same whichever side probes.
pub proof fn lemma_probe_swapped(
    builds: Seq<RowView>,
    probes: Seq<RowView>,
    build_is_left: bool,
    ps: Seq<CompiledView>,
)
    ensures
        bag::within(
            probe_rows(probes, builds, !build_is_left, ps),
            probe_rows(builds, probes, build_is_left, ps),
        ),
{
    lemma_probe_rows_bag(builds, probes, build_is_left, ps);
    lemma_probe_rows_bag(probes, builds, !build_is_left, ps);
    lemma_probe_bag(builds, probes, build_is_left, ps);
    lemma_probe_bag(probes, builds, !build_is_left, ps);
    bag::lemma_within_bag(
        probe_rows(probes, builds, !build_is_left, ps),
        probe_rows(builds, probes, build_is_left, ps),
    );
}

/// The rows of a join by probing are those of the join by pairs.
pub proof fn lemma_probe_joined(
    builds: Seq<RowView>,
    probes: Seq<RowView>,
    build_is_left: bool,
    ps: Seq<CompiledView>,
)
    ensures
        bag::within(
            probe_rows(builds, probes, build_is_left, ps),
            if build_is_left {
                filter_rows(cross_rows(builds, probes), ps)
            } else {
                filter_rows(cross_rows(probes, builds), ps)
            },
        ),
{
    lemma_probe_rows_bag(builds, probes, build_is_left, ps);
    lemma_probe_bag(builds, probes, build_is_left, ps);
    if build_is_left {
        lemma_join_bag(builds, probes, ps);
        bag::lemma_within_bag(
            probe_rows(builds, probes, build_is_left, ps),
            filter_rows(cross_rows(builds, probes), ps),
        );
    } else {
        lemma_join_bag(probes, builds, ps);
        bag::lemma_within_bag(
            probe_rows(builds, probes, build_is_left, ps),
            filter_rows(cross_rows(probes, builds), ps),
        );
    }
}

} // verus!
