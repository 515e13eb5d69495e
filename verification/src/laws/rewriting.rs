//! Queries answer alike before and after they are rewritten.

use vstd::prelude::*;

use crate::catalog::table::{ColumnView, TableSpec};
use crate::data::DataValue;
use crate::error::DbError;
use crate::executor::rewrite;
use crate::laws::answers;
use crate::laws::catalog;
use crate::laws::catalog::first_named;
use crate::laws::plans;
use crate::laws::predicates;
use crate::optimizer::duplicates;
use crate::optimizer::equivalence;
use crate::optimizer::laws;
use crate::optimizer::reading;
use crate::optimizer::rules;
use crate::query::{OpView, OperandView, PredicateView};
use crate::query_support;
use crate::row;
use crate::semantics;
use crate::semantics::{Database, RowView};

verus! {

/// A name without a bar.
pub open spec fn barless(name: Seq<char>) -> bool {
    forall|i: int| 0 <= i < name.len() ==> #[trigger] name[i] != '|'
}

proof fn lemma_barless(s: Seq<char>)
    requires
        barless(s),
    ensures
        forall|i: int|
            0 <= i < vstd::utf8::encode_utf8(s).len() ==> #[trigger] vstd::utf8::encode_utf8(s)[i]
                != 124,
    decreases s.len(),
{
    if s.len() > 0 {
        let c = s[0] as u32;
        let head = vstd::utf8::encode_scalar(c);
        let rest = s.drop_first();
        assert forall|i: int| 0 <= i < rest.len() implies #[trigger] rest[i] != '|' by {
            assert(rest[i] == s[i + 1]);
        }
        lemma_barless(rest);
        vstd::utf8::char_is_scalar(s[0]);
        assert(s[0] != '|');
        assert(c != 124) by {
            vstd::utf8::char_u32_cast(s[0], c);
            vstd::utf8::char_u32_cast('|', 124u32);
        }
        assert(c <= 0x7f ==> ((c & 0x7f) as u8) as u32 == c) by (bit_vector);
        let x2 = ((c >> 6) & 0x1F) as u8;
        let x3 = ((c >> 12) & 0x0F) as u8;
        let x4 = ((c >> 18) & 0x7) as u8;
        let y1 = (c & 0x3F) as u8;
        let y2 = ((c >> 6) & 0x3F) as u8;
        let y3 = ((c >> 12) & 0x3F) as u8;
        assert((0xC0u8 | x2) >= 128 && (0xE0u8 | x3) >= 128 && (0xF0u8 | x4) >= 128 && (0x80u8
            | y1) >= 128 && (0x80u8 | y2) >= 128 && (0x80u8 | y3) >= 128) by (bit_vector);
        assert forall|i: int| 0 <= i < head.len() implies #[trigger] head[i] != 124 by {}
        let e = vstd::utf8::encode_utf8(s);
        let tail = vstd::utf8::encode_utf8(rest);
        assert(e == head + tail);
        assert forall|i: int| 0 <= i < e.len() implies #[trigger] e[i] != 124 by {
            if i < head.len() {
                assert(e[i] == head[i]);
            } else {
                assert(e[i] == tail[i - head.len()]);
            }
        }
    }
}

/// A predicate on a name without a bar, which is not compared with a floating-point
/// literal.
pub open spec fn plain(p: PredicateView) -> bool {
    &&& barless(p.column)
    &&& p.value matches OperandView::Column(other) ==> barless(other)
    &&& !(p.value matches OperandView::Literal(DataValue::Float32(_)))
    &&& !(p.value matches OperandView::Literal(DataValue::Float64(_)))
}

/// All such predicates.
pub open spec fn plain_predicates() -> Set<PredicateView> {
    Set::new(|p: PredicateView| plain(p))
}

proof fn lemma_same_start(a: Seq<u8>, x: Seq<u8>, b: Seq<u8>, y: Seq<u8>)
    requires
        a + seq![124u8] + x == b + seq![124u8] + y,
        forall|i: int| 0 <= i < a.len() ==> #[trigger] a[i] != 124,
        forall|i: int| 0 <= i < b.len() ==> #[trigger] b[i] != 124,
    ensures
        a == b,
{
    let (s, t) = (a + seq![124u8] + x, b + seq![124u8] + y);
    if a.len() < b.len() {
        assert(s[a.len() as int] == 124);
        assert(t[a.len() as int] == b[a.len() as int]);
    }
    if b.len() < a.len() {
        assert(t[b.len() as int] == 124);
        assert(s[b.len() as int] == a[b.len() as int]);
    }
    assert forall|i: int| 0 <= i < a.len() implies a[i] == b[i] by {
        assert(s[i] == a[i] && t[i] == b[i]);
    }
    assert(a =~= b);
}

/// Plain predicates with one key are the same, but for what no comparison looks at.
pub proof fn law_plain_predicates(p: PredicateView, q: PredicateView)
    requires
        plain(p),
        plain(q),
        duplicates::key_of(p) == duplicates::key_of(q),
    ensures
        p.column == q.column,
        p.operator == q.operator,
        p.value == q.value,
{
    predicates::law_keys_of_predicates(p);
    predicates::law_keys_of_predicates(q);
    let (a, b) = (vstd::utf8::encode_utf8(p.column), vstd::utf8::encode_utf8(q.column));
    lemma_barless(p.column);
    lemma_barless(q.column);
    let x = predicates::name_bytes(p.operator) + seq![124u8] + predicates::tag_bytes(p.value)
        + predicates::side_bytes(p);
    let y = predicates::name_bytes(q.operator) + seq![124u8] + predicates::tag_bytes(q.value)
        + predicates::side_bytes(q);
    assert(duplicates::key_of(p) =~= a + seq![124u8] + x);
    assert(duplicates::key_of(q) =~= b + seq![124u8] + y);
    lemma_same_start(a, x, b, y);
    vstd::utf8::encode_utf8_decode_utf8(p.column);
    vstd::utf8::encode_utf8_decode_utf8(q.column);
    predicates::law_keys_tell_apart(p, q);
}

/// A query in which each operator has columns with different names, whose predicates
/// are plain, and whose projections pick columns with names that have no bar.
pub open spec fn ordinary(op: OpView, tables: Seq<TableSpec>) -> bool
    decreases op,
{
    &&& forall|i: int, j: int|
        #![trigger (query_support::schema_of(op, tables)->Ok_0)[i],
            (query_support::schema_of(op, tables)->Ok_0)[j]]
        0 <= i < j < (query_support::schema_of(op, tables)->Ok_0).len() ==> (
        query_support::schema_of(op, tables)->Ok_0)[i].name != (query_support::schema_of(
            op,
            tables,
        )->Ok_0)[j].name
    &&& match op {
        OpView::Scan(_) => true,
        OpView::Filter(ps, u) => ordinary(*u, tables) && forall|i: int|
            0 <= i < ps.len() ==> plain(#[trigger] ps[i]),
        OpView::Project(map, u) => ordinary(*u, tables) && forall|i: int|
            0 <= i < map.len() ==> barless((#[trigger] map[i]).0),
        OpView::Cross(l, r) => ordinary(*l, tables) && ordinary(*r, tables),
        OpView::Sort(_, u) => ordinary(*u, tables),
    }
}

proof fn lemma_told_apart(op: OpView, tables: Seq<TableSpec>)
    requires
        ordinary(op, tables),
    ensures
        equivalence::told_apart(op, tables, plain_predicates()),
    decreases op,
{
    let g = plain_predicates();
    let columns = query_support::schema_of(op, tables)->Ok_0;
    assert forall|i: int, j: int| 0 <= i < j < columns.len() implies (
    #[trigger] columns[i]).name != (#[trigger] columns[j]).name by {
        assert((query_support::schema_of(op, tables)->Ok_0)[i].name != (query_support::schema_of(
            op,
            tables,
        )->Ok_0)[j].name);
    }
    assert(equivalence::distinct_names(equivalence::cols(op, tables)));
    match op {
        OpView::Scan(_) => {},
        OpView::Filter(ps, u) => {
            lemma_told_apart(*u, tables);
            assert forall|i: int| 0 <= i < ps.len() implies g.contains(#[trigger] ps[i]) by {
                assert(plain(ps[i]));
            }
        },
        OpView::Project(map, u) => {
            lemma_told_apart(*u, tables);
            reveal(equivalence::moves_within);
            assert forall|p: PredicateView|
                g.contains(p) && #[trigger] rewrite::remapped_predicate(
                    p,
                    map,
                ) is Some implies g.contains(rewrite::remapped_predicate(p, map)->0) by {
                lemma_source_barless(map, p.column);
                if let OperandView::Column(other) = p.value {
                    lemma_source_barless(map, other);
                }
            }
        },
        OpView::Cross(l, r) => {
            lemma_told_apart(*l, tables);
            lemma_told_apart(*r, tables);
        },
        OpView::Sort(_, u) => lemma_told_apart(*u, tables),
    }
}

proof fn lemma_source_barless(map: Seq<(Seq<char>, Seq<char>)>, name: Seq<char>)
    requires
        forall|i: int| 0 <= i < map.len() ==> barless((#[trigger] map[i]).0),
    ensures
        rewrite::source_of(map, name) matches Some(from) ==> barless(from),
    decreases map.len(),
{
    if map.len() > 0 {
        let rest = map.skip(1);
        assert forall|i: int| 0 <= i < rest.len() implies barless((#[trigger] rest[i]).0) by {
            assert(rest[i] == map[i + 1]);
        }
        lemma_source_barless(rest, name);
        assert(barless(map[0].0));
    }
}

/// Ordinary queries can be rewritten: their names mean one thing each, and their
/// predicates are told apart.
pub proof fn law_ordinary_queries(op: OpView, tables: Seq<TableSpec>)
    requires
        semantics::op_known(op, tables),
        ordinary(op, tables),
    ensures
        equivalence::clear(op, tables, plain_predicates()),
{
    let g = plain_predicates();
    lemma_told_apart(op, tables);
    reveal(equivalence::keys_tell);
    assert forall|p: PredicateView, q: PredicateView| #[trigger]
        g.contains(p) && #[trigger] g.contains(q) && duplicates::key_of(p) == duplicates::key_of(
            q,
        ) implies duplicates::alike(p, q) by {
        law_plain_predicates(p, q);
        reveal(duplicates::alike);
    }
}

/// Rows of one query with their columns in the order of those of another: under
/// each name they have the value that they had.
pub proof fn law_columns_in_their_places(
    rows: Seq<RowView>,
    from: OpView,
    to: OpView,
    tables: Seq<TableSpec>,
    i: int,
    c: int,
    k: int,
)
    requires
        0 <= i < rows.len(),
        0 <= c < (query_support::schema_of(to, tables)->Ok_0).len(),
        first_named(
            query_support::schema_of(from, tables)->Ok_0,
            (query_support::schema_of(to, tables)->Ok_0)[c].name,
            k,
        ),
    ensures
        equivalence::turned(rows, from, to, tables).len() == rows.len(),
        equivalence::turned(rows, from, to, tables)[i].len() == (query_support::schema_of(
            to,
            tables,
        )->Ok_0).len(),
        equivalence::turned(rows, from, to, tables)[i][c] == rows[i][k],
{
    catalog::law_names_of_columns(
        query_support::schema_of(from, tables)->Ok_0,
        (query_support::schema_of(to, tables)->Ok_0)[c].name,
        k,
    );
}

/// An ordinary query can be rewritten, and what the rewritten one answers is what
/// the query does: it has a column of the same type under each name, and its rows,
/// with their columns put in order, are those of the query, each as often. No two
/// tables are in one file, and every table can be relied on.
pub proof fn law_rewritten_queries_answer_alike(
    op: OpView,
    db: Database,
    depth: nat,
    out: Seq<RowView>,
    c: int,
)
    requires
        semantics::op_known(op, db.tables),
        ordinary(op, db.tables),
        forall|s: int, t: int|
            0 <= s < t < db.tables.len() ==> (#[trigger] db.tables[s]).file_id@ != (
            #[trigger] db.tables[t]).file_id@,
        forall|t: int|
            0 <= t < db.tables.len() ==> semantics::table_sound(#[trigger] db.tables[t], db.layout),
    ensures
        rules::optimized(op, db.tables, depth) matches Ok(b) && {
            let columns = query_support::schema_of(op, db.tables)->Ok_0;
            let others = query_support::schema_of(b, db.tables)->Ok_0;
            &&& semantics::op_known(b, db.tables)
            &&& columns.len() == others.len()
            &&& 0 <= c < columns.len() ==> exists|k: int|
                #[trigger] first_named(others, columns[c].name, k) && others[k].data_type
                    == columns[c].data_type
            &&& semantics::delivers(b, db, out) ==> {
                let rows = equivalence::turned(out, b, op, db.tables);
                &&& rows.to_multiset() == semantics::rows_of(op, db).to_multiset()
                &&& answers::over_a_table(op) ==> rows == semantics::rows_of(op, db)
                &&& semantics::delivers(op, db, rows)
            }
        },
{
    let g = plain_predicates();
    law_ordinary_queries(op, db.tables);
    plans::law_databases_to_rely_on(op, db);
    laws::law_optimized_answers(op, db, depth, out, g);
    let b = rules::optimized(op, db.tables, depth)->Ok_0;
    let columns = query_support::schema_of(op, db.tables)->Ok_0;
    let others = query_support::schema_of(b, db.tables)->Ok_0;
    if 0 <= c < columns.len() {
        assert(query_support::has_column(others, columns[c].name));
        let k = row::column_index(others, columns[c].name)->0;
        catalog::law_names_of_columns(others, columns[c].name, k);
        assert(first_named(others, columns[c].name, k));
    }
    if semantics::delivers(b, db, out) {
        answers::law_answers(op, db, equivalence::turned(out, b, op, db.tables));
    }
}

/// The columns of a query on one table that sorts nothing, and those of a
/// projection, stay in their order when it is rewritten.
pub proof fn law_columns_that_stay(
    op: OpView,
    db: Database,
    depth: nat,
    out: Seq<RowView>,
)
    requires
        semantics::op_known(op, db.tables),
        ordinary(op, db.tables),
        forall|s: int, t: int|
            0 <= s < t < db.tables.len() ==> (#[trigger] db.tables[s]).file_id@ != (
            #[trigger] db.tables[t]).file_id@,
        forall|t: int|
            0 <= t < db.tables.len() ==> semantics::table_sound(#[trigger] db.tables[t], db.layout),
        answers::over_a_table(op) || op is Project,
    ensures
        rules::optimized(op, db.tables, depth) matches Ok(b) && {
            &&& query_support::schema_of(b, db.tables)->Ok_0 == query_support::schema_of(
                op,
                db.tables,
            )->Ok_0
            &&& semantics::delivers(b, db, out) ==> semantics::delivers(op, db, out)
        },
{
    law_ordinary_queries(op, db.tables);
    plans::law_databases_to_rely_on(op, db);
    lemma_keeps_columns(op, db.tables);
    lemma_stays(op, db, depth, out, plain_predicates());
}

proof fn lemma_stays(
    op: OpView,
    db: Database,
    depth: nat,
    out: Seq<RowView>,
    g: Set<PredicateView>,
)
    requires
        reading::own_files(db.tables),
        semantics::sound(op, db),
        equivalence::clear(op, db.tables, g),
        laws::keeps_columns(op, db.tables),
    ensures
        rules::optimized(op, db.tables, depth) is Ok,
        query_support::schema_of(rules::optimized(op, db.tables, depth)->Ok_0, db.tables)->Ok_0
            == query_support::schema_of(op, db.tables)->Ok_0,
        semantics::delivers(rules::optimized(op, db.tables, depth)->Ok_0, db, out)
            ==> semantics::delivers(op, db, out),
{
    laws::law_optimized_answers(op, db, depth, out, g);
    let b = rules::optimized(op, db.tables, depth)->Ok_0;
    assert(equivalence::cols(b, db.tables) == equivalence::cols(op, db.tables));
}

proof fn lemma_keeps_columns(op: OpView, tables: Seq<TableSpec>)
    requires
        answers::over_a_table(op) || op is Project,
    ensures
        laws::keeps_columns(op, tables),
{
    if answers::over_a_table(op) {
        lemma_joins_nothing(op);
    }
}

proof fn lemma_joins_nothing(op: OpView)
    requires
        answers::over_a_table(op),
    ensures
        equivalence::joins_nothing(op),
        !(op is Sort),
    decreases op,
{
    match op {
        OpView::Filter(_, u) => lemma_joins_nothing(*u),
        OpView::Project(_, u) => lemma_joins_nothing(*u),
        _ => {},
    }
}

} // verus!
