//! What is told of predicates by the names of their columns.

use vstd::prelude::*;

use crate::catalog::table::ColumnView;
use crate::data::DataValue;
use crate::laws::answers::is_name;
use crate::laws::catalog;
use crate::laws::catalog::first_named;
use crate::laws::protocol;
use crate::optimizer::duplicates;
use crate::optimizer::scores;
use crate::query::{ComparisionOperator, OperandView, PredicateView};
use crate::query_support;
use crate::query_support::PredicateSide;
use crate::text;

verus! {

/// The name is that of a column of the first columns, and of none of the others.
pub open spec fn only_in(columns: Seq<ColumnView>, others: Seq<ColumnView>, name: Seq<char>) -> bool {
    is_name(columns, name) && !is_name(others, name)
}

/// All columns of a predicate are ones of the first columns alone.
pub open spec fn belongs_to(
    p: PredicateView,
    columns: Seq<ColumnView>,
    others: Seq<ColumnView>,
) -> bool {
    &&& only_in(columns, others, p.column)
    &&& p.value matches OperandView::Column(other) ==> only_in(columns, others, other)
}

proof fn lemma_is_name(columns: Seq<ColumnView>, name: Seq<char>)
    ensures
        is_name(columns, name) <==> query_support::has_column(columns, name),
{
    catalog::law_names_of_columns(columns, name, 0);
}

proof fn lemma_sides(p: PredicateView, left: Seq<ColumnView>, right: Seq<ColumnView>)
    ensures
        is_name(left, p.column) <==> query_support::has_column(left, p.column),
        is_name(right, p.column) <==> query_support::has_column(right, p.column),
        p.value matches OperandView::Column(other) ==> {
            &&& is_name(left, other) <==> query_support::has_column(left, other)
            &&& is_name(right, other) <==> query_support::has_column(right, other)
        },
{
    lemma_is_name(left, p.column);
    lemma_is_name(right, p.column);
    if let OperandView::Column(other) = p.value {
        lemma_is_name(left, other);
        lemma_is_name(right, other);
    }
}

/// A predicate is one of a side where all of its columns are of that side alone,
/// and otherwise one of both.
pub proof fn law_sides(p: PredicateView, left: Seq<ColumnView>, right: Seq<ColumnView>)
    ensures
        query_support::predicate_side(p, left, right) is Left <==> belongs_to(p, left, right),
        query_support::predicate_side(p, left, right) is Right <==> belongs_to(p, right, left),
        query_support::predicate_side(p, left, right) is Cross <==> !belongs_to(p, left, right)
            && !belongs_to(p, right, left),
{
    lemma_sides(p, left, right);
}

/// Predicates are parted by their sides, each in its order, and none is lost.
pub proof fn law_split(ps: Seq<PredicateView>, left: Seq<ColumnView>, right: Seq<ColumnView>)
    ensures
        query_support::side_predicates(ps, left, right, PredicateSide::Left) == ps.filter(
            |p: PredicateView| belongs_to(p, left, right),
        ),
        query_support::side_predicates(ps, left, right, PredicateSide::Right) == ps.filter(
            |p: PredicateView| belongs_to(p, right, left),
        ),
        query_support::side_predicates(ps, left, right, PredicateSide::Cross) == ps.filter(
            |p: PredicateView| !belongs_to(p, left, right) && !belongs_to(p, right, left),
        ),
    decreases ps.len(),
{
    reveal(Seq::filter);
    if ps.len() > 0 {
        law_split(ps.drop_last(), left, right);
        law_sides(ps.last(), left, right);
    }
}

/// A predicate gives a key of a join where it sets a column of one side equal to
/// one of the other: the places of the two columns, that of the left side first.
pub proof fn law_key_of_a_join(
    p: PredicateView,
    left: Seq<ColumnView>,
    right: Seq<ColumnView>,
    i: int,
    j: int,
)
    ensures
        query_support::key_pair(p, left, right) == Some((i, j)) <==> {
            &&& p.operator is EQ
            &&& p.value matches OperandView::Column(other) && {
                ||| only_in(left, right, p.column) && only_in(right, left, other) && first_named(
                    left,
                    p.column,
                    i,
                ) && first_named(right, other, j)
                ||| only_in(right, left, p.column) && only_in(left, right, other) && first_named(
                    left,
                    other,
                    i,
                ) && first_named(right, p.column, j)
            }
        },
{
    lemma_sides(p, left, right);
    catalog::law_names_of_columns(left, p.column, i);
    catalog::law_names_of_columns(right, p.column, j);
    if let OperandView::Column(other) = p.value {
        catalog::law_names_of_columns(left, other, i);
        catalog::law_names_of_columns(right, other, j);
    }
}

/// The keys of a join are those of its predicates, in their order.
pub proof fn law_keys_of_a_join(
    ps: Seq<PredicateView>,
    more: Seq<PredicateView>,
    p: PredicateView,
    left: Seq<ColumnView>,
    right: Seq<ColumnView>,
)
    ensures
        query_support::key_pairs(Seq::empty(), left, right) == Seq::<(int, int)>::empty(),
        query_support::key_pair(p, left, right) matches Some(key) ==> query_support::key_pairs(
            seq![p],
            left,
            right,
        ) == seq![key],
        query_support::key_pair(p, left, right) is None ==> query_support::key_pairs(
            seq![p],
            left,
            right,
        ) == Seq::<(int, int)>::empty(),
        query_support::key_pairs(ps + more, left, right) == query_support::key_pairs(
            ps,
            left,
            right,
        ) + query_support::key_pairs(more, left, right),
    decreases more.len(),
{
    assert(seq![p].drop_last() =~= Seq::<PredicateView>::empty());
    assert(query_support::key_pairs(seq![p].drop_last(), left, right) =~= Seq::<
        (int, int),
    >::empty());
    if let Some(key) = query_support::key_pair(p, left, right) {
        assert(Seq::<(int, int)>::empty().push(key) =~= seq![key]);
    }
    if more.len() == 0 {
        assert(ps + more =~= ps);
        let keys = query_support::key_pairs(ps, left, right);
        assert(keys + Seq::<(int, int)>::empty() =~= keys);
    } else {
        law_keys_of_a_join(ps, more.drop_last(), p, left, right);
        assert((ps + more).drop_last() =~= ps + more.drop_last());
        assert((ps + more).last() == more.last());
        let a = query_support::key_pairs(ps, left, right);
        let b = query_support::key_pairs(more.drop_last(), left, right);
        if let Some(key) = query_support::key_pair(more.last(), left, right) {
            assert((a + b).push(key) =~= a + b.push(key));
        }
    }
}

/// A predicate connects two inputs where it compares a column of one alone with
/// one of the other alone.
pub open spec fn links(p: PredicateView, left: Seq<ColumnView>, right: Seq<ColumnView>) -> bool {
    p.value matches OperandView::Column(other) && {
        ||| only_in(left, right, p.column) && only_in(right, left, other)
        ||| only_in(right, left, p.column) && only_in(left, right, other)
    }
}

/// The columns that a predicate names are all there.
pub open spec fn speaks_of(p: PredicateView, columns: Seq<ColumnView>) -> bool {
    &&& is_name(columns, p.column)
    &&& p.value matches OperandView::Column(other) ==> is_name(columns, other)
}

/// The predicates that connect two inputs, and those on one alone, are picked in
/// their order.
pub proof fn law_picked_predicates(
    ps: Seq<PredicateView>,
    left: Seq<ColumnView>,
    right: Seq<ColumnView>,
)
    ensures
        scores::connecting(ps, left, right) == ps.filter(|p: PredicateView| links(p, left, right)),
        scores::local_predicates(ps, left) == ps.filter(|p: PredicateView| speaks_of(p, left)),
    decreases ps.len(),
{
    reveal(Seq::filter);
    if ps.len() > 0 {
        law_picked_predicates(ps.drop_last(), left, right);
        lemma_sides(ps.last(), left, right);
    }
}

/// The columns that a predicate compares, the left one first.
pub proof fn law_columns_of_a_predicate(p: PredicateView)
    ensures
        query_support::predicate_names(p)[0] == p.column,
        p.value matches OperandView::Column(other) ==> query_support::predicate_names(p)
            == seq![p.column, other],
        p.value is Literal ==> query_support::predicate_names(p) == seq![p.column],
{
}

/// The bytes of the name of an operator.
pub open spec fn name_bytes(operator: ComparisionOperator) -> Seq<u8> {
    match operator {
        ComparisionOperator::EQ => seq![69u8, 81u8],
        ComparisionOperator::NE => seq![78u8, 69u8],
        ComparisionOperator::GT => seq![71u8, 84u8],
        ComparisionOperator::GTE => seq![71u8, 84u8, 69u8],
        ComparisionOperator::LT => seq![76u8, 84u8],
        ComparisionOperator::LTE => seq![76u8, 84u8, 69u8],
    }
}

/// The bytes before the right side of a predicate, which tell what it is.
pub open spec fn tag_bytes(value: OperandView) -> Seq<u8> {
    match value {
        OperandView::Column(_) => seq![67u8, 58u8],
        OperandView::Literal(DataValue::Int32(_)) => seq![73u8, 51u8, 50u8, 58u8],
        OperandView::Literal(DataValue::Int64(_)) => seq![73u8, 54u8, 52u8, 58u8],
        OperandView::Literal(DataValue::Float32(_)) => seq![70u8, 51u8, 50u8, 58u8],
        OperandView::Literal(DataValue::Float64(_)) => seq![70u8, 54u8, 52u8, 58u8],
        OperandView::Literal(DataValue::Text(_)) => seq![83u8, 58u8],
    }
}

/// The bytes of the right side itself: an integer in decimal, and anything else as
/// its text.
pub open spec fn side_bytes(p: PredicateView) -> Seq<u8> {
    match p.value {
        OperandView::Column(name) => vstd::utf8::encode_utf8(name),
        OperandView::Literal(DataValue::Int32(v)) => text::signed_decimal(v as int),
        OperandView::Literal(DataValue::Int64(v)) => text::signed_decimal(v as int),
        OperandView::Literal(DataValue::Text(s)) => vstd::utf8::encode_utf8(s),
        _ => vstd::utf8::encode_utf8(p.float_text),
    }
}

proof fn lemma_ascii(s: Seq<char>, bytes: Seq<u8>)
    requires
        s.len() == bytes.len(),
        forall|i: int|
            0 <= i < s.len() ==> '\0' <= #[trigger] s[i] <= '\u{7f}' && s[i] as u8 == bytes[i],
    ensures
        vstd::utf8::encode_utf8(s) == bytes,
{
    vstd::utf8::is_ascii_chars_encode_utf8(s);
    assert forall|i: int| 0 <= i < s.len() implies vstd::utf8::encode_utf8(s)[i] == bytes[i] by {
        assert(s[i] as u8 == vstd::utf8::encode_utf8(s)[i]);
    }
    assert(vstd::utf8::encode_utf8(s) =~= bytes);
}

proof fn lemma_words()
    ensures
        vstd::utf8::encode_utf8("EQ"@) == seq![69u8, 81u8],
        vstd::utf8::encode_utf8("NE"@) == seq![78u8, 69u8],
        vstd::utf8::encode_utf8("GT"@) == seq![71u8, 84u8],
        vstd::utf8::encode_utf8("GTE"@) == seq![71u8, 84u8, 69u8],
        vstd::utf8::encode_utf8("LT"@) == seq![76u8, 84u8],
        vstd::utf8::encode_utf8("LTE"@) == seq![76u8, 84u8, 69u8],
        vstd::utf8::encode_utf8("|"@) == seq![124u8],
        vstd::utf8::encode_utf8("C:"@) == seq![67u8, 58u8],
        vstd::utf8::encode_utf8("S:"@) == seq![83u8, 58u8],
        vstd::utf8::encode_utf8("I32:"@) == seq![73u8, 51u8, 50u8, 58u8],
        vstd::utf8::encode_utf8("I64:"@) == seq![73u8, 54u8, 52u8, 58u8],
        vstd::utf8::encode_utf8("F32:"@) == seq![70u8, 51u8, 50u8, 58u8],
        vstd::utf8::encode_utf8("F64:"@) == seq![70u8, 54u8, 52u8, 58u8],
{
    reveal_strlit("EQ");
    reveal_strlit("NE");
    reveal_strlit("GT");
    reveal_strlit("GTE");
    reveal_strlit("LT");
    reveal_strlit("LTE");
    reveal_strlit("|");
    reveal_strlit("C:");
    reveal_strlit("S:");
    reveal_strlit("I32:");
    reveal_strlit("I64:");
    reveal_strlit("F32:");
    reveal_strlit("F64:");
    lemma_ascii("EQ"@, seq![69u8, 81u8]);
    lemma_ascii("NE"@, seq![78u8, 69u8]);
    lemma_ascii("GT"@, seq![71u8, 84u8]);
    lemma_ascii("GTE"@, seq![71u8, 84u8, 69u8]);
    lemma_ascii("LT"@, seq![76u8, 84u8]);
    lemma_ascii("LTE"@, seq![76u8, 84u8, 69u8]);
    lemma_ascii("|"@, seq![124u8]);
    lemma_ascii("C:"@, seq![67u8, 58u8]);
    lemma_ascii("S:"@, seq![83u8, 58u8]);
    lemma_ascii("I32:"@, seq![73u8, 51u8, 50u8, 58u8]);
    lemma_ascii("I64:"@, seq![73u8, 54u8, 52u8, 58u8]);
    lemma_ascii("F32:"@, seq![70u8, 51u8, 50u8, 58u8]);
    lemma_ascii("F64:"@, seq![70u8, 54u8, 52u8, 58u8]);
}

/// The key of a predicate is the name of its column, that of its operator, what
/// its right side is, and the right side, with bars between the three.
pub proof fn law_keys_of_predicates(p: PredicateView)
    ensures
        duplicates::key_of(p) == vstd::utf8::encode_utf8(p.column) + seq![124u8] + name_bytes(
            p.operator,
        ) + seq![124u8] + tag_bytes(p.value) + side_bytes(p),
{
    lemma_words();
    let value = duplicates::value_key(p);
    assert(value =~= tag_bytes(p.value) + side_bytes(p));
    assert(duplicates::key_of(p) =~= vstd::utf8::encode_utf8(p.column) + seq![124u8] + name_bytes(
        p.operator,
    ) + seq![124u8] + tag_bytes(p.value) + side_bytes(p));
}

proof fn lemma_same_rest(start: Seq<u8>, x: Seq<u8>, y: Seq<u8>)
    requires
        start + x == start + y,
    ensures
        x == y,
{
    assert((start + x).skip(start.len() as int) =~= x);
    assert((start + y).skip(start.len() as int) =~= y);
}

proof fn lemma_same_operator(
    a: ComparisionOperator,
    b: ComparisionOperator,
    v: Seq<u8>,
    w: Seq<u8>,
)
    requires
        name_bytes(a) + seq![124u8] + v == name_bytes(b) + seq![124u8] + w,
    ensures
        a == b,
{
    let (x, y) = (name_bytes(a) + seq![124u8] + v, name_bytes(b) + seq![124u8] + w);
    assert(x[0] == name_bytes(a)[0] && y[0] == name_bytes(b)[0]);
    assert(x[2] == (name_bytes(a) + seq![124u8])[2]);
    assert(y[2] == (name_bytes(b) + seq![124u8])[2]);
}

proof fn lemma_same_tag(a: OperandView, b: OperandView, v: Seq<u8>, w: Seq<u8>)
    requires
        tag_bytes(a) + v == tag_bytes(b) + w,
    ensures
        tag_bytes(a) == tag_bytes(b),
        a is Column <==> b is Column,
        a matches OperandView::Literal(x) ==> (b matches OperandView::Literal(y) && x.data_type()
            == y.data_type()),
{
    let (x, y) = (tag_bytes(a) + v, tag_bytes(b) + w);
    assert(x[0] == tag_bytes(a)[0] && y[0] == tag_bytes(b)[0]);
    assert(x[1] == tag_bytes(a)[1] && y[1] == tag_bytes(b)[1]);
}

/// Of predicates on one column, those with one key have the same operator, and
/// right sides that are the same: floating-point ones by their texts.
pub proof fn law_keys_tell_apart(p: PredicateView, q: PredicateView)
    requires
        p.column == q.column,
        duplicates::key_of(p) == duplicates::key_of(q),
    ensures
        p.operator == q.operator,
        p.value matches OperandView::Literal(DataValue::Float32(_)) ==> (q.value
            matches OperandView::Literal(DataValue::Float32(_)) && p.float_text == q.float_text),
        p.value matches OperandView::Literal(DataValue::Float64(_)) ==> (q.value
            matches OperandView::Literal(DataValue::Float64(_)) && p.float_text == q.float_text),
        p.value == q.value || (p.value matches OperandView::Literal(DataValue::Float32(_))) || (
        p.value matches OperandView::Literal(DataValue::Float64(_))),
{
    law_keys_of_predicates(p);
    law_keys_of_predicates(q);
    let c = vstd::utf8::encode_utf8(p.column) + seq![124u8];
    let (v, w) = (tag_bytes(p.value) + side_bytes(p), tag_bytes(q.value) + side_bytes(q));
    let (x, y) = (
        name_bytes(p.operator) + seq![124u8] + v,
        name_bytes(q.operator) + seq![124u8] + w,
    );
    assert(duplicates::key_of(p) =~= c + x);
    assert(duplicates::key_of(q) =~= c + y);
    lemma_same_rest(c, x, y);
    lemma_same_operator(p.operator, q.operator, v, w);
    lemma_same_rest(name_bytes(p.operator) + seq![124u8], v, w);
    lemma_same_tag(p.value, q.value, side_bytes(p), side_bytes(q));
    lemma_same_rest(tag_bytes(p.value), side_bytes(p), side_bytes(q));
    match (p.value, q.value) {
        (OperandView::Column(a), OperandView::Column(b)) => {
            vstd::utf8::encode_utf8_decode_utf8(a);
            vstd::utf8::encode_utf8_decode_utf8(b);
        },
        (OperandView::Literal(DataValue::Text(a)), OperandView::Literal(DataValue::Text(b))) => {
            vstd::utf8::encode_utf8_decode_utf8(a);
            vstd::utf8::encode_utf8_decode_utf8(b);
        },
        (OperandView::Literal(DataValue::Int32(a)), OperandView::Literal(DataValue::Int32(b))) => {
            protocol::law_numbers_are_written(a as int);
            protocol::law_numbers_are_written(b as int);
            protocol::law_one_number(side_bytes(p), a as int, b as int);
        },
        (OperandView::Literal(DataValue::Int64(a)), OperandView::Literal(DataValue::Int64(b))) => {
            protocol::law_numbers_are_written(a as int);
            protocol::law_numbers_are_written(b as int);
            protocol::law_one_number(side_bytes(p), a as int, b as int);
        },
        _ => {
            vstd::utf8::encode_utf8_decode_utf8(p.float_text);
            vstd::utf8::encode_utf8_decode_utf8(q.float_text);
        },
    }
}

/// Of predicates, those stay whose key came not before: every one is there under
/// its key, and nothing else is.
pub proof fn law_predicates_once(ps: Seq<PredicateView>, i: int)
    ensures
        ({
            let kept = duplicates::distinct_predicates(ps);
            &&& forall|x: int, y: int|
                0 <= x < y < kept.len() ==> duplicates::key_of(#[trigger] kept[x])
                    != duplicates::key_of(#[trigger] kept[y])
            &&& forall|x: int| 0 <= x < kept.len() ==> ps.contains(#[trigger] kept[x])
            &&& 0 <= i < ps.len() ==> exists|x: int|
                0 <= x < kept.len() && duplicates::key_of(#[trigger] kept[x]) == duplicates::key_of(
                    ps[i],
                )
            &&& ps.len() > 0 ==> kept.len() > 0 && kept[0] == ps[0]
        }),
    decreases ps.len(),
{
    if ps.len() > 0 {
        let front = ps.drop_last();
        let before = duplicates::distinct_predicates(front);
        let kept = duplicates::distinct_predicates(ps);
        law_predicates_once(front, i);
        let last = ps.len() - 1;
        assert forall|x: int| 0 <= x < kept.len() implies ps.contains(#[trigger] kept[x]) by {
            if x < before.len() {
                assert(front.contains(before[x]));
                let k = choose|k: int| 0 <= k < front.len() && front[k] == before[x];
                assert(ps[k] == kept[x]);
            } else {
                assert(ps[last as int] == kept[x]);
            }
        }
        let key = duplicates::key_of(ps.last());
        if duplicates::has_key(before, key) {
            let x = choose|x: int|
                0 <= x < before.len() && duplicates::key_of(#[trigger] before[x]) == key;
            assert(duplicates::key_of(kept[x]) == key);
        } else {
            assert(duplicates::key_of(kept[before.len() as int]) == key);
            assert forall|x: int, y: int| 0 <= x < y < kept.len() implies duplicates::key_of(
                #[trigger] kept[x],
            ) != duplicates::key_of(#[trigger] kept[y]) by {
                if y == before.len() {
                    assert(before[x] == kept[x]);
                } else {
                    assert(before[x] == kept[x] && before[y] == kept[y]);
                }
            }
        }
        if 0 <= i < front.len() {
            let x = choose|x: int|
                0 <= x < before.len() && duplicates::key_of(#[trigger] before[x])
                    == duplicates::key_of(front[i]);
            assert(kept[x] == before[x]);
            assert(duplicates::key_of(kept[x]) == duplicates::key_of(ps[i]));
        }
    }
}

} // verus!
