//! Predicates and sort columns without those that say nothing new.

use vstd::prelude::*;

use crate::data::DataValue;
use crate::number;
use crate::query;
use crate::query::{ComparisionOperator, ComparisionValue, OperandView, Predicate, PredicateView, SortSpec, SortSpecView};
use crate::text;
use crate::text::{push_signed_decimal, push_text, same_text};

verus! {

/// The name of an operator.
pub open spec fn operator_name(operator: ComparisionOperator) -> Seq<char> {
    match operator {
        ComparisionOperator::EQ => "EQ"@,
        ComparisionOperator::NE => "NE"@,
        ComparisionOperator::GT => "GT"@,
        ComparisionOperator::GTE => "GTE"@,
        ComparisionOperator::LT => "LT"@,
        ComparisionOperator::LTE => "LTE"@,
    }
}

/// The bits of a 32-bit float, but the same for every NaN, as they all compare
/// alike.
pub open spec fn known_bits_32(bits: u32) -> u32 {
    if number::num_32(bits) is NaN {
        0x7fc0_0000
    } else {
        bits
    }
}

/// The bits of a 64-bit float, but the same for every NaN.
pub open spec fn known_bits_64(bits: u64) -> u64 {
    if number::num_64(bits) is NaN {
        0x7ff8_0000_0000_0000
    } else {
        bits
    }
}

/// The right side of a predicate with one NaN for all of them.
pub open spec fn known_value(value: OperandView) -> OperandView {
    match value {
        OperandView::Literal(DataValue::Float32(bits)) => OperandView::Literal(
            DataValue::Float32(known_bits_32(bits)),
        ),
        OperandView::Literal(DataValue::Float64(bits)) => OperandView::Literal(
            DataValue::Float64(known_bits_64(bits)),
        ),
        _ => value,
    }
}

/// Predicates that differ at most in the bits of a NaN and in what stands for a
/// floating-point literal.
#[verifier::opaque]
pub open spec fn alike(p: PredicateView, q: PredicateView) -> bool {
    &&& p.column == q.column
    &&& p.operator == q.operator
    &&& known_value(p.value) == known_value(q.value)
}

/// Every predicate is like itself.
pub proof fn lemma_alike_self(p: PredicateView)
    ensures
        alike(p, p),
{
    reveal(alike);
}

/// Whether a predicate that is alike is there.
pub open spec fn has_alike(ps: Seq<PredicateView>, p: PredicateView) -> bool {
    exists|i: int| 0 <= i < ps.len() && alike(#[trigger] ps[i], p)
}

/// The right side of a predicate as a text, a floating-point literal by the text
/// that it comes with.
pub open spec fn value_key(p: PredicateView) -> Seq<u8> {
    match p.value {
        OperandView::Column(name) => vstd::utf8::encode_utf8("C:"@) + vstd::utf8::encode_utf8(
            name,
        ),
        OperandView::Literal(DataValue::Int32(v)) => vstd::utf8::encode_utf8("I32:"@)
            + text::signed_decimal(v as int),
        OperandView::Literal(DataValue::Int64(v)) => vstd::utf8::encode_utf8("I64:"@)
            + text::signed_decimal(v as int),
        OperandView::Literal(DataValue::Float32(_)) => vstd::utf8::encode_utf8("F32:"@)
            + vstd::utf8::encode_utf8(p.float_text),
        OperandView::Literal(DataValue::Float64(_)) => vstd::utf8::encode_utf8("F64:"@)
            + vstd::utf8::encode_utf8(p.float_text),
        OperandView::Literal(DataValue::Text(s)) => vstd::utf8::encode_utf8("S:"@)
            + vstd::utf8::encode_utf8(s),
    }
}

/// A predicate as a text: its column, its operator and its right side, with
/// bars between them.
pub open spec fn key_of(p: PredicateView) -> Seq<u8> {
    vstd::utf8::encode_utf8(p.column) + vstd::utf8::encode_utf8("|"@) + vstd::utf8::encode_utf8(
        operator_name(p.operator),
    ) + vstd::utf8::encode_utf8("|"@) + value_key(p)
}

/// Whether a predicate with the key is there.
pub open spec fn has_key(ps: Seq<PredicateView>, key: Seq<u8>) -> bool {
    exists|i: int| 0 <= i < ps.len() && key_of(#[trigger] ps[i]) == key
}

/// The predicates without those whose key came before.
pub open spec fn distinct_predicates(ps: Seq<PredicateView>) -> Seq<PredicateView>
    decreases ps.len(),
{
    if ps.len() == 0 {
        Seq::empty()
    } else {
        let front = distinct_predicates(ps.drop_last());
        if has_key(front, key_of(ps.last())) {
            front
        } else {
            front.push(ps.last())
        }
    }
}

/// Whether a sort column is there.
pub open spec fn has_sort_column(specs: Seq<SortSpecView>, name: Seq<char>) -> bool {
    exists|i: int| 0 <= i < specs.len() && (#[trigger] specs[i]).column == name
}

/// The sort columns without those that came before.
pub open spec fn distinct_sort_columns(specs: Seq<SortSpecView>) -> Seq<SortSpecView>
    decreases specs.len(),
{
    if specs.len() == 0 {
        Seq::empty()
    } else {
        let front = distinct_sort_columns(specs.drop_last());
        if has_sort_column(front, specs.last().column) {
            front
        } else {
            front.push(specs.last())
        }
    }
}

/// A predicate as a text.
pub fn predicate_key(p: &Predicate) -> (r: Vec<u8>)
    ensures
        r@ == key_of(p@),
{
    let mut key: Vec<u8> = Vec::new();
    push_text(&mut key, p.column_name.as_str());
    push_text(&mut key, "|");
    let name = match p.operator {
        ComparisionOperator::EQ => "EQ",
        ComparisionOperator::NE => "NE",
        ComparisionOperator::GT => "GT",
        ComparisionOperator::GTE => "GTE",
        ComparisionOperator::LT => "LT",
        ComparisionOperator::LTE => "LTE",
    };
    push_text(&mut key, name);
    push_text(&mut key, "|");
    let ghost front = key@;
    match &p.value {
        ComparisionValue::Column(n) => {
            push_text(&mut key, "C:");
            push_text(&mut key, n.as_str());
        },
        ComparisionValue::I32(v) => {
            push_text(&mut key, "I32:");
            push_signed_decimal(&mut key, *v as i64);
        },
        ComparisionValue::I64(v) => {
            push_text(&mut key, "I64:");
            push_signed_decimal(&mut key, *v);
        },
        ComparisionValue::F32(_, written) => {
            push_text(&mut key, "F32:");
            push_text(&mut key, written.as_str());
        },
        ComparisionValue::F64(_, written) => {
            push_text(&mut key, "F64:");
            push_text(&mut key, written.as_str());
        },
        ComparisionValue::String(v) => {
            push_text(&mut key, "S:");
            push_text(&mut key, v.as_str());
        },
    }
    proof {
        assert(front =~= vstd::utf8::encode_utf8(p@.column) + vstd::utf8::encode_utf8("|"@)
            + vstd::utf8::encode_utf8(operator_name(p@.operator)) + vstd::utf8::encode_utf8("|"@));
        assert(key@ =~= front + value_key(p@));
    }
    key
}

/// Whether two keys are the same.
fn same_bytes(a: &Vec<u8>, b: &Vec<u8>) -> (r: bool)
    ensures
        r == (a@ == b@),
{
    if a.len() != b.len() {
        return false;
    }
    let mut i: usize = 0;
    while i < a.len()
        invariant
            i <= a@.len(),
            a@.len() == b@.len(),
            forall|k: int| 0 <= k < i ==> #[trigger] a@[k] == b@[k],
        decreases a@.len() - i,
    {
        if a[i] != b[i] {
            return false;
        }
        i = i + 1;
    }
    assert(a@ =~= b@);
    true
}

/// The predicates without those whose key came before.
pub fn dedup_predicates(predicates: &Vec<Predicate>) -> (r: Vec<Predicate>)
    ensures
        query::predicate_views(r@) == distinct_predicates(query::predicate_views(predicates@)),
{
    let ghost all = query::predicate_views(predicates@);
    let mut seen: Vec<Vec<u8>> = Vec::new();
    let mut out: Vec<Predicate> = Vec::new();
    let mut i: usize = 0;
    proof {
        assert(all.take(0) =~= Seq::<PredicateView>::empty());
        assert(query::predicate_views(out@) =~= Seq::<PredicateView>::empty());
    }
    while i < predicates.len()
        invariant
            i <= predicates@.len(),
            all == query::predicate_views(predicates@),
            query::predicate_views(out@) == distinct_predicates(all.take(i as int)),
            seen@.len() == out@.len(),
            forall|k: int| 0 <= k < seen@.len() ==> (#[trigger] seen@[k])@ == key_of(out@[k]@),
        decreases predicates@.len() - i,
    {
        let ghost before = query::predicate_views(out@);
        proof {
            assert(all.take(i + 1).drop_last() =~= all.take(i as int));
            assert(all.take(i + 1).last() == predicates@[i as int]@);
        }
        let key = predicate_key(&predicates[i]);
        let mut j: usize = 0;
        let mut found: bool = false;
        while j < seen.len()
            invariant
                j <= seen@.len(),
                seen@.len() == out@.len(),
                before == query::predicate_views(out@),
                forall|k: int| 0 <= k < seen@.len() ==> (#[trigger] seen@[k])@ == key_of(out@[k]@),
                found == exists|k: int| 0 <= k < j && (#[trigger] seen@[k])@ == key@,
            decreases seen@.len() - j,
        {
            if same_bytes(&seen[j], &key) {
                assert(seen@[j as int]@ == key@);
                found = true;
            }
            j = j + 1;
        }
        proof {
            if found {
                let k = choose|k: int| 0 <= k < j && (#[trigger] seen@[k])@ == key@;
                assert(key_of(before[k]) == key@);
            } else if has_key(before, key@) {
                let k = choose|k: int| 0 <= k < before.len() && key_of(#[trigger] before[k])
                    == key@;
                assert(seen@[k]@ == key@);
            }
        }
        if !found {
            let copy = predicates[i].clone();
            out.push(copy);
            seen.push(key);
            assert(query::predicate_views(out@) =~= before.push(copy@));
        }
        i = i + 1;
    }
    assert(all.take(i as int) =~= all);
    out
}

/// The sort columns without those that came before.
pub fn dedup_sort_specs(specs: &Vec<SortSpec>) -> (r: Vec<SortSpec>)
    ensures
        query::sort_views(r@) == distinct_sort_columns(query::sort_views(specs@)),
{
    let ghost all = query::sort_views(specs@);
    let mut out: Vec<SortSpec> = Vec::new();
    let mut i: usize = 0;
    proof {
        assert(all.take(0) =~= Seq::<SortSpecView>::empty());
        assert(query::sort_views(out@) =~= Seq::<SortSpecView>::empty());
    }
    while i < specs.len()
        invariant
            i <= specs@.len(),
            all == query::sort_views(specs@),
            query::sort_views(out@) == distinct_sort_columns(all.take(i as int)),
        decreases specs@.len() - i,
    {
        let ghost before = query::sort_views(out@);
        proof {
            assert(all.take(i + 1).drop_last() =~= all.take(i as int));
            assert(all.take(i + 1).last() == specs@[i as int]@);
        }
        let mut j: usize = 0;
        let mut found: bool = false;
        while j < out.len()
            invariant
                j <= out@.len(),
                i < specs@.len(),
                before == query::sort_views(out@),
                found == exists|k: int|
                    0 <= k < j && (#[trigger] before[k]).column == specs@[i as int].column_name@,
            decreases out@.len() - j,
        {
            assert(before[j as int] == out@[j as int]@);
            if same_text(out[j].column_name.as_str(), specs[i].column_name.as_str()) {
                found = true;
            }
            j = j + 1;
        }
        if !found {
            let copy = specs[i].clone();
            out.push(copy);
            assert(query::sort_views(out@) =~= before.push(copy@));
        }
        i = i + 1;
    }
    assert(all.take(i as int) =~= all);
    out
}

} // verus!
