//! How memory is shared out.

use vstd::prelude::*;

use crate::data::{Data, DataType, DataValue};
use crate::estimation;
use crate::executor;
use crate::executor::compact;
use crate::executor::compact::{CompactRowRef, Room};
use crate::executor::equality_join;
use crate::executor::hash;
use crate::executor::materialize;
use crate::executor::sort;
use crate::executor::sort_runs;
use crate::laws::storage;
use crate::query::OpView;
use crate::row;
use crate::row::Row;
use crate::semantics::RowView;

verus! {

/// No more than a word holds.
pub open spec fn in_a_word(n: int) -> int {
    if n <= usize::MAX {
        n
    } else {
        usize::MAX as int
    }
}

/// The larger of two numbers is one of them, and neither is above it; the smaller
/// is one of them, and neither is below it.
pub proof fn law_larger_and_smaller(a: int, b: int)
    ensures
        executor::larger(a, b) == a || executor::larger(a, b) == b,
        executor::larger(a, b) >= a,
        executor::larger(a, b) >= b,
        executor::smaller(a, b) == a || executor::smaller(a, b) == b,
        executor::smaller(a, b) <= a,
        executor::smaller(a, b) <= b,
{
}

/// Counts of bytes are cut at what a word holds.
pub proof fn law_bytes_in_a_word(n: nat)
    ensures
        n <= usize::MAX ==> row::saturated(n) == n,
        n > usize::MAX ==> row::saturated(n) == usize::MAX,
{
}

/// A row in memory takes what it does itself, what its values do, and the bytes of
/// its texts.
pub proof fn law_memory_of_a_row(
    slots: nat,
    texts: nat,
    row: RowView,
    v: DataValue,
)
    ensures
        row::heap_size(slots, texts) == in_a_word(
            vstd::layout::size_of::<Row>() + slots * vstd::layout::size_of::<Data>() + texts as int,
        ),
        row::text_bytes(Seq::empty()) == 0,
        row::text_bytes(row.push(v)) == row::text_bytes(row) + match v {
            DataValue::Text(s) => vstd::utf8::encode_utf8(s).len(),
            _ => 0,
        },
{
    assert(row.push(v).drop_last() =~= row);
}

/// Rows take together what each of them does: in memory what it takes at least, in
/// one piece its stored bytes, and while they are sorted 64 bytes more.
pub proof fn law_memory_of_rows(rows: Seq<RowView>, row: RowView)
    ensures
        materialize::least_bytes(Seq::empty()) == 0,
        materialize::least_bytes(rows.push(row)) == materialize::least_bytes(rows)
            + vstd::layout::size_of::<Row>() + row.len() * vstd::layout::size_of::<Data>()
            + row::text_bytes(row),
        compact::stored_bytes(Seq::empty()) == 0,
        compact::stored_bytes(rows.push(row)) == compact::stored_bytes(rows) + storage::stored_row(
            row,
        ).len(),
        compact::held_bytes(rows) == in_a_word(
            (compact::stored_bytes(rows) + rows.len() * vstd::layout::size_of::<
                CompactRowRef,
            >()) as int,
        ),
        sort_runs::kept_bytes(Seq::empty()) == 0,
        sort_runs::kept_bytes(rows.push(row)) == sort_runs::kept_bytes(rows) + storage::stored_row(
            row,
        ).len() + 64,
{
    assert(rows.push(row).drop_last() =~= rows);
    storage::law_rows_are_written(row);
}

/// A row in a table of a join is held to take what its values do, and its place and
/// 16 bytes more.
pub proof fn law_memory_of_a_table(
    types: Seq<DataType>,
    used: usize,
    bytes: nat,
    slots: nat,
    rooms: nat,
)
    ensures
        equality_join::hash_row_bytes(types) == in_a_word(
            estimation::types_bytes(types) + vstd::layout::size_of::<Box<[u8]>>() + 16int,
        ),
        hash::used_after(used, bytes, false) == in_a_word(
            used + bytes + vstd::layout::size_of::<Box<[u8]>>() as int,
        ),
        hash::used_after(used, bytes, true) == in_a_word(
            used + bytes + 2 * vstd::layout::size_of::<Box<[u8]>>() + vstd::layout::size_of::<u64>()
                + vstd::layout::size_of::<Vec<Box<[u8]>>>(),
        ),
        hash::reserved_by(slots, rooms) == in_a_word(
            2 * slots * vstd::layout::size_of::<(u64, Vec<Box<[u8]>>)>() + rooms
                * vstd::layout::size_of::<Box<[u8]>>() as int,
        ),
{
    let entry = vstd::layout::size_of::<(u64, Vec<Box<[u8]>>)>();
    assert(2 * (slots * entry) == 2 * slots * entry) by (nonlinear_arith);
}

/// A sort leaves an eighth of the memory for what runs below it, a quarter where
/// that is a join or the rows are wide, and two fifths where both are.
pub proof fn law_memory_left_for_a_sort(op: OpView, width: int, limit: int)
    requires
        limit >= 0,
    ensures
        ({
            let all = executor::working_memory(limit);
            let narrow = width < 512;
            &&& narrow ==> sort::left_for_sort(false, width, limit) == all - all / 8
            &&& !narrow ==> sort::left_for_sort(false, width, limit) == all - all / 4
            &&& narrow ==> sort::left_for_sort(true, width, limit) == all - all / 4
            &&& !narrow ==> sort::left_for_sort(true, width, limit) == all - all * 2 / 5
        }),
        op is Cross ==> sort::has_cross(op),
        op is Scan ==> !sort::has_cross(op),
        op matches OpView::Filter(_, u) ==> sort::has_cross(op) == sort::has_cross(*u),
        op matches OpView::Project(_, u) ==> sort::has_cross(op) == sort::has_cross(*u),
        op matches OpView::Sort(_, u) ==> sort::has_cross(op) == sort::has_cross(*u),
{
}

/// A run of a sort takes all that is left where all rows are held to fit, half where
/// they fit twice that, and a third otherwise, less for wide rows. It takes no more
/// than the limit for such sorts, and no less than an eighth or 256 kibibytes, as
/// far as there are so many.
pub proof fn law_memory_of_a_run(join_like: bool, width: int, rows: int, limit: int)
    requires
        limit >= 0,
        sort::left_for_sort(join_like, width, limit) > 0,
    ensures
        ({
            let left = sort::left_for_sort(join_like, width, limit);
            let total = rows * width;
            let run = sort::run_budget(join_like, width, rows, limit);
            let part = if total <= left {
                left
            } else if total <= 2 * left {
                left / 2
            } else {
                left / 3
            };
            let target = if width >= 512 && part > left / 4 {
                left / 4
            } else if 256 <= width < 512 && part > left / 3 {
                left / 3
            } else {
                part
            };
            let floor = if left / 8 >= 0x4_0000 {
                left / 8
            } else if left >= 0x4_0000 {
                0x4_0000
            } else {
                left
            };
            let limit_of = if join_like && width >= 512 {
                left / 3
            } else if join_like && width >= 256 {
                left * 2 / 5
            } else if join_like || width >= 512 {
                left / 2
            } else if width >= 256 {
                left * 2 / 3
            } else {
                left * 3 / 4
            };
            let ceiling = if limit_of >= floor {
                limit_of
            } else {
                floor
            };
            &&& 0 < run <= left
            &&& floor <= target <= ceiling ==> run == target
            &&& target < floor ==> run == floor
            &&& target > ceiling ==> run == ceiling
        }),
{
}

/// Rows that are sorted in one piece take all that is left but a sixteenth, from a
/// mebibyte on, and all of it up to 256 kibibytes.
pub proof fn law_memory_of_stored_rows(join_like: bool, width: int, limit: int)
    requires
        limit >= 0,
    ensures
        ({
            let left = sort::left_for_sort(join_like, width, limit);
            let stored = sort::stored_budget(join_like, width, limit);
            &&& left == 0 ==> stored == 0x4_0000
            &&& left > 0 ==> left / 2 <= stored <= left
            &&& 0 < left <= 0x4_0000 ==> stored == left
            &&& left >= 0x10_0000 ==> stored == left - left / 16
        }),
{
}

/// A row goes to those that are sorted in memory unless there are some and they
/// would take more than the budget with it.
pub proof fn law_room_in_a_sort(held: nat, bytes: nat, size: nat, budget: nat)
    ensures
        ({
            let all = in_a_word((bytes + size) as int);
            &&& held == 0 || all <= budget ==> (sort_runs::sort_room(held, bytes, size, budget)
                matches Some(n) && n == all)
            &&& held > 0 && all > budget ==> sort_runs::sort_room(held, bytes, size, budget) is None
        }),
{
}

/// Room for the bytes of a row is there where they fit what was taken, and is taken
/// where the budget allows a quarter more, but between 256 kibibytes and a mebibyte,
/// and as much as the row needs.
pub proof fn law_room_for_bytes(len: nat, capacity: nat, size: nat, places: nat, budget: nat)
    requires
        len + size <= usize::MAX,
        len + 1048576 <= usize::MAX,
    ensures
        ({
            let quarter = capacity / 4;
            let step = if quarter < 262144 {
                262144
            } else if quarter > 1048576 {
                1048576
            } else {
                quarter as int
            };
            let growth = if step < size {
                size as int
            } else {
                step
            };
            let room = compact::storage_room_of(len, capacity, size, places, budget);
            &&& len + size <= capacity ==> room is Enough
            &&& len + size > capacity && in_a_word(len + growth + places) > budget ==> room
                is BeyondBudget
            &&& len + size > capacity && in_a_word(len + growth + places) <= budget ==> (room
                matches Room::Reserve(n) && n == growth)
        }),
{
}

/// Room for the place of a row is there where one is free, and is taken where the
/// budget allows a quarter more, but between 4096 and 32768 places.
pub proof fn law_room_for_places(len: nat, capacity: nat, size: nat, stored: nat, budget: nat)
    requires
        (len + 32768) * size + stored <= usize::MAX,
        len + 32768 <= usize::MAX,
    ensures
        ({
            let quarter = capacity / 4;
            let growth = if quarter < 4096 {
                4096
            } else if quarter > 32768 {
                32768
            } else {
                quarter as int
            };
            let room = compact::place_room_of(len, capacity, size, stored, budget);
            &&& len < capacity ==> room is Enough
            &&& len >= capacity && stored + (len + growth) * size > budget ==> room is BeyondBudget
            &&& len >= capacity && stored + (len + growth) * size <= budget ==> (room
                matches Room::Reserve(n) && n == growth)
        }),
{
    let quarter = capacity / 4;
    let growth = if quarter < 4096 {
        4096
    } else if quarter > 32768 {
        32768
    } else {
        quarter as int
    };
    assert((len + growth) * size <= (len + 32768) * size) by (nonlinear_arith)
        requires
            growth <= 32768,
            0 <= size,
    ;
    assert(0 <= (len + growth) * size) by (nonlinear_arith)
        requires
            growth >= 0,
            0 <= size,
            0 <= len,
    ;
}

} // verus!
