//! Rows in memory in their stored form, and their order.

use vstd::prelude::*;

use crate::bag;
use crate::data;
use crate::data::{Data, DataType, DataValue};
use crate::error::DbError;
use crate::executor;
use crate::executor::heap_sort;
use crate::executor::heap_sort::{sort_unstable, SortOrder};
use crate::executor::value;
use crate::executor::value::{compare_rows, compare_values};
use crate::executor::{max_of, min_of, CompiledSortSpec};
use crate::io::push_bytes;
use crate::number::Order;
use crate::row;
use crate::row::{saturating_product, vec_capacity, Row, Schema};
use crate::semantics;
use crate::semantics::{RowView, SortKey};
use crate::storage::row_codec;
use crate::storage::row_codec::{
    decode_row_from_bytes, decode_value_from_bytes, part, skip_value_from_bytes,
};

verus! {

/// The number of sort columns up to which the places of all of them are found
/// in one walk.
pub const INLINE_COMPACT_SORT_KEYS: usize = 16;

/// The sort columns are there.
pub open spec fn specs_below(specs: Seq<CompiledSortSpec>, width: int) -> bool {
    forall|i: int| 0 <= i < specs.len() ==> (#[trigger] specs[i]).index < width
}

/// The order of rows by sort columns.
pub struct RowsOrder<'a> {
    pub specs: &'a Vec<CompiledSortSpec>,
}

impl<'a> SortOrder<Row> for RowsOrder<'a> {
    open spec fn admits(&self, a: Row) -> bool {
        specs_below(self.specs@, a@.len() as int)
    }

    open spec fn ranks(&self, a: Row, b: Row) -> Order {
        semantics::row_order(a@, b@, executor::key_views(self.specs@))
    }

    proof fn lemma_reverse(&self, a: Row, b: Row) {
        semantics::lemma_row_order_reverse(a@, b@, executor::key_views(self.specs@));
    }

    fn rank(&self, a: &Row, b: &Row) -> (r: Order) {
        compare_rows(a, b, self.specs)
    }
}

/// Sorts rows by sort columns.
pub fn sort_rows(rows: &mut Vec<Row>, specs: &Vec<CompiledSortSpec>)
    requires
        forall|i: int|
            0 <= i < old(rows)@.len() ==> specs_below(
                specs@,
                (#[trigger] old(rows)@[i])@.len() as int,
            ),
    ensures
        bag::bag(row::row_views(final(rows)@)) == bag::bag(row::row_views(old(rows)@)),
        semantics::comparable(row::row_views(old(rows)@), executor::key_views(specs@))
            ==> semantics::sorted(row::row_views(final(rows)@), executor::key_views(specs@)),
{
    let ghost keys = executor::key_views(specs@);
    let ghost all = row::row_views(rows@);
    let ghost good = |r: Row| all.contains(r@);
    let c = RowsOrder { specs };
    proof {
        assert forall|i: int| 0 <= i < rows@.len() implies good(#[trigger] rows@[i]) by {
            assert(all[i] == rows@[i]@);
        }
    }
    sort_unstable(rows, &c, Ghost(good));
    proof {
        let f = |r: Row| r@;
        bag::lemma_images_bag(rows@, old(rows)@, f);
        assert(bag::images(rows@, f) =~= row::row_views(rows@));
        assert(bag::images(old(rows)@, f) =~= row::row_views(old(rows)@));
        if semantics::comparable(all, keys) {
            assert(heap_sort::transitive_on(c, good)) by {
                assert forall|x: Row, y: Row, z: Row|
                    #![trigger c.ranks(x, y), c.ranks(y, z)]
                    good(x) && good(y) && good(z) && heap_sort::not_after(c, x, y)
                        && heap_sort::not_after(c, y, z) implies heap_sort::not_after(
                    c,
                    x,
                    z,
                ) by {
                    lemma_transitive_among(all, x@, y@, z@, keys);
                }
            }
            let out = row::row_views(rows@);
            assert forall|i: int, j: int| 0 <= i < j < out.len() implies !(semantics::row_order(
                #[trigger] out[i],
                #[trigger] out[j],
                keys,
            ) is Greater) by {
                assert(heap_sort::not_after(c, rows@[i], rows@[j]));
            }
        }
    }
}

/// The order is transitive among rows whose values have an order.
pub proof fn lemma_transitive_among(
    all: Seq<RowView>,
    x: RowView,
    y: RowView,
    z: RowView,
    keys: Seq<SortKey>,
)
    requires
        semantics::comparable(all, keys),
        all.contains(x),
        all.contains(y),
        all.contains(z),
        !(semantics::row_order(x, y, keys) is Greater),
        !(semantics::row_order(y, z, keys) is Greater),
    ensures
        !(semantics::row_order(x, z, keys) is Greater),
        semantics::row_order(x, y, keys) is Less || semantics::row_order(y, z, keys) is Less
            ==> semantics::row_order(x, z, keys) is Less,
{
    let i = choose|i: int| 0 <= i < all.len() && all[i] == x;
    let j = choose|j: int| 0 <= j < all.len() && all[j] == y;
    let k = choose|k: int| 0 <= k < all.len() && all[k] == z;
    assert(semantics::comparable_rows(all[i], all[j], keys));
    assert(semantics::comparable_rows(all[j], all[k], keys));
    semantics::lemma_row_order_transitive(x, y, z, keys);
}

/// Where a stored row lies.
#[derive(Debug, Clone, Copy)]
pub struct CompactRowRef {
    pub start: usize,
    pub len: usize,
}

/// The bytes of a stored row.
pub open spec fn slice_of(storage: Seq<u8>, r: CompactRowRef) -> Seq<u8> {
    storage.subrange(r.start as int, r.start + r.len)
}

/// The row that lies at a place.
pub open spec fn row_at(storage: Seq<u8>, types: Seq<DataType>, r: CompactRowRef) -> RowView {
    row_codec::decoded_row(slice_of(storage, r), types)->Ok_0.0
}

/// A row with the types lies at a place.
pub open spec fn row_there(storage: Seq<u8>, types: Seq<DataType>, r: CompactRowRef) -> bool {
    &&& r.start + r.len <= storage.len()
    &&& data::conforms(row_at(storage, types, r), types)
    &&& slice_of(storage, r) == row::encoded_row(row_at(storage, types, r))
}

/// The rows that lie at places.
pub open spec fn rows_at(
    storage: Seq<u8>,
    types: Seq<DataType>,
    rows: Seq<CompactRowRef>,
) -> Seq<RowView> {
    Seq::new(rows.len(), |i: int| row_at(storage, types, rows[i]))
}

/// The bytes of the stored forms of rows.
pub open spec fn stored_bytes(rows: Seq<RowView>) -> nat
    decreases rows.len(),
{
    if rows.len() == 0 {
        0
    } else {
        stored_bytes(rows.drop_last()) + row::encoded_row(rows.last()).len()
    }
}

/// The bytes of the stored forms of rows and of their places, as far as a word
/// holds them.
pub open spec fn held_bytes(rows: Seq<RowView>) -> nat {
    row::saturated(stored_bytes(rows) + rows.len() * vstd::layout::size_of::<CompactRowRef>())
}

/// A product with one more than a word holds is more than a word holds, unless
/// it is nothing.
proof fn lemma_saturated_product(n: nat, item: nat)
    requires
        n <= usize::MAX,
    ensures
        row::saturated((row::saturated(n + 1) * item) as nat) == row::saturated(
            ((n + 1) * item) as nat,
        ),
{
    if n == usize::MAX && item > 0 {
        assert(n * item >= n && (n + 1) * item >= n) by (nonlinear_arith)
            requires
                item > 0,
        ;
    } else if item == 0 {
        assert((n + 1) * item == 0 && row::saturated(n + 1) * item == 0) by (nonlinear_arith)
            requires
                item == 0,
        ;
    }
}

/// Makes room in a vector for exactly `additional` elements more by std's
/// `Vec::try_reserve_exact`, which leaves the elements as they are. Whether there
/// is room is not said.
#[verifier::external_body]
fn vec_try_reserve_exact<T>(v: &mut Vec<T>, additional: usize) -> (r: bool)
    ensures
        final(v)@ == old(v)@,
{
    v.try_reserve_exact(additional).is_ok()
}

/// What making room takes: nothing, more than the budget, or a reservation of so
/// many elements more.
#[derive(Debug, Clone, Copy, PartialEq, Eq, Structural)]
pub enum Room {
    Enough,
    BeyondBudget,
    Reserve(usize),
}

/// What room for the bytes of a row takes, by what the allocator has given: the
/// bytes grow by a quarter, within bounds, or by what the row needs.
pub open spec fn storage_room_of(
    len: nat,
    capacity: nat,
    row_size: nat,
    place_bytes: nat,
    budget: nat,
) -> Room {
    let growth = executor::larger(
        executor::smaller(executor::larger((capacity / 4) as int, 262144), 1048576),
        row_size as int,
    );
    let target = row::saturated((len + growth) as nat);
    if row::saturated(len + row_size) <= capacity {
        Room::Enough
    } else if row::saturated(target + place_bytes) > budget {
        Room::BeyondBudget
    } else {
        Room::Reserve((target - len) as usize)
    }
}

/// What room for the bytes of a row takes, where `len` of `capacity` bytes are
/// taken and the places of the rows have `place_bytes`.
pub fn storage_room(
    len: usize,
    capacity: usize,
    row_size: usize,
    place_bytes: usize,
    budget: usize,
) -> (r: Room)
    ensures
        r == storage_room_of(
            len as nat,
            capacity as nat,
            row_size as nat,
            place_bytes as nat,
            budget as nat,
        ),
{
    if len.saturating_add(row_size) <= capacity {
        return Room::Enough;
    }
    let growth: usize = max_of(
        min_of(max_of(capacity / 4, 256 * 1024), 1024 * 1024),
        row_size,
    );
    let target_capacity: usize = len.saturating_add(growth);
    let reserved: usize = target_capacity.saturating_add(place_bytes);
    if reserved > budget {
        return Room::BeyondBudget;
    }
    Room::Reserve(target_capacity.saturating_sub(len))
}

/// Whether the budget allows what the allocator has given: room for so many bytes
/// and for so many places of rows.
pub fn keeps_budget(bytes: usize, places: usize, budget: usize) -> (r: bool)
    ensures
        r == (row::saturated(
            bytes as nat + places as nat * vstd::layout::size_of::<CompactRowRef>(),
        ) <= budget),
{
    bytes.saturating_add(saturating_product(places, core::mem::size_of::<CompactRowRef>()))
        <= budget
}

/// What room for the place of a row takes, by what the allocator has given: the
/// places grow by a quarter, within bounds.
pub open spec fn place_room_of(
    len: nat,
    capacity: nat,
    place_size: nat,
    storage_bytes: nat,
    budget: nat,
) -> Room {
    let growth = executor::smaller(executor::larger((capacity / 4) as int, 4096), 32768);
    let target = row::saturated((len + growth) as nat);
    if len < capacity {
        Room::Enough
    } else if row::saturated(storage_bytes + row::saturated(target * place_size)) > budget {
        Room::BeyondBudget
    } else {
        Room::Reserve((target - len) as usize)
    }
}

/// What room for the place of a row takes, where `len` of `capacity` places of
/// `place_size` bytes are taken and the rows have `storage_bytes`.
pub fn place_room(
    len: usize,
    capacity: usize,
    place_size: usize,
    storage_bytes: usize,
    budget: usize,
) -> (r: Room)
    ensures
        r == place_room_of(
            len as nat,
            capacity as nat,
            place_size as nat,
            storage_bytes as nat,
            budget as nat,
        ),
{
    if len < capacity {
        return Room::Enough;
    }
    // The places grow in steps of a bounded size, so that a large result
    // does not make the allocator jump past the budget.
    let growth: usize = min_of(max_of(capacity / 4, 4096), 32768);
    let target_capacity: usize = len.saturating_add(growth);
    let reserved: usize = storage_bytes.saturating_add(
        saturating_product(target_capacity, place_size),
    );
    if reserved > budget {
        return Room::BeyondBudget;
    }
    Room::Reserve(target_capacity.saturating_sub(len))
}

/// Rows in memory in their stored form, within a budget.
pub struct CompactSortState {
    storage: Vec<u8>,
    rows: Vec<CompactRowRef>,
    budget: usize,
    log: Ghost<Seq<RowView>>,
}

impl CompactSortState {
    /// The rows that were pushed.
    pub closed spec fn log(self) -> Seq<RowView> {
        self.log@
    }

    /// The bytes that rows may take.
    pub closed spec fn budget(self) -> usize {
        self.budget
    }

    /// What was pushed lies at its places.
    pub closed spec fn wf(self, types: Seq<DataType>) -> bool {
        &&& self.rows@.len() == self.log@.len()
        &&& self.storage@.len() == stored_bytes(self.log@)
        &&& forall|i: int|
            0 <= i < self.rows@.len() ==> {
                &&& (#[trigger] self.rows@[i]).start + self.rows@[i].len <= self.storage@.len()
                &&& slice_of(self.storage@, self.rows@[i]) == row::encoded_row(self.log@[i])
            }
        &&& row_codec::all_conform(self.log@, types)
    }

    /// No rows.
    pub fn with_capacity(budget: usize) -> (r: CompactSortState)
        ensures
            r.log() == Seq::<RowView>::empty(),
            r.budget() == budget,
            forall|types: Seq<DataType>| #[trigger] r.wf(types),
    {
        CompactSortState {
            storage: Vec::with_capacity(min_of(budget, 128 * 1024)),
            rows: Vec::new(),
            budget,
            log: Ghost(Seq::empty()),
        }
    }

    /// Whether there are no rows.
    pub fn is_empty(&self) -> (r: bool)
        ensures
            forall|types: Seq<DataType>| #[trigger] self.wf(types) ==> r == (self.log().len() == 0),
    {
        self.rows.len() == 0
    }

    /// Takes a row, if it fits the budget with those that are there. What the
    /// allocator has reserved counts too, so which rows fit is not said beyond
    /// that.
    pub fn try_push_row(&mut self, row: &Row) -> (r: Result<bool, DbError>)
        ensures
            final(self).budget() == old(self).budget(),
            forall|types: Seq<DataType>| #[trigger]
                old(self).wf(types) && held_bytes(old(self).log().push(row@)) > old(self).budget()
                    ==> r == Ok::<bool, DbError>(false),
            r matches Ok(pushed) && (forall|types: Seq<DataType>| #[trigger]
                old(self).wf(types) && data::conforms(row@, types) ==> final(self).wf(types)),
            r == Ok::<bool, DbError>(true) ==> final(self).log() == old(self).log().push(row@),
            r == Ok::<bool, DbError>(false) ==> final(self).log() == old(self).log(),
    {
        let row_size: usize = row.serialized_size();
        let item: usize = core::mem::size_of::<CompactRowRef>();
        let needed: usize = self.storage.len().saturating_add(row_size).saturating_add(
            saturating_product(self.rows.len().saturating_add(1), item),
        );
        proof {
            let after = self.log@.push(row@);
            assert(after.drop_last() =~= self.log@);
            if self.rows@.len() == self.log@.len() && self.storage@.len() == stored_bytes(self.log@) {
                assert(stored_bytes(after) == self.storage@.len() + row::encoded_row(row@).len());
                lemma_saturated_product(self.rows@.len(), item as nat);
                assert(needed == held_bytes(after));
            }
        }
        if needed > self.budget {
            return Ok(false);
        }
        if !self.ensure_storage_capacity(row_size) || !self.ensure_row_capacity() {
            return Ok(false);
        }
        if !keeps_budget(vec_capacity(&self.storage), vec_capacity(&self.rows), self.budget) {
            return Ok(false);
        }
        let ghost before = *self;
        let start: usize = self.storage.len();
        let stored = match row.to_stored() {
            Some(stored) => stored,
            None => {
                return Ok(false);
            },
        };
        if stored.len() > usize::MAX - start {
            return Ok(false);
        }
        push_bytes(&mut self.storage, stored.as_slice());
        self.rows.push(CompactRowRef { start, len: stored.len() });
        proof {
            self.log@ = self.log@.push(row@);
            assert forall|types: Seq<DataType>| #[trigger] old(self).wf(types) && data::conforms(
                row@,
                types,
            ) implies self.wf(types) by {
                assert(before.wf(types));
                assert(self.log@.drop_last() =~= before.log@);
                executor::partition::lemma_conform_push(before.log@, row@, types);
                assert forall|i: int| 0 <= i < self.rows@.len() implies {
                    &&& (#[trigger] self.rows@[i]).start + self.rows@[i].len <= self.storage@.len()
                    &&& slice_of(self.storage@, self.rows@[i]) == row::encoded_row(self.log@[i])
                } by {
                    if i < before.rows@.len() {
                        assert(self.rows@[i] == before.rows@[i]);
                        assert(slice_of(self.storage@, self.rows@[i]) =~= slice_of(
                            before.storage@,
                            self.rows@[i],
                        ));
                    } else {
                        assert(slice_of(self.storage@, self.rows@[i]) =~= stored@);
                    }
                }
            }
        }
        Ok(true)
    }

    /// Makes room for the bytes of a row, if the budget and the allocator allow
    /// it: what [`storage_room`] says of the capacities that the allocator gave is
    /// done. What needs no bytes has room; beyond that the allocator decides.
    fn ensure_storage_capacity(&mut self, row_size: usize) -> (r: bool)
        ensures
            row_size == 0 ==> r,
            final(self).storage@ == old(self).storage@,
            final(self).rows == old(self).rows,
            final(self).log == old(self).log,
            final(self).budget == old(self).budget,
    {
        let room = storage_room(
            self.storage.len(),
            vec_capacity(&self.storage),
            row_size,
            saturating_product(vec_capacity(&self.rows), core::mem::size_of::<CompactRowRef>()),
            self.budget,
        );
        match room {
            Room::Enough => true,
            Room::BeyondBudget => false,
            Room::Reserve(more) => vec_try_reserve_exact(&mut self.storage, more),
        }
    }

    /// Makes room for the place of one row more, if the budget and the allocator
    /// allow it: what [`place_room`] says of the capacities that the allocator
    /// gave is done. How much room there was is the allocator's choice, so nothing
    /// is said of the answer.
    fn ensure_row_capacity(&mut self) -> (r: bool)
        ensures
            final(self).rows@ == old(self).rows@,
            final(self).storage == old(self).storage,
            final(self).log == old(self).log,
            final(self).budget == old(self).budget,
    {
        let room = place_room(
            self.rows.len(),
            vec_capacity(&self.rows),
            core::mem::size_of::<CompactRowRef>(),
            vec_capacity(&self.storage),
            self.budget,
        );
        match room {
            Room::Enough => true,
            Room::BeyondBudget => false,
            Room::Reserve(more) => vec_try_reserve_exact(&mut self.rows, more),
        }
    }

    /// The places of the rows are those of the rows that were pushed.
    proof fn lemma_rows_at(self, types: Seq<DataType>)
        requires
            self.wf(types),
        ensures
            rows_at(self.storage@, types, self.rows@) == self.log@,
            forall|i: int|
                0 <= i < self.rows@.len() ==> row_there(
                    self.storage@,
                    types,
                    #[trigger] self.rows@[i],
                ),
    {
        assert forall|i: int| 0 <= i < self.rows@.len() implies row_there(
            self.storage@,
            types,
            #[trigger] self.rows@[i],
        ) && row_at(self.storage@, types, self.rows@[i]) == self.log@[i] by {
            let r = self.log@[i];
            assert(data::conforms(r, types));
            row_codec::lemma_row_round_trip(r, types, Seq::empty());
            assert(row::encoded_row(r) + Seq::<u8>::empty() =~= row::encoded_row(r));
        }
        assert(rows_at(self.storage@, types, self.rows@) =~= self.log@);
    }

    /// Puts the rows in order.
    pub fn sort(self, schema: &Schema, specs: &Vec<CompiledSortSpec>) -> (r: SortedCompactRows)
        requires
            self.wf(schema.types()),
            specs_below(specs@, schema@.len() as int),
        ensures
            r.wf(schema.types()),
            r.types() == schema.types(),
            bag::bag(r.rows()) == bag::bag(self.log()),
            semantics::comparable(self.log(), executor::key_views(specs@)) ==> semantics::sorted(
                r.rows(),
                executor::key_views(specs@),
            ),
    {
        let ghost types = schema.types();
        let ghost keys = executor::key_views(specs@);
        let ghost all = self.log@;
        proof {
            self.lemma_rows_at(types);
        }
        let storage = self.storage;
        let mut rows = self.rows;
        let layout = CompactSortLayout::from_specs(schema, specs);
        let ghost good = |r: CompactRowRef| all.contains(row_at(storage@, types, r));
        {
            let c = CompactOrder { layout: &layout, storage: &storage, schema };
            proof {
                assert forall|i: int| 0 <= i < rows@.len() implies c.admits(#[trigger] rows@[i])
                    && good(rows@[i]) by {
                    assert(row_there(storage@, types, rows@[i]));
                    assert(rows_at(storage@, types, rows@)[i] == all[i]);
                }
            }
            sort_unstable(&mut rows, &c, Ghost(good));
            proof {
                if semantics::comparable(all, keys) {
                    assert forall|x: CompactRowRef, y: CompactRowRef, z: CompactRowRef|
                        #![trigger c.ranks(x, y), c.ranks(y, z)]
                        good(x) && good(y) && good(z) && heap_sort::not_after(c, x, y)
                            && heap_sort::not_after(c, y, z) implies heap_sort::not_after(
                        c,
                        x,
                        z,
                    ) by {
                        lemma_transitive_among(
                            all,
                            row_at(storage@, types, x),
                            row_at(storage@, types, y),
                            row_at(storage@, types, z),
                            keys,
                        );
                    }
                    assert(heap_sort::transitive_on(c, good));
                    let out = rows_at(storage@, types, rows@);
                    assert forall|i: int, j: int|
                        0 <= i < j < out.len() implies !(semantics::row_order(
                        #[trigger] out[i],
                        #[trigger] out[j],
                        keys,
                    ) is Greater) by {
                        assert(heap_sort::not_after(c, rows@[i], rows@[j]));
                    }
                }
                assert forall|i: int| 0 <= i < rows@.len() implies row_there(
                    storage@,
                    types,
                    #[trigger] rows@[i],
                ) by {
                    assert(c.admits(rows@[i]));
                }
            }
        }
        proof {
            let f = |r: CompactRowRef| row_at(storage@, types, r);
            bag::lemma_images_bag(rows@, self.rows@, f);
            assert(bag::images(rows@, f) =~= rows_at(storage@, types, rows@));
            assert(bag::images(self.rows@, f) =~= rows_at(storage@, types, self.rows@));
        }
        SortedCompactRows { storage, rows, types: Ghost(types) }
    }
}

/// Stored rows in order.
pub struct SortedCompactRows {
    storage: Vec<u8>,
    rows: Vec<CompactRowRef>,
    types: Ghost<Seq<DataType>>,
}

impl SortedCompactRows {
    /// The types of the rows.
    pub closed spec fn types(self) -> Seq<DataType> {
        self.types@
    }

    /// The rows.
    pub closed spec fn rows(self) -> Seq<RowView> {
        rows_at(self.storage@, self.types@, self.rows@)
    }

    /// The rows lie at their places.
    pub closed spec fn wf(self, types: Seq<DataType>) -> bool {
        &&& types == self.types@
        &&& forall|i: int|
            0 <= i < self.rows@.len() ==> row_there(self.storage@, types, #[trigger] self.rows@[i])
    }

    /// The number of rows.
    pub fn len(&self) -> (r: usize)
        ensures
            r == self.rows().len(),
    {
        self.rows.len()
    }

    /// A row.
    pub fn get(&self, index: usize, schema: &Schema) -> (r: Row)
        requires
            self.wf(schema.types()),
            index < self.rows().len(),
        ensures
            r@ == self.rows()[index as int],
            data::conforms(r@, schema.types()),
    {
        let place = self.rows[index];
        let total: usize = self.storage.len();
        assert(row_there(self.storage@, schema.types(), place));
        assert(place.start + place.len <= total);
        let bytes = part(self.storage.as_slice(), place.start, place.start + place.len);
        proof {
            let r = row_at(self.storage@, schema.types(), place);
            row_codec::lemma_row_round_trip(r, schema.types(), Seq::empty());
            assert(row::encoded_row(r) + Seq::<u8>::empty() =~= row::encoded_row(r));
            assert(bytes@ == slice_of(self.storage@, place));
        }
        match decode_row_from_bytes(bytes, schema) {
            Ok(row) => row,
            Err(_) => Row::new(Vec::new()),
        }
    }
}

/// The order of stored rows by their places.
struct CompactOrder<'a> {
    layout: &'a CompactSortLayout,
    storage: &'a Vec<u8>,
    schema: &'a Schema,
}

impl<'a> SortOrder<CompactRowRef> for CompactOrder<'a> {
    closed spec fn admits(&self, a: CompactRowRef) -> bool {
        &&& row_there(self.storage@, self.schema.types(), a)
        &&& self.layout.wf(self.schema@.len() as int)
    }

    closed spec fn ranks(&self, a: CompactRowRef, b: CompactRowRef) -> Order {
        semantics::row_order(
            row_at(self.storage@, self.schema.types(), a),
            row_at(self.storage@, self.schema.types(), b),
            executor::key_views(self.layout.specs@),
        )
    }

    proof fn lemma_reverse(&self, a: CompactRowRef, b: CompactRowRef) {
        semantics::lemma_row_order_reverse(
            row_at(self.storage@, self.schema.types(), a),
            row_at(self.storage@, self.schema.types(), b),
            executor::key_views(self.layout.specs@),
        );
    }

    fn rank(&self, a: &CompactRowRef, b: &CompactRowRef) -> (r: Order) {
        let total: usize = self.storage.len();
        assert(a.start + a.len <= total && b.start + b.len <= total);
        let left = part(self.storage.as_slice(), a.start, a.start + a.len);
        let right = part(self.storage.as_slice(), b.start, b.start + b.len);
        let ghost types = self.schema.types();
        self.layout.compare(
            left,
            right,
            self.schema,
            Ghost(row_at(self.storage@, types, *a)),
            Ghost(row_at(self.storage@, types, *b)),
        )
    }
}

/// Where a value of a stored row lies.
#[derive(Debug, Clone, Copy)]
pub struct CompactValueSpan {
    pub start: usize,
    pub len: usize,
}

/// The sort columns of stored rows.
pub struct CompactSortLayout {
    specs: Vec<CompiledSortSpec>,
    spec_position_by_column: Vec<Option<usize>>,
}

/// The number of bytes before a value of a stored row.
pub open spec fn offset_of(r: RowView, i: int) -> int {
    row::encoded_row(r.take(i)).len() as int
}

/// A value of a stored row can be read at its place.
proof fn lemma_value_at(r: RowView, types: Seq<DataType>, i: int)
    requires
        data::conforms(r, types),
        0 <= i < r.len(),
    ensures
        row_codec::decoded(row::encoded_row(r).skip(offset_of(r, i)), types[i]) == Ok::<
            (DataValue, int),
            DbError,
        >((r[i], row::encoded(r[i]).len() as int)),
        row_codec::skipped(row::encoded_row(r).skip(offset_of(r, i)), types[i]) == Ok::<
            int,
            DbError,
        >(row::encoded(r[i]).len() as int),
        offset_of(r, i + 1) == offset_of(r, i) + row::encoded(r[i]).len(),
        0 <= offset_of(r, i),
        offset_of(r, i + 1) <= row::encoded_row(r).len(),
        row_codec::decoded(
            row::encoded_row(r).subrange(offset_of(r, i), offset_of(r, i + 1)),
            types[i],
        ) == Ok::<(DataValue, int), DbError>((r[i], row::encoded(r[i]).len() as int)),
{
    let all = row::encoded_row(r);
    lemma_encoded_split(r, i + 1);
    lemma_encoded_split(r, i);
    assert(r.take(i + 1).drop_last() =~= r.take(i));
    let rest = all.skip(offset_of(r, i + 1));
    let upto = row::encoded_row(r.take(i + 1));
    assert(upto == row::encoded_row(r.take(i)) + row::encoded(r[i]));
    assert(all =~= upto + rest) by {
        assert(all =~= all.take(upto.len() as int) + all.skip(upto.len() as int));
    }
    assert(all.skip(offset_of(r, i)) =~= row::encoded(r[i]) + rest);
    row_codec::lemma_value_round_trip(r[i], rest);
    row_codec::lemma_value_round_trip(r[i], Seq::empty());
    assert(all.subrange(offset_of(r, i), offset_of(r, i + 1)) =~= row::encoded(r[i])
        + Seq::<u8>::empty());
}

/// The first values of a row come first in its stored form.
proof fn lemma_encoded_split(r: RowView, i: int)
    requires
        0 <= i <= r.len(),
    ensures
        row::encoded_row(r.take(i)).len() <= row::encoded_row(r).len(),
        row::encoded_row(r).take(row::encoded_row(r.take(i)).len() as int) == row::encoded_row(
            r.take(i),
        ),
    decreases r.len(),
{
    if i == r.len() {
        assert(r.take(i) =~= r);
        assert(row::encoded_row(r).take(row::encoded_row(r).len() as int) =~= row::encoded_row(r));
    } else {
        lemma_encoded_split(r.drop_last(), i);
        assert(r.drop_last().take(i) =~= r.take(i));
        let n = row::encoded_row(r.take(i)).len() as int;
        assert(row::encoded_row(r).take(n) =~= row::encoded_row(r.drop_last()).take(n));
    }
}

impl CompactSortLayout {
    /// The sort columns.
    pub closed spec fn specs(self) -> Seq<CompiledSortSpec> {
        self.specs@
    }

    /// The last position among the sort columns is known for each column.
    pub closed spec fn wf(self, width: int) -> bool {
        &&& specs_below(self.specs@, width)
        &&& self.spec_position_by_column@.len() == width
        &&& forall|c: int|
            0 <= c < width ==> ((#[trigger] self.spec_position_by_column@[c]) matches Some(p) ==> p
                < self.specs@.len() && self.specs@[p as int].index == c)
        &&& forall|p: int|
            0 <= p < self.specs@.len() ==> self.spec_position_by_column@[(
            #[trigger] self.specs@[p]).index as int] is Some
    }

    /// The layout of rows for some sort columns.
    pub fn from_specs(schema: &Schema, specs: &Vec<CompiledSortSpec>) -> (r: CompactSortLayout)
        requires
            specs_below(specs@, schema@.len() as int),
        ensures
            r.wf(schema@.len() as int),
            r.specs() == specs@,
    {
        let width: usize = schema.len();
        let mut positions: Vec<Option<usize>> = Vec::new();
        let mut i: usize = 0;
        while i < width
            invariant
                i <= width,
                positions@.len() == i,
                forall|c: int| 0 <= c < i ==> (#[trigger] positions@[c]) is None,
            decreases width - i,
        {
            positions.push(None);
            i = i + 1;
        }
        let mut copy: Vec<CompiledSortSpec> = Vec::new();
        let mut k: usize = 0;
        while k < specs.len()
            invariant
                k <= specs@.len(),
                positions@.len() == width,
                specs_below(specs@, width as int),
                copy@ =~= specs@.take(k as int),
                forall|c: int|
                    0 <= c < width ==> ((#[trigger] positions@[c]) matches Some(p) ==> p < k
                        && specs@[p as int].index == c),
                forall|p: int|
                    0 <= p < k ==> positions@[(#[trigger] specs@[p]).index as int] is Some,
            decreases specs@.len() - k,
        {
            let spec = specs[k];
            positions.set(spec.index, Some(k));
            copy.push(spec);
            k = k + 1;
        }
        assert(specs@.take(k as int) =~= specs@);
        CompactSortLayout { specs: copy, spec_position_by_column: positions }
    }

    /// The order of two stored rows.
    pub fn compare(
        &self,
        left: &[u8],
        right: &[u8],
        schema: &Schema,
        a: Ghost<RowView>,
        b: Ghost<RowView>,
    ) -> (r: Order)
        requires
            self.wf(schema@.len() as int),
            data::conforms(a@, schema.types()),
            data::conforms(b@, schema.types()),
            left@ == row::encoded_row(a@),
            right@ == row::encoded_row(b@),
        ensures
            r == semantics::row_order(a@, b@, executor::key_views(self.specs())),
    {
        if self.specs.len() <= INLINE_COMPACT_SORT_KEYS {
            return self.compare_inline(left, right, schema, a, b);
        }
        let ghost keys = executor::key_views(self.specs@);
        let mut i: usize = 0;
        assert(keys.skip(0) =~= keys);
        while i < self.specs.len()
            invariant
                i <= self.specs@.len(),
                self.wf(schema@.len() as int),
                keys == executor::key_views(self.specs@),
                data::conforms(a@, schema.types()),
                data::conforms(b@, schema.types()),
                left@ == row::encoded_row(a@),
                right@ == row::encoded_row(b@),
                semantics::row_order(a@, b@, keys) == semantics::row_order(
                    a@,
                    b@,
                    keys.skip(i as int),
                ),
            decreases self.specs@.len() - i,
        {
            let spec = self.specs[i];
            assert(keys.skip(i as int)[0] == spec@);
            assert(keys.skip(i as int).skip(1) =~= keys.skip(i + 1));
            let left_value = decode_sort_value_at_column(left, schema, spec.index, a);
            let right_value = decode_sort_value_at_column(right, schema, spec.index, b);
            let outcome = directed_order(&left_value, &right_value, spec.ascending);
            if outcome != Order::Equal {
                return outcome;
            }
            i = i + 1;
        }
        Order::Equal
    }

    /// The order of two stored rows, each walked once.
    fn compare_inline(
        &self,
        left: &[u8],
        right: &[u8],
        schema: &Schema,
        a: Ghost<RowView>,
        b: Ghost<RowView>,
    ) -> (r: Order)
        requires
            self.wf(schema@.len() as int),
            self.specs@.len() <= INLINE_COMPACT_SORT_KEYS,
            data::conforms(a@, schema.types()),
            data::conforms(b@, schema.types()),
            left@ == row::encoded_row(a@),
            right@ == row::encoded_row(b@),
        ensures
            r == semantics::row_order(a@, b@, executor::key_views(self.specs())),
    {
        let ghost types = schema.types();
        let ghost n = self.specs@.len() as int;
        let none = CompactValueSpan { start: 0, len: 0 };
        let mut left_spans: [CompactValueSpan; 16] = [none; 16];
        let mut right_spans: [CompactValueSpan; 16] = [none; 16];
        let mut left_offset: usize = 0;
        let mut right_offset: usize = 0;
        let width: usize = schema.len();
        let mut c: usize = 0;
        proof {
            assert(a@.take(0) =~= Seq::<DataValue>::empty());
            assert(b@.take(0) =~= Seq::<DataValue>::empty());
        }
        while c < width
            invariant
                c <= width,
                width == schema@.len(),
                types == schema.types(),
                n == self.specs@.len(),
                n <= 16,
                self.wf(width as int),
                data::conforms(a@, types),
                data::conforms(b@, types),
                left@ == row::encoded_row(a@),
                right@ == row::encoded_row(b@),
                left_offset == offset_of(a@, c as int),
                right_offset == offset_of(b@, c as int),
                left_spans@.len() == 16,
                right_spans@.len() == 16,
                forall|k: int|
                    0 <= k < c ==> ((#[trigger] self.spec_position_by_column@[k]) matches Some(p)
                        ==> span_of(left_spans@[p as int], a@, k) && span_of(
                        right_spans@[p as int],
                        b@,
                        k,
                    )),
            decreases width - c,
        {
            proof {
                lemma_value_at(a@, types, c as int);
                lemma_value_at(b@, types, c as int);
            }
            let dt = schema.type_at(c);
            let left_rest = part(left, left_offset, left.len());
            let right_rest = part(right, right_offset, right.len());
            proof {
                assert(left_rest@ =~= left@.skip(left_offset as int));
                assert(right_rest@ =~= right@.skip(right_offset as int));
            }
            let left_len: usize = match skip_value_from_bytes(left_rest, dt) {
                Ok(len) => len,
                Err(_) => {
                    return Order::Equal;
                },
            };
            let right_len: usize = match skip_value_from_bytes(right_rest, dt) {
                Ok(len) => len,
                Err(_) => {
                    return Order::Equal;
                },
            };
            if let Some(position) = self.spec_position_by_column[c] {
                left_spans[position] = CompactValueSpan { start: left_offset, len: left_len };
                right_spans[position] = CompactValueSpan { start: right_offset, len: right_len };
            }
            left_offset = left_offset + left_len;
            right_offset = right_offset + right_len;
            c = c + 1;
        }
        let ghost keys = executor::key_views(self.specs@);
        let mut i: usize = 0;
        assert(keys.skip(0) =~= keys);
        while i < self.specs.len()
            invariant
                i <= self.specs@.len(),
                width == schema@.len(),
                types == schema.types(),
                self.specs@.len() <= 16,
                self.wf(width as int),
                keys == executor::key_views(self.specs@),
                data::conforms(a@, types),
                data::conforms(b@, types),
                left@ == row::encoded_row(a@),
                right@ == row::encoded_row(b@),
                left_spans@.len() == 16,
                right_spans@.len() == 16,
                forall|k: int|
                    0 <= k < width ==> ((#[trigger] self.spec_position_by_column@[k]) matches Some(
                        p,
                    ) ==> span_of(left_spans@[p as int], a@, k) && span_of(
                        right_spans@[p as int],
                        b@,
                        k,
                    )),
                semantics::row_order(a@, b@, keys) == semantics::row_order(
                    a@,
                    b@,
                    keys.skip(i as int),
                ),
            decreases self.specs@.len() - i,
        {
            let spec = self.specs[i];
            let ghost column = spec.index as int;
            proof {
                assert(keys.skip(i as int)[0] == spec@);
                assert(keys.skip(i as int).skip(1) =~= keys.skip(i + 1));
                lemma_value_at(a@, types, column);
                lemma_value_at(b@, types, column);
                assert(self.spec_position_by_column@[self.specs@[i as int].index as int] is Some);
            }
            let position: usize = match self.spec_position_by_column[spec.index] {
                Some(position) => position,
                None => i,
            };
            let left_span = left_spans[position];
            let right_span = right_spans[position];
            let left_total: usize = left.len();
            let right_total: usize = right.len();
            assert(left_span.start + left_span.len <= left_total);
            assert(right_span.start + right_span.len <= right_total);
            let left_bytes = part(left, left_span.start, left_span.start + left_span.len);
            let right_bytes = part(right, right_span.start, right_span.start + right_span.len);
            let dt = schema.type_at(spec.index);
            let outcome = match (
                decode_value_from_bytes(left_bytes, dt),
                decode_value_from_bytes(right_bytes, dt),
            ) {
                (Ok((left_value, _)), Ok((right_value, _))) => directed_order(
                    &left_value,
                    &right_value,
                    spec.ascending,
                ),
                _ => Order::Equal,
            };
            if outcome != Order::Equal {
                return outcome;
            }
            i = i + 1;
        }
        Order::Equal
    }
}

/// The order of two values of a sort column. Values without an order count as
/// equal.
fn directed_order(left: &Data, right: &Data, ascending: bool) -> (r: Order)
    ensures
        r == semantics::key_order(left@, right@, ascending),
{
    let outcome = match compare_values(left, right) {
        Ok(o) => o,
        Err(_) => Order::Equal,
    };
    if ascending {
        outcome
    } else {
        outcome.reverse()
    }
}

/// A value of a stored row.
fn decode_sort_value_at_column(
    buf: &[u8],
    schema: &Schema,
    target_index: usize,
    r: Ghost<RowView>,
) -> (v: Data)
    requires
        target_index < schema@.len(),
        data::conforms(r@, schema.types()),
        buf@ == row::encoded_row(r@),
    ensures
        v@ == r@[target_index as int],
{
    let ghost types = schema.types();
    let mut offset: usize = 0;
    let mut c: usize = 0;
    assert(r@.take(0) =~= Seq::<DataValue>::empty());
    while c < target_index
        invariant
            c <= target_index < schema@.len(),
            types == schema.types(),
            data::conforms(r@, types),
            buf@ == row::encoded_row(r@),
            offset == offset_of(r@, c as int),
            offset <= buf@.len(),
        decreases target_index - c,
    {
        proof {
            lemma_value_at(r@, types, c as int);
        }
        let rest = part(buf, offset, buf.len());
        assert(rest@ =~= buf@.skip(offset as int));
        match skip_value_from_bytes(rest, schema.type_at(c)) {
            Ok(len) => {
                offset = offset + len;
            },
            Err(_) => {
                assert(false);
            },
        }
        c = c + 1;
    }
    proof {
        lemma_value_at(r@, types, c as int);
    }
    let rest = part(buf, offset, buf.len());
    assert(rest@ =~= buf@.skip(offset as int));
    match decode_value_from_bytes(rest, schema.type_at(target_index)) {
        Ok((value, _)) => value,
        Err(_) => Data::Int32(0),
    }
}

/// A span is that of a value.
spec fn span_of(span: CompactValueSpan, r: RowView, column: int) -> bool {
    &&& span.start == offset_of(r, column)
    &&& span.len == offset_of(r, column + 1) - offset_of(r, column)
}

} // verus!
