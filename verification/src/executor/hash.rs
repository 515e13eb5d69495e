//! Digests of join keys, and what is looked up by them.

use std::collections::HashMap;

use vstd::arithmetic::power2::{lemma2_to64, lemma_pow2_unfold, pow2};
use vstd::prelude::*;

use crate::bag;
use crate::bytes;
use crate::bytes::{get_le, to_unsigned_64};
use crate::data::{Data, DataValue};
use crate::error::DbError;
use crate::executor::{effective_memory, max_of, min_of};
use crate::executor::value;
use crate::executor::value::{exact_integral_i64_from_f64, normalized_f64_bits};
use crate::number;
use crate::number::Order;
use crate::row;
use crate::row::{saturating_product, vec_capacity, Row};
use crate::semantics::RowView;
use crate::storage::row_codec::part;
use crate::storage::scratch_run;

verus! {

/// The number of bits of a digest that choose a partition.
pub const PARTITION_FANOUT_BITS: u32 = 3;

/// The number of partitions.
pub const PARTITION_FANOUT: usize = 8;

/// The depth from which on partitions are not parted further.
pub const MAX_PARTITION_DEPTH: u32 = 3;

/// The number of depths at which a digest has bits to choose by.
pub const DIGEST_DEPTHS: u32 = 22;

/// The number of times that partitions can still be parted.
pub open spec fn depths_left(depth: u32) -> int {
    if depth < MAX_PARTITION_DEPTH {
        MAX_PARTITION_DEPTH - depth
    } else {
        0
    }
}

/// The least size of a join filter, in bytes.
pub const JOIN_FILTER_MIN_BYTES: usize = 262144;

/// The largest size of a join filter, in bytes.
pub const JOIN_FILTER_MAX_BYTES: usize = 4194304;

pub const JOIN_HASH_SEED: u64 = 0x517C_C1B7_2722_0A95;

pub const BLOOM_HASH_SEED_A: u64 = 0x9E37_79B9_7F4A_7C15;

pub const BLOOM_HASH_SEED_B: u64 = 0xD6E8_FDCD_DCB1_9B27;

/// A word whose bits each depend on many bits of the given one.
pub open spec fn avalanched(value: u64) -> u64 {
    let a = (value ^ (value >> 30)).wrapping_mul(0xBF58_476D_1CE4_E5B9);
    let b = (a ^ (a >> 27)).wrapping_mul(0x94D0_49BB_1331_11EB);
    b ^ (b >> 31)
}

/// A word whose bits each depend on many bits of the given one.
pub fn avalanche(value: u64) -> (r: u64)
    ensures
        r == avalanched(value),
{
    let a: u64 = (value ^ (value >> 30)).wrapping_mul(0xBF58_476D_1CE4_E5B9);
    let b: u64 = (a ^ (a >> 27)).wrapping_mul(0x94D0_49BB_1331_11EB);
    b ^ (b >> 31)
}

/// The state of a hasher behind one word more.
pub open spec fn mixed_word(state: u64, word: u64) -> u64 {
    avalanched(
        state.wrapping_add(JOIN_HASH_SEED).wrapping_add(word.wrapping_mul(BLOOM_HASH_SEED_A)),
    )
}

/// The state of a hasher behind one word more.
pub fn mix_hash_word(state: u64, value: u64) -> (r: u64)
    ensures
        r == mixed_word(state, value),
{
    avalanche(
        state.wrapping_add(JOIN_HASH_SEED).wrapping_add(value.wrapping_mul(BLOOM_HASH_SEED_A)),
    )
}

/// The state of a hasher behind more words.
pub open spec fn mixed(state: u64, words: Seq<u64>) -> u64
    decreases words.len(),
{
    if words.len() == 0 {
        state
    } else {
        mixed_word(mixed(state, words.drop_last()), words.last())
    }
}

proof fn lemma_mixed_concat(state: u64, a: Seq<u64>, b: Seq<u64>)
    ensures
        mixed(state, a + b) == mixed(mixed(state, a), b),
    decreases b.len(),
{
    if b.len() == 0 {
        assert(a + b =~= a);
    } else {
        lemma_mixed_concat(state, a, b.drop_last());
        assert((a + b).drop_last() =~= a + b.drop_last());
    }
}

proof fn lemma_mixed_one(state: u64, w: u64)
    ensures
        mixed(state, seq![w]) == mixed_word(state, w),
{
    assert(seq![w].drop_last() =~= Seq::<u64>::empty());
    assert(mixed(state, seq![w].drop_last()) == state);
}

/// The words of a text: eight bytes each, the least byte first; what is left
/// is a word with the number of its bytes mixed in.
pub open spec fn byte_words(s: Seq<u8>) -> Seq<u64>
    decreases s.len(),
{
    if s.len() >= 8 {
        seq![bytes::le_value(s.take(8)) as u64] + byte_words(s.skip(8))
    } else if s.len() > 0 {
        seq![(bytes::le_value(s) as u64) ^ (s.len() as u64)]
    } else {
        Seq::empty()
    }
}

/// The words of an integer key.
pub open spec fn int_words(v: int) -> Seq<u64> {
    seq![0u64, bytes::unsigned_64(v as i64) as u64]
}

/// The words of a floating-point key: those of the integer that it is, if it
/// is one.
pub open spec fn float_words(bits: u64) -> Seq<u64> {
    match value::integral_value(bits) {
        Some(v) => int_words(v),
        None => seq![2u64, value::normalized(bits)],
    }
}

/// The words of a key.
pub open spec fn value_words(v: DataValue) -> Seq<u64> {
    match v {
        DataValue::Int32(x) => int_words(x as int),
        DataValue::Int64(x) => int_words(x as int),
        DataValue::Float32(bits) => float_words(number::widened(bits) as u64),
        DataValue::Float64(bits) => float_words(bits),
        DataValue::Text(s) => seq![1u64] + byte_words(vstd::utf8::encode_utf8(s)) + seq![255u64],
    }
}

/// The words of some key columns of a row.
pub open spec fn row_words(row: RowView, keys: Seq<int>) -> Seq<u64>
    decreases keys.len(),
{
    if keys.len() == 0 {
        Seq::empty()
    } else {
        row_words(row, keys.drop_last()) + value_words(row[keys.last()])
    }
}

/// The digest of the key columns of a row.
pub open spec fn digest(row: RowView, keys: Seq<int>) -> u64 {
    avalanched(mixed(0, seq![keys.len() as u64] + row_words(row, keys)))
}

/// The key columns are there.
pub open spec fn keys_below(keys: Seq<int>, width: int) -> bool {
    forall|i: int| 0 <= i < keys.len() ==> 0 <= #[trigger] keys[i] < width
}

/// Equal keys have the same words, whatever their types.
pub proof fn lemma_equal_words(a: DataValue, b: DataValue)
    requires
        value::order(a, b) == Some(Order::Equal),
    ensures
        value_words(a) == value_words(b),
{
    match (a, b) {
        (DataValue::Text(x), DataValue::Text(y)) => {
            value::lemma_bytes_order_equal(
                vstd::utf8::encode_utf8(x),
                vstd::utf8::encode_utf8(y),
            );
        },
        _ => {
            lemma_number_words(a);
            lemma_number_words(b);
            let (x, y) = (value::number_of(a)->0, value::number_of(b)->0);
            lemma_equal_number_words(a, b);
        },
    }
}

/// A key that is not a text is an integer or a 64-bit pattern.
spec fn wide_bits(v: DataValue) -> u64 {
    match v {
        DataValue::Float32(bits) => number::widened(bits) as u64,
        DataValue::Float64(bits) => bits,
        _ => 0,
    }
}

spec fn is_int(v: DataValue) -> bool {
    v is Int32 || v is Int64
}

spec fn int_of(v: DataValue) -> int {
    match v {
        DataValue::Int32(x) => x as int,
        DataValue::Int64(x) => x as int,
        _ => 0,
    }
}

proof fn lemma_number_words(v: DataValue)
    requires
        !(v is Text),
    ensures
        value_words(v) == if is_int(v) {
            int_words(int_of(v))
        } else {
            float_words(wide_bits(v))
        },
        value::number_of(v) == Some(
            if is_int(v) {
                number::num_int(int_of(v))
            } else {
                number::num_64(wide_bits(v))
            },
        ),
        i64::MIN <= int_of(v) <= i64::MAX,
{
    if let DataValue::Float32(bits) = v {
        number::lemma_widened(bits);
    }
}

proof fn lemma_equal_number_words(a: DataValue, b: DataValue)
    requires
        !(a is Text),
        !(b is Text),
        value::order(a, b) == Some(Order::Equal),
    ensures
        value_words(a) == value_words(b),
{
    lemma_number_words(a);
    lemma_number_words(b);
    value::lemma_order_reverse(a, b);
    let p = vstd::arithmetic::power2::pow2(1074) as int;
    vstd::arithmetic::power2::lemma_pow2_pos(1074);
    if is_int(a) && is_int(b) {
        let (x, y) = (int_of(a), int_of(b));
        assert(x == y) by (nonlinear_arith)
            requires
                x * p == y * p,
                p > 0,
        ;
    } else if is_int(a) {
        value::lemma_equal_int_is_integral(int_of(a), wide_bits(b));
    } else if is_int(b) {
        value::lemma_equal_int_is_integral(int_of(b), wide_bits(a));
    } else {
        value::lemma_same_number_same_bits(wide_bits(a), wide_bits(b));
        lemma_normalized_words(wide_bits(a));
        lemma_normalized_words(wide_bits(b));
    }
}

/// Both zeros have the same words.
proof fn lemma_normalized_words(bits: u64)
    ensures
        float_words(bits) == float_words(value::normalized(bits)),
{
    if bits == number::SIGN_64 {
        number::lemma_scaled_64_zero(0);
        vstd::arithmetic::power2::lemma_pow2_pos(1074);
        vstd::arithmetic::power2::lemma_pow2_pos(128);
        assert(number::magnitude_64(bits) == 0);
        assert(number::magnitude_64(0) == 0);
        let p = vstd::arithmetic::power2::pow2(1074);
        vstd::arithmetic::div_mod::lemma_small_mod(0, p);
        vstd::arithmetic::div_mod::lemma_small_mod(0, vstd::arithmetic::power2::pow2(128));
        vstd::arithmetic::div_mod::lemma_basic_div(0, p as int);
        assert(value::whole_magnitude(0) == Some(0int));
    }
}

/// Each key of one row equals that of the other.
pub open spec fn keys_equal(a: RowView, ka: Seq<int>, b: RowView, kb: Seq<int>) -> bool {
    &&& ka.len() == kb.len()
    &&& forall|i: int|
        0 <= i < ka.len() ==> value::order(a[#[trigger] ka[i]], b[kb[i]]) == Some(Order::Equal)
}

/// Rows with equal keys have the same digest.
pub proof fn lemma_equal_digests(a: RowView, ka: Seq<int>, b: RowView, kb: Seq<int>)
    requires
        keys_equal(a, ka, b, kb),
    ensures
        digest(a, ka) == digest(b, kb),
{
    lemma_equal_row_words(a, ka, b, kb);
}

proof fn lemma_equal_row_words(a: RowView, ka: Seq<int>, b: RowView, kb: Seq<int>)
    requires
        keys_equal(a, ka, b, kb),
    ensures
        row_words(a, ka) == row_words(b, kb),
    decreases ka.len(),
{
    if ka.len() > 0 {
        assert(keys_equal(a, ka.drop_last(), b, kb.drop_last())) by {
            assert forall|i: int| 0 <= i < ka.len() - 1 implies value::order(
                a[#[trigger] ka.drop_last()[i]],
                b[kb.drop_last()[i]],
            ) == Some(Order::Equal) by {
                assert(ka[i] == ka.drop_last()[i]);
            }
        }
        lemma_equal_row_words(a, ka.drop_last(), b, kb.drop_last());
        assert(value::order(a[ka[ka.len() - 1]], b[kb[ka.len() - 1]]) == Some(Order::Equal));
        lemma_equal_words(a[ka.last()], b[kb.last()]);
    }
}

/// A hasher whose result depends on nothing but what is written to it.
#[derive(Debug)]
pub struct DeterministicHasher {
    state: u64,
}

impl DeterministicHasher {
    /// What the hasher made of what was written.
    pub closed spec fn state(self) -> u64 {
        self.state
    }

    /// A hasher to which nothing was written.
    pub fn new() -> (r: DeterministicHasher)
        ensures
            r.state() == 0,
    {
        DeterministicHasher { state: 0 }
    }

    /// The digest of what was written.
    pub fn finish(&self) -> (r: u64)
        ensures
            r == avalanched(self.state()),
    {
        avalanche(self.state)
    }

    /// Writes a word.
    pub fn write_u64(&mut self, value: u64)
        ensures
            final(self).state() == mixed(old(self).state(), seq![value]),
            final(self).state() == mixed_word(old(self).state(), value),
    {
        proof {
            lemma_mixed_one(self.state, value);
        }
        self.state = mix_hash_word(self.state, value);
    }

    /// Writes an integer as two's complement.
    pub fn write_i64(&mut self, value: i64)
        ensures
            final(self).state() == mixed(
                old(self).state(),
                seq![bytes::unsigned_64(value) as u64],
            ),
    {
        self.write_u64(to_unsigned_64(value));
    }

    /// Writes bytes.
    pub fn write(&mut self, data: &[u8])
        ensures
            final(self).state() == mixed(old(self).state(), byte_words(data@)),
    {
        let ghost start = self.state;
        let ghost all = byte_words(data@);
        let ghost mut done = Seq::<u64>::empty();
        let total: usize = data.len();
        let mut i: usize = 0;
        proof {
            assert(data@.skip(0) =~= data@);
            assert(done + byte_words(data@.skip(0)) =~= all);
        }
        while total - i >= 8
            invariant
                i <= total,
                total == data@.len(),
                all == byte_words(data@),
                done + byte_words(data@.skip(i as int)) == all,
                self.state == mixed(start, done),
            decreases total - i,
        {
            let chunk = part(data, i, i + 8);
            let word: u64 = get_le(chunk, 8);
            self.write_u64(word);
            proof {
                let rest = data@.skip(i as int);
                assert(rest.take(8) =~= chunk@.take(8));
                assert(rest.skip(8) =~= data@.skip(i + 8));
                lemma_mixed_concat(start, done, seq![word]);
                assert(done + (seq![word] + byte_words(data@.skip(i + 8))) =~= (done + seq![word])
                    + byte_words(data@.skip(i + 8)));
                done = done + seq![word];
            }
            i = i + 8;
        }
        let left: usize = total - i;
        if left > 0 {
            let chunk = part(data, i, total);
            let tail: u64 = get_le(chunk, left);
            let word: u64 = tail ^ (left as u64);
            self.write_u64(word);
            proof {
                assert(chunk@.take(left as int) =~= data@.skip(i as int));
                lemma_mixed_concat(start, done, seq![word]);
            }
        } else {
            assert(done + Seq::<u64>::empty() =~= done);
        }
    }

    /// Writes a text.
    fn write_str(&mut self, text: &str)
        ensures
            final(self).state() == mixed(
                old(self).state(),
                byte_words(vstd::utf8::encode_utf8(text@)) + seq![255u64],
            ),
    {
        let ghost start = self.state;
        self.write(text.as_bytes());
        self.write_u64(255);
        proof {
            lemma_mixed_concat(start, byte_words(vstd::utf8::encode_utf8(text@)), seq![255u64]);
        }
    }
}

/// A numeric key: an integer, or the pattern of a float that is none.
#[derive(Debug, Clone, Copy, PartialEq, Eq, Structural)]
pub enum NumericJoinKey {
    Integer(i64),
    Float(u64),
}

/// The key that the number of a 64-bit pattern is.
pub fn join_numeric_float(bits: u64) -> (r: NumericJoinKey)
    ensures
        r == match value::integral_value(bits) {
            Some(v) => NumericJoinKey::Integer(v as i64),
            None => NumericJoinKey::Float(value::normalized(bits)),
        },
{
    match exact_integral_i64_from_f64(bits) {
        Some(integer) => NumericJoinKey::Integer(integer),
        None => NumericJoinKey::Float(normalized_f64_bits(bits)),
    }
}

fn hash_join_numeric_float(bits: u64, hasher: &mut DeterministicHasher)
    ensures
        final(hasher).state() == mixed(old(hasher).state(), float_words(bits)),
{
    let ghost start = hasher.state;
    match join_numeric_float(bits) {
        NumericJoinKey::Integer(integer) => hash_join_integer(integer, hasher),
        NumericJoinKey::Float(pattern) => {
            hasher.write_u64(2);
            hasher.write_u64(pattern);
            proof {
                lemma_mixed_concat(start, seq![2u64], seq![pattern]);
                assert(seq![2u64] + seq![pattern] =~= seq![2u64, pattern]);
            }
        },
    }
}

fn hash_join_integer(v: i64, hasher: &mut DeterministicHasher)
    ensures
        final(hasher).state() == mixed(old(hasher).state(), int_words(v as int)),
{
    let ghost start = hasher.state;
    hasher.write_u64(0);
    hasher.write_i64(v);
    proof {
        let w = bytes::unsigned_64(v) as u64;
        lemma_mixed_concat(start, seq![0u64], seq![w]);
        assert(seq![0u64] + seq![w] =~= seq![0u64, w]);
    }
}

/// Writes a key.
pub fn hash_join_value(value: &Data, hasher: &mut DeterministicHasher)
    ensures
        final(hasher).state() == mixed(old(hasher).state(), value_words(value@)),
{
    let ghost start = hasher.state;
    match value {
        Data::Int32(v) => hash_join_integer(*v as i64, hasher),
        Data::Int64(v) => hash_join_integer(*v, hasher),
        Data::Float32(v) => hash_join_numeric_float(number::widen(*v), hasher),
        Data::Float64(v) => hash_join_numeric_float(*v, hasher),
        Data::String(v) => {
            hasher.write_u64(1);
            hasher.write_str(v.as_str());
            proof {
                let words = byte_words(vstd::utf8::encode_utf8(v@));
                lemma_mixed_concat(start, seq![1u64], words + seq![255u64]);
                assert(seq![1u64] + (words + seq![255u64]) =~= seq![1u64] + words + seq![255u64]);
            }
        },
    }
}

/// The digest of the key columns of a row, or [`DbError::BadIndex`] where one
/// of them is not there.
pub fn join_key_digest_for_row(row: &Row, key_indexes: &Vec<usize>) -> (r: Result<u64, DbError>)
    ensures
        r == if keys_below(row::as_ints(key_indexes@), row@.len() as int) {
            Ok::<u64, DbError>(digest(row@, row::as_ints(key_indexes@)))
        } else {
            Err(DbError::BadIndex)
        },
{
    let ghost keys = row::as_ints(key_indexes@);
    let mut hasher = DeterministicHasher::new();
    hasher.write_u64(key_indexes.len() as u64);
    let ghost first = seq![keys.len() as u64];
    let mut i: usize = 0;
    proof {
        assert(keys.take(0) =~= Seq::<int>::empty());
        assert(first + row_words(row@, keys.take(0)) =~= first);
    }
    while i < key_indexes.len()
        invariant
            i <= key_indexes@.len(),
            keys == row::as_ints(key_indexes@),
            first == seq![keys.len() as u64],
            hasher.state == mixed(0, first + row_words(row@, keys.take(i as int))),
            forall|k: int| 0 <= k < i ==> 0 <= #[trigger] keys[k] < row@.len(),
        decreases key_indexes@.len() - i,
    {
        match row.get(key_indexes[i]) {
            Some(value) => {
                hash_join_value(value, &mut hasher);
                proof {
                    assert(keys.take(i + 1).drop_last() =~= keys.take(i as int));
                    let front = row_words(row@, keys.take(i as int));
                    lemma_mixed_concat(0, first + front, value_words(value@));
                    assert((first + front) + value_words(value@) =~= first + (front + value_words(
                        value@,
                    )));
                }
            },
            None => {
                assert(!(0 <= keys[i as int] < row@.len()));
                return Err(DbError::BadIndex);
            },
        }
        i = i + 1;
    }
    assert(keys.take(i as int) =~= keys);
    Ok(hasher.finish())
}

/// The partition of a digest at a depth.
pub open spec fn partition_of(d: u64, depth: int) -> int {
    let shift = (depth * 3) as u64;
    ((d >> shift) & 7) as int
}

/// The partition of a digest at a depth.
pub fn partition_index_for_digest(digest: u64, depth: u32) -> (r: usize)
    requires
        depth < DIGEST_DEPTHS,
    ensures
        r == partition_of(digest, depth as int),
        r < PARTITION_FANOUT,
{
    let shift: u64 = (depth * PARTITION_FANOUT_BITS) as u64;
    let low: u64 = (digest >> shift) & 7;
    proof {
        let x = digest >> shift;
        assert(x & 7 < 8) by (bit_vector);
    }
    low as usize
}

/// The size of a join filter: a part of the working memory, within bounds.
pub fn join_filter_budget(memory_limit: usize) -> (r: usize)
    ensures
        r == crate::executor::larger(
            crate::executor::smaller(
                crate::executor::working_memory(memory_limit as int) / 32,
                JOIN_FILTER_MAX_BYTES as int,
            ),
            JOIN_FILTER_MIN_BYTES as int,
        ),
        JOIN_FILTER_MIN_BYTES <= r <= JOIN_FILTER_MAX_BYTES,
{
    max_of(min_of(effective_memory(memory_limit) / 32, JOIN_FILTER_MAX_BYTES), JOIN_FILTER_MIN_BYTES)
}

/// The two places of a digest in a filter.
#[verifier::opaque]
pub open spec fn bloom_places(d: u64, mask: usize) -> (usize, usize) {
    (
        (avalanched(d ^ BLOOM_HASH_SEED_A) as usize) & mask,
        (avalanched(d.wrapping_mul(BLOOM_HASH_SEED_B) ^ JOIN_HASH_SEED) as usize) & mask,
    )
}

fn bloom_hashes(first: u64, bit_mask: usize) -> (r: (usize, usize))
    ensures
        r == bloom_places(first, bit_mask),
        r.0 <= bit_mask,
        r.1 <= bit_mask,
{
    let second: u64 = avalanche(first ^ BLOOM_HASH_SEED_A);
    let third: u64 = avalanche(first.wrapping_mul(BLOOM_HASH_SEED_B) ^ JOIN_HASH_SEED);
    let a: usize = #[verifier::truncate]
    (second as usize);
    let b: usize = #[verifier::truncate]
    (third as usize);
    assert(a & bit_mask <= bit_mask) by (bit_vector);
    assert(b & bit_mask <= bit_mask) by (bit_vector);
    reveal(bloom_places);
    (a & bit_mask, b & bit_mask)
}

/// Whether a bit of a word is set.
pub open spec fn bit_set(word: u64, bit: u64) -> bool {
    word & (1u64 << bit) != 0
}

proof fn lemma_set_bit(word: u64, bit: u64)
    requires
        bit < 64,
    ensures
        forall|other: u64|
            other < 64 ==> #[trigger] bit_set(word | (1u64 << bit), other) == (bit_set(
                word,
                other,
            ) || other == bit),
{
    assert forall|other: u64| other < 64 implies #[trigger] bit_set(
        word | (1u64 << bit),
        other,
    ) == (bit_set(word, other) || other == bit) by {
        assert(((word | (1u64 << bit)) & (1u64 << other) != 0) == (word & (1u64 << other) != 0
            || other == bit)) by (bit_vector)
            requires
                bit < 64,
                other < 64,
        ;
    }
}

/// A set of digests that may answer yes for a digest that is not in it, and
/// never answers no for one that is.
pub struct JoinBloomFilter {
    words: Vec<u64>,
    bit_mask: usize,
    members: Ghost<Set<u64>>,
}

impl JoinBloomFilter {
    /// The digests that were put in.
    pub closed spec fn members(self) -> Set<u64> {
        self.members@
    }

    /// The last place.
    pub closed spec fn mask(self) -> usize {
        self.bit_mask
    }

    /// A place is marked.
    pub closed spec fn bit(self, place: int) -> bool {
        bit_set(self.words@[place / 64], (place % 64) as u64)
    }

    /// The filter answers yes for a digest: both of its places are marked.
    pub open spec fn shows(self, d: u64) -> bool {
        let (a, b) = bloom_places(d, self.mask());
        self.bit(a as int) && self.bit(b as int)
    }

    /// Every digest that was put in is seen.
    pub closed spec fn wf(self) -> bool {
        &&& self.words@.len() > 0
        &&& self.bit_mask + 1 == 64 * self.words@.len()
        &&& forall|d: u64| self.members@.contains(d) ==> #[trigger] self.shows(d)
    }

    /// What was put in is seen.
    pub proof fn lemma_shows(self)
        requires
            self.wf(),
        ensures
            forall|d: u64| self.members().contains(d) ==> #[trigger] self.shows(d),
    {
    }

    /// An empty filter of at least the given size in bytes: its places are the
    /// least power of two, from 64 on, that is not less.
    pub fn new(target_bytes: usize) -> (r: JoinBloomFilter)
        requires
            8 * target_bytes <= usize::MAX / 2 + 1,
        ensures
            r.wf(),
            r.members() == Set::<u64>::empty(),
            forall|p: int| 0 <= p <= r.mask() ==> !#[trigger] r.bit(p),
            forall|d: u64| !#[trigger] r.shows(d),
            r.mask() + 1 >= 8 * target_bytes,
            exists|k: nat|
                r.mask() + 1 == 64 * #[trigger] pow2(k) && (k == 0 || 32 * pow2(k) < 8
                    * target_bytes),
    {
        let bits: usize = target_bytes * 8;
        let mut count: usize = 1;
        let ghost mut k: nat = 0;
        proof {
            lemma2_to64();
        }
        while count * 64 < bits
            invariant
                1 <= count,
                count * 64 <= usize::MAX,
                bits <= usize::MAX / 2 + 1,
                count == pow2(k),
                k == 0 || count * 32 < bits,
            decreases bits - count,
        {
            count = count * 2;
            proof {
                lemma_pow2_unfold(k + 1);
                k = k + 1;
            }
        }
        let filter = JoinBloomFilter {
            words: vec![0u64; count],
            bit_mask: count * 64 - 1,
            members: Ghost(Set::empty()),
        };
        proof {
            assert forall|p: int| 0 <= p <= filter.mask() implies !#[trigger] filter.bit(p) by {
                assert(filter.words@[p / 64] == 0);
                let one = 1u64 << ((p % 64) as u64);
                assert(0u64 & one == 0) by (bit_vector);
            }
            assert forall|d: u64| !#[trigger] filter.shows(d) by {
                let (a, b) = bloom_places(d, filter.bit_mask);
                lemma_masked(d, filter.bit_mask);
                assert(!filter.bit(a as int));
            }
            assert(filter.mask() + 1 == 64 * pow2(k));
        }
        filter
    }

    /// Puts a digest in.
    pub fn insert(&mut self, digest: u64)
        requires
            old(self).wf(),
        ensures
            final(self).wf(),
            final(self).members() == old(self).members().insert(digest),
            final(self).mask() == old(self).mask(),
            forall|p: int|
                0 <= p <= old(self).mask() ==> #[trigger] final(self).bit(p) == (old(self).bit(p)
                    || p == bloom_places(digest, old(self).mask()).0 || p == bloom_places(
                    digest,
                    old(self).mask(),
                ).1),
            final(self).shows(digest),
            forall|d: u64| old(self).shows(d) ==> #[trigger] final(self).shows(d),
    {
        let (bit_a, bit_b) = bloom_hashes(digest, self.bit_mask);
        self.set_bit(bit_a);
        let ghost one = *self;
        self.set_bit(bit_b);
        let ghost two = *self;
        proof {
            self.members@ = self.members@.insert(digest);
            let before = *old(self);
            assert forall|p: int| 0 <= p <= before.mask() implies #[trigger] self.bit(p) == (
            before.bit(p) || p == bit_a || p == bit_b) by {
                assert(self.bit(p) == two.bit(p));
                assert(one.bit(p) == (before.bit(p) || p == bit_a));
            }
            assert forall|d: u64| before.shows(d) || d == digest implies #[trigger] self.shows(
                d,
            ) by {
                let (a, b) = bloom_places(d, self.bit_mask);
                lemma_masked(d, self.bit_mask);
                assert(self.bit(a as int) && self.bit(b as int));
            }
            assert forall|d: u64| self.members@.contains(d) implies #[trigger] self.shows(d) by {
                if d != digest {
                    assert(before.shows(d));
                }
            }
        }
    }

    /// Whether the digest may have been put in.
    pub fn may_contain(&self, digest: u64) -> (r: bool)
        requires
            self.wf(),
        ensures
            r == self.shows(digest),
            self.members().contains(digest) ==> r,
    {
        let (bit_a, bit_b) = bloom_hashes(digest, self.bit_mask);
        assert(self.members@.contains(digest) ==> self.shows(digest));
        self.get_bit(bit_a) && self.get_bit(bit_b)
    }

    fn set_bit(&mut self, bit: usize)
        requires
            bit < 64 * old(self).words@.len(),
        ensures
            final(self).bit_mask == old(self).bit_mask,
            final(self).members == old(self).members,
            final(self).words@.len() == old(self).words@.len(),
            forall|p: int|
                0 <= p < 64 * old(self).words@.len() ==> #[trigger] final(self).bit(p) == (old(
                    self).bit(p) || p == bit),
    {
        let word_index: usize = bit / 64;
        let bit_index: u64 = (bit % 64) as u64;
        let word: u64 = self.words[word_index];
        proof {
            lemma_set_bit(word, bit_index);
        }
        self.words.set(word_index, word | (1u64 << bit_index));
        proof {
            assert forall|p: int| 0 <= p < 64 * old(self).words@.len() implies #[trigger] self.bit(
                p,
            ) == (old(self).bit(p) || p == bit) by {
                let other = (p % 64) as u64;
                if p / 64 == word_index {
                    assert(bit_set(word | (1u64 << bit_index), other) == (bit_set(word, other)
                        || other == bit_index));
                }
            }
        }
    }

    fn get_bit(&self, bit: usize) -> (r: bool)
        requires
            bit < 64 * self.words@.len(),
        ensures
            r == self.bit(bit as int),
    {
        let word_index: usize = bit / 64;
        let bit_index: u64 = (bit % 64) as u64;
        (self.words[word_index] & (1u64 << bit_index)) != 0
    }
}

proof fn lemma_masked(d: u64, mask: usize)
    ensures
        bloom_places(d, mask).0 <= mask,
        bloom_places(d, mask).1 <= mask,
{
    reveal(bloom_places);
    let a = avalanched(d ^ BLOOM_HASH_SEED_A) as usize;
    let b = avalanched(d.wrapping_mul(BLOOM_HASH_SEED_B) ^ JOIN_HASH_SEED) as usize;
    assert(a & mask <= mask) by (bit_vector);
    assert(b & mask <= mask) by (bit_vector);
}

/// Groups of rows one behind the other.
pub open spec fn flat(groups: Seq<Seq<RowView>>) -> Seq<RowView>
    decreases groups.len(),
{
    if groups.len() == 0 {
        Seq::empty()
    } else {
        flat(groups.drop_last()) + groups.last()
    }
}

/// One group more.
pub proof fn lemma_flat_push(groups: Seq<Seq<RowView>>, group: Seq<RowView>)
    ensures
        flat(groups.push(group)) == flat(groups) + group,
{
    assert(groups.push(group).drop_last() =~= groups);
}

/// The rows of a group are among all.
pub proof fn lemma_flat_within(groups: Seq<Seq<RowView>>, k: int)
    requires
        0 <= k < groups.len(),
    ensures
        bag::within(groups[k], flat(groups)),
{
    reveal(bag::within);
    assert forall|m: int| 0 <= m < groups[k].len() implies flat(groups).contains(
        #[trigger] groups[k][m],
    ) by {
        let at = lemma_flat_member(groups, k, m);
        assert(flat(groups)[at] == groups[k][m]);
    }
}

/// The rows of groups that are each among others are all among them.
pub proof fn lemma_groups_within(groups: Seq<Seq<RowView>>, all: Seq<RowView>)
    requires
        forall|k: int| 0 <= k < groups.len() ==> bag::within(#[trigger] groups[k], all),
    ensures
        bag::within(flat(groups), all),
    decreases groups.len(),
{
    reveal(bag::within);
    if groups.len() > 0 {
        let front = groups.drop_last();
        assert forall|k: int| 0 <= k < front.len() implies bag::within(
            #[trigger] front[k],
            all,
        ) by {
            assert(front[k] == groups[k]);
        }
        lemma_groups_within(front, all);
        let last = groups.last();
        assert(bag::within(groups[groups.len() - 1], all));
        assert forall|i: int| 0 <= i < flat(groups).len() implies all.contains(
            #[trigger] flat(groups)[i],
        ) by {
            if i < flat(front).len() {
                assert(all.contains(flat(front)[i]));
            } else {
                assert(all.contains(last[i - flat(front).len()]));
            }
        }
    }
}

/// A row of a group stands somewhere among all.
pub proof fn lemma_flat_member(groups: Seq<Seq<RowView>>, k: int, m: int) -> (at: int)
    requires
        0 <= k < groups.len(),
        0 <= m < groups[k].len(),
    ensures
        0 <= at < flat(groups).len(),
        flat(groups)[at] == groups[k][m],
    decreases groups.len(),
{
    let front = groups.drop_last();
    if k < front.len() {
        assert(front[k] == groups[k]);
        lemma_flat_member(front, k, m)
    } else {
        flat(front).len() as int + m
    }
}

/// A row more in one of the groups is a row more among all.
proof fn lemma_flat_update(groups: Seq<Seq<RowView>>, k: int, x: RowView)
    requires
        0 <= k < groups.len(),
    ensures
        bag::bag(flat(groups.update(k, groups[k].push(x)))) == bag::bag(flat(groups)).insert(x),
    decreases groups.len(),
{
    let more = groups.update(k, groups[k].push(x));
    let front = flat(groups.drop_last());
    let last = groups.last();
    if k == groups.len() - 1 {
        assert(more.drop_last() =~= groups.drop_last());
        assert(front + last.push(x) =~= (front + last).push(x));
        bag::lemma_bag_push(front + last, x);
    } else {
        lemma_flat_update(groups.drop_last(), k, x);
        assert(more.drop_last() =~= groups.drop_last().update(k, groups.drop_last()[k].push(x)));
        bag::lemma_bag_concat(front, last);
        bag::lemma_bag_concat(flat(more.drop_last()), last);
        assert(bag::bag(front).insert(x).add(bag::bag(last)) =~= bag::bag(front).add(
            bag::bag(last),
        ).insert(x));
    }
}

/// Rows in their stored form.
pub open spec fn stored(rows: Seq<Box<[u8]>>) -> Seq<Seq<u8>> {
    Seq::new(rows.len(), |i: int| rows[i]@)
}

/// What std's `HashMap::capacity` answers: room for at least the entries that
/// are there. How much more is the allocator's choice, and not said.
#[verifier::external_body]
fn map_capacity(map: &HashMap<u64, usize>) -> (r: usize)
    ensures
        r >= map@.len(),
{
    map.capacity()
}

/// Makes room in a map for one entry more by std's `HashMap::try_reserve`, which
/// leaves the entries as they are. Whether there is room is not said.
#[verifier::external_body]
fn map_try_reserve(map: &mut HashMap<u64, usize>) -> (r: bool)
    ensures
        final(map)@ == old(map)@,
{
    map.try_reserve(1).is_ok()
}

/// The bytes of a vector without spare room, by std's `Vec::into_boxed_slice`,
/// which keeps the elements.
#[verifier::external_body]
fn boxed(bytes: Vec<u8>) -> (r: Box<[u8]>)
    ensures
        r@ == bytes@,
{
    bytes.into_boxed_slice()
}

/// The bytes that a table is held to use once a stored row was put in, as far as
/// a word holds them: the row and its place, and for the first row under a
/// digest the digest and the places of its rows.
pub open spec fn used_after(used: usize, row_bytes: nat, first: bool) -> nat {
    let place = vstd::layout::size_of::<Box<[u8]>>();
    row::saturated(
        used as nat + row_bytes + place + if first {
            vstd::layout::size_of::<u64>() + vstd::layout::size_of::<Vec<Box<[u8]>>>() + place
        } else {
            0
        },
    )
}

/// The bytes that a table uses once a stored row was put in, or none where they
/// are above the budget together with what the table has reserved.
pub fn table_room(
    used: usize,
    row_bytes: usize,
    first: bool,
    reserved: usize,
    budget: usize,
) -> (r: Option<usize>)
    ensures
        match r {
            None => row::saturated(used_after(used, row_bytes as nat, first) + reserved as nat)
                > budget,
            Some(after) => {
                &&& after == used_after(used, row_bytes as nat, first)
                &&& row::saturated(after as nat + reserved as nat) <= budget
            },
        },
{
    let place: usize = core::mem::size_of::<Box<[u8]>>();
    let bucket: usize = if first {
        core::mem::size_of::<u64>().saturating_add(
            core::mem::size_of::<Vec<Box<[u8]>>>(),
        ).saturating_add(place)
    } else {
        0
    };
    let after: usize = used.saturating_add(row_bytes).saturating_add(place).saturating_add(bucket);
    if after.saturating_add(reserved) > budget {
        None
    } else {
        Some(after)
    }
}

/// The bytes that a table has reserved, as far as a word holds them, by the room
/// for digests and the room for rows in all groups: a digest takes its entry
/// twice, a row its place.
pub open spec fn reserved_by(slots: nat, rooms: nat) -> nat {
    row::saturated(
        2 * (slots * vstd::layout::size_of::<(u64, Vec<Box<[u8]>>)>()) + rooms
            * vstd::layout::size_of::<Box<[u8]>>(),
    )
}

/// The bytes that a table has reserved, by the room for digests and the room for
/// rows in all groups.
pub fn table_reserved(slots: usize, rooms: usize) -> (r: usize)
    ensures
        r == reserved_by(slots as nat, rooms as nat),
{
    let entry: usize = core::mem::size_of::<(u64, Vec<Box<[u8]>>)>();
    let place: usize = core::mem::size_of::<Box<[u8]>>();
    saturating_product(saturating_product(slots, entry), 2).saturating_add(
        saturating_product(rooms, place),
    )
}

/// The number of stored rows in the first `n` buckets.
spec fn count_all(buckets: Seq<Vec<Box<[u8]>>>, n: int) -> nat
    decreases n,
{
    if n <= 0 {
        0
    } else {
        count_all(buckets, n - 1) + buckets[n - 1]@.len()
    }
}

/// Stored rows by the digests of their keys.
pub struct JoinHashTable {
    index: HashMap<u64, usize>,
    buckets: Vec<Vec<Box<[u8]>>>,
    digests: Ghost<Seq<u64>>,
    groups: Ghost<Seq<Seq<RowView>>>,
}

impl JoinHashTable {
    /// The rows that were put in under a digest, in the order in which they
    /// were.
    pub closed spec fn rows_for(self, d: u64) -> Seq<RowView> {
        if self.index@.contains_key(d) {
            self.groups@[self.index@[d] as int]
        } else {
            Seq::empty()
        }
    }

    /// All rows.
    pub closed spec fn all_rows(self) -> Seq<RowView> {
        flat(self.groups@)
    }

    /// The table holds the stored forms of the rows.
    pub closed spec fn wf(self) -> bool {
        &&& self.buckets@.len() == self.digests@.len()
        &&& self.buckets@.len() == self.groups@.len()
        &&& forall|d: u64| #[trigger]
            self.index@.contains_key(d) ==> self.index@[d] < self.digests@.len()
                && self.digests@[self.index@[d] as int] == d
        &&& forall|k: int|
            0 <= k < self.digests@.len() ==> self.index@.contains_key(#[trigger] self.digests@[k])
                && self.index@[self.digests@[k]] == k
        &&& forall|k: int|
            0 <= k < self.buckets@.len() ==> stored((#[trigger] self.buckets@[k])@)
                == scratch_run::encodings(self.groups@[k])
        &&& forall|k: int|
            0 <= k < self.groups@.len() ==> (#[trigger] self.groups@[k]).len() > 0
    }

    /// An empty table.
    pub fn new() -> (r: JoinHashTable)
        ensures
            r.wf(),
            r.all_rows() == Seq::<RowView>::empty(),
            forall|d: u64| #[trigger] r.rows_for(d) == Seq::<RowView>::empty(),
    {
        broadcast use vstd::std_specs::hash::group_hash_axioms;

        JoinHashTable {
            index: HashMap::new(),
            buckets: Vec::new(),
            digests: Ghost(Seq::empty()),
            groups: Ghost(Seq::empty()),
        }
    }

    /// The stored rows under a digest, if there are any.
    pub fn get(&self, digest: u64) -> (r: Option<&Vec<Box<[u8]>>>)
        requires
            self.wf(),
        ensures
            match r {
                Some(rows) => {
                    &&& self.rows_for(digest).len() > 0
                    &&& stored(rows@) == scratch_run::encodings(self.rows_for(digest))
                },
                None => self.rows_for(digest) == Seq::<RowView>::empty(),
            },
    {
        broadcast use vstd::std_specs::hash::group_hash_axioms;

        match self.index.get(&digest) {
            Some(k) => Some(&self.buckets[*k]),
            None => None,
        }
    }

    /// The stored rows, in groups of one digest each.
    pub fn groups(&self) -> (r: &Vec<Vec<Box<[u8]>>>)
        requires
            self.wf(),
        ensures
            exists|groups: Seq<Seq<RowView>>| #[trigger]
                flat(groups) == self.all_rows() && groups.len() == r@.len() && forall|k: int|
                    0 <= k < r@.len() ==> stored((#[trigger] r@[k])@) == scratch_run::encodings(
                        groups[k],
                    ),
    {
        assert(flat(self.groups@) == self.all_rows());
        &self.buckets
    }

    /// How many digests there are.
    pub closed spec fn digest_count(self) -> nat {
        self.index@.len()
    }

    /// As many rows are stored as were put in.
    proof fn lemma_count(self, n: int)
        requires
            self.wf(),
            0 <= n <= self.groups@.len(),
        ensures
            count_all(self.buckets@, n) == flat(self.groups@.take(n)).len(),
        decreases n,
    {
        if n > 0 {
            self.lemma_count(n - 1);
            assert(self.groups@.take(n).drop_last() =~= self.groups@.take(n - 1));
            let k = n - 1;
            assert(stored(self.buckets@[k]@) == scratch_run::encodings(self.groups@[k]));
            assert(stored(self.buckets@[k]@).len() == scratch_run::encodings(
                self.groups@[k],
            ).len());
        }
    }

    /// An estimate of the memory that the table has reserved, by the room that the
    /// allocator gave: enough for what is there. How much more is not said.
    fn hash_map_reserved_bytes(&self) -> (r: usize)
        requires
            self.wf(),
        ensures
            exists|slots: usize, rooms: usize|
                slots >= self.digest_count() && rooms >= row::saturated(self.all_rows().len())
                    && r == #[trigger] reserved_by(slots as nat, rooms as nat),
            r >= reserved_by(self.digest_count(), row::saturated(self.all_rows().len())),
    {
        let slots: usize = map_capacity(&self.index);
        let count: usize = self.buckets.len();
        let mut rooms: usize = 0;
        let mut i: usize = 0;
        while i < count
            invariant
                i <= count,
                count == self.buckets@.len(),
                rooms >= row::saturated(count_all(self.buckets@, i as int)),
            decreases count - i,
        {
            rooms = rooms.saturating_add(vec_capacity(&self.buckets[i]));
            i = i + 1;
        }
        proof {
            self.lemma_count(count as int);
            assert(self.groups@.take(count as int) =~= self.groups@);
            let n = self.index@.len();
            let m = row::saturated(self.all_rows().len());
            let entry = vstd::layout::size_of::<(u64, Vec<Box<[u8]>>)>();
            let place = vstd::layout::size_of::<Box<[u8]>>();
            assert(n * entry <= slots * entry && m * place <= rooms * place) by (nonlinear_arith)
                requires
                    n <= slots,
                    m <= rooms,
            ;
        }
        table_reserved(slots, rooms)
    }

    /// Puts a stored row in under a digest, unless memory in use would then be
    /// above the budget. What the allocator has reserved counts too, so which of
    /// the rows that are within the budget fit is not said.
    pub fn insert(
        &mut self,
        digest: u64,
        encoded: Vec<u8>,
        row: Ghost<RowView>,
        used_bytes: &mut usize,
        budget: usize,
    ) -> (r: bool)
        requires
            old(self).wf(),
            encoded@ == row::encoded_row(row@),
        ensures
            final(self).wf(),
            r ==> {
                &&& forall|d: u64| #[trigger]
                    final(self).rows_for(d) == if d == digest {
                        old(self).rows_for(d).push(row@)
                    } else {
                        old(self).rows_for(d)
                    }
                &&& bag::bag(final(self).all_rows()) == bag::bag(old(self).all_rows()).insert(row@)
                &&& *final(used_bytes) <= budget
                &&& *final(used_bytes) == used_after(
                    *old(used_bytes),
                    encoded@.len(),
                    old(self).rows_for(digest).len() == 0,
                )
                &&& row::saturated(
                    *final(used_bytes) as nat + reserved_by(
                        old(self).digest_count(),
                        row::saturated(old(self).all_rows().len()),
                    ),
                ) <= budget
            },
            !r ==> {
                &&& forall|d: u64| #[trigger] final(self).rows_for(d) == old(self).rows_for(d)
                &&& final(self).all_rows() == old(self).all_rows()
                &&& *final(used_bytes) == *old(used_bytes)
            },
    {
        broadcast use vstd::std_specs::hash::group_hash_axioms;

        let found: Option<usize> = match self.index.get(&digest) {
            Some(k) => Some(*k),
            None => None,
        };
        match found {
            Some(k) => {
                let full: bool = self.buckets[k].len() == vec_capacity(&self.buckets[k]);
                if full {
                    let mut rows: Vec<Box<[u8]>> = Vec::new();
                    self.buckets.set_and_swap(k, &mut rows);
                    let reserved: bool = rows.try_reserve(1).is_ok();
                    self.buckets.set_and_swap(k, &mut rows);
                    assert(self.buckets@ =~= self.buckets@.update(k as int, self.buckets@[k as int]));
                    if !reserved {
                        return false;
                    }
                }
            },
            None => {
                if !map_try_reserve(&mut self.index) || self.buckets.try_reserve(1).is_err() {
                    return false;
                }
            },
        }
        let first: bool = found.is_none();
        let reserved: usize = self.hash_map_reserved_bytes();
        let used: usize = match table_room(*used_bytes, encoded.len(), first, reserved, budget) {
            Some(used) => used,
            None => {
                return false;
            },
        };
        let encoded = boxed(encoded);
        let ghost before = *self;
        match found {
            Some(k) => {
                let ghost rows = self.buckets@[k as int]@;
                self.buckets[k].push(encoded);
                proof {
                    let group = self.groups@[k as int];
                    self.groups@ = self.groups@.update(k as int, group.push(row@));
                    lemma_flat_update(before.groups@, k as int, row@);
                    assert(self.buckets@[k as int]@ == rows.push(encoded));
                    assert(stored(rows) == scratch_run::encodings(group));
                    assert(stored(rows.push(encoded)) =~= stored(rows).push(encoded@));
                    assert(scratch_run::encodings(group.push(row@)) =~= scratch_run::encodings(
                        group,
                    ).push(row::encoded_row(row@)));
                }
            },
            None => {
                let k: usize = self.buckets.len();
                let mut rows: Vec<Box<[u8]>> = Vec::new();
                rows.push(encoded);
                self.buckets.push(rows);
                self.index.insert(digest, k);
                proof {
                    self.digests@ = self.digests@.push(digest);
                    self.groups@ = self.groups@.push(seq![row@]);
                    assert(self.groups@.drop_last() =~= before.groups@);
                    assert(flat(before.groups@) + seq![row@] =~= flat(before.groups@).push(row@));
                    bag::lemma_bag_push(flat(before.groups@), row@);
                    assert(stored(rows@) =~= scratch_run::encodings(seq![row@]));
                    assert(Seq::<RowView>::empty().push(row@) =~= seq![row@]);
                }
            },
        }
        *used_bytes = used;
        true
    }
}

} // verus!
