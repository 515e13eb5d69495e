//! How rows are found by their keys.

use vstd::arithmetic::div_mod::*;
use vstd::arithmetic::power2::*;
use vstd::prelude::*;

use crate::data::DataValue;
use crate::executor::hash;
use crate::executor::value;
use crate::laws::numbers;
use crate::laws::numbers::{finite, minus, worth};
use crate::laws::storage;
use crate::laws::values;
use crate::number;
use crate::number::Order;
use crate::query::ComparisionOperator;
use crate::semantics::RowView;

verus! {

/// Rows whose keys are equal, whatever the types of their columns, have one digest.
pub proof fn law_equal_keys(a: RowView, ka: Seq<int>, b: RowView, kb: Seq<int>)
    requires
        ka.len() == kb.len(),
        forall|i: int|
            0 <= i < ka.len() ==> values::answers(
                a[#[trigger] ka[i]],
                ComparisionOperator::EQ,
                b[kb[i]],
                true,
            ),
    ensures
        hash::digest(a, ka) == hash::digest(b, kb),
        hash::keys_equal(a, ka, b, kb),
{
    assert forall|i: int| 0 <= i < ka.len() implies value::order(
        a[#[trigger] ka[i]],
        b[kb[i]],
    ) == Some(Order::Equal) by {
        assert(values::answers(a[ka[i]], ComparisionOperator::EQ, b[kb[i]], true));
    }
    hash::lemma_equal_digests(a, ka, b, kb);
}

/// The bits of a float stand for an integer of 64 bits just where it is one, as far
/// as its size is below 2^128. Otherwise they stand for themselves, both zeros as
/// one.
pub proof fn law_integral_floats(bits: u64, v: int)
    requires
        finite(bits),
        numbers::gap(worth(bits), 0) < pow2(1202),
    ensures
        value::integral_value(bits) == Some(v) <==> i64::MIN <= v <= i64::MAX && worth(bits) == v
            * pow2(1074),
{
    values::law_exact_numbers(DataValue::Float64(bits));
    let m = number::magnitude_64(bits);
    let p = pow2(1074) as int;
    let n = number::scaled_64(m);
    lemma_pow2_pos(1074);
    number::lemma_scaled_64_increases(m, m + 1);
    lemma_pow2_adds(1074, 128);
    let big = pow2(128) as int;
    lemma_pow2_pos(128);
    assert(n < p * big);
    lemma_fundamental_div_mod(n, p);
    let q = n / p;
    assert(0 <= q < big) by (nonlinear_arith)
        requires
            n >= 0,
            p > 0,
            n < p * big,
            q == n / p,
    ;
    assert(q % big == q) by {
        lemma_small_mod(q as nat, big as nat);
    }
    assert(number::exponent_64(m) - 1075 < 128) by {
        let e = number::exponent_64(m);
        if e >= 1203 {
            if e > 1203 {
                lemma_pow2_strictly_increases(1202, (e - 1) as nat);
            }
            let w = pow2((e - 1) as nat) as int;
            let f = number::fraction_64(m);
            assert((0x10_0000_0000_0000 + f) * w >= w) by (nonlinear_arith)
                requires
                    f >= 0,
                    w > 0,
            {
            }
        }
    }
    if n % p == 0 {
        assert(n == p * q);
        let s = if minus(bits) {
            -q
        } else {
            q
        };
        assert(worth(bits) == s * p) by (nonlinear_arith)
            requires
                n == p * q,
                (worth(bits) == n && s == q) || (worth(bits) == -n && s == -q),
        ;
        assert(worth(bits) == v * p ==> v == s) by (nonlinear_arith)
            requires
                worth(bits) == s * p,
                p > 0,
        ;
    } else if worth(bits) == v * p {
        let a = if v < 0 {
            -v
        } else {
            v
        };
        assert(n == a * p) by (nonlinear_arith)
            requires
                worth(bits) == v * p,
                worth(bits) == n || worth(bits) == -n,
                n >= 0,
                p > 0,
                a == (if v < 0 {
                    -v
                } else {
                    v
                }),
        ;
        lemma_mod_multiples_basic(a, p);
    }
}

/// One pattern stands for both zeros, and every other one for itself.
pub proof fn law_zeros(bits: u64)
    ensures
        finite(bits) && worth(bits) == 0 ==> value::normalized(bits) == 0,
        !(finite(bits) && worth(bits) == 0) ==> value::normalized(bits) == bits,
{
    values::law_exact_numbers(DataValue::Float64(bits));
    let m = number::magnitude_64(bits);
    if m > 0 {
        number::lemma_scaled_64_increases(0, m);
    }
    assert(number::scaled_64(0) == 0);
}

/// The words of an integer are a zero and the integer modulo 2^64, whatever its
/// width, and those of a float that is one are the same. Those of another float are
/// a two and its bits.
pub proof fn law_words_of_numbers(v: DataValue)
    ensures
        v matches DataValue::Int32(x) ==> hash::value_words(v) == seq![
            0u64,
            (x as int % 0x1_0000_0000_0000_0000) as u64,
        ],
        v matches DataValue::Int64(x) ==> hash::value_words(v) == seq![
            0u64,
            (x as int % 0x1_0000_0000_0000_0000) as u64,
        ],
        v matches DataValue::Float64(bits) ==> {
            &&& value::integral_value(bits) matches Some(n) ==> hash::value_words(v) == seq![
                0u64,
                (n % 0x1_0000_0000_0000_0000) as u64,
            ]
            &&& value::integral_value(bits) is None ==> hash::value_words(v) == seq![
                2u64,
                value::normalized(bits),
            ]
        },
        v matches DataValue::Float32(bits) ==> hash::value_words(v) == hash::value_words(
            DataValue::Float64(number::widened(bits) as u64),
        ),
{
}

/// The words of a text are a one, its bytes by eight, the lower ones first, what is
/// left of them with their number mixed in, and a last word.
pub proof fn law_words_of_texts(s: Seq<char>, bytes: Seq<u8>, rest: Seq<u8>)
    requires
        bytes.len() == 8,
    ensures
        hash::value_words(DataValue::Text(s)) == seq![1u64] + hash::byte_words(
            vstd::utf8::encode_utf8(s),
        ) + seq![255u64],
        hash::byte_words(Seq::empty()) == Seq::<u64>::empty(),
        hash::byte_words(bytes + rest) == seq![
            (bytes[0] + bytes[1] * 0x100 + bytes[2] * 0x1_0000 + bytes[3] * 0x100_0000 + bytes[4]
                * 0x1_0000_0000 + bytes[5] * 0x100_0000_0000 + bytes[6] * 0x1_0000_0000_0000
                + bytes[7] * 0x100_0000_0000_0000) as u64,
        ] + hash::byte_words(rest),
        0 < rest.len() < 8 ==> hash::byte_words(rest) == seq![
            (crate::bytes::le_value(rest) as u64) ^ (rest.len() as u64),
        ],
{
    let all = bytes + rest;
    assert(all.take(8) =~= bytes);
    assert(all.skip(8) =~= rest);
    storage::law_bytes_are_summed(bytes);
}

/// The words of a row are those of its keys, in their order, and its digest mixes
/// them one by one behind the number of the keys.
pub proof fn law_digests(
    row: RowView,
    keys: Seq<int>,
    key: int,
    state: u64,
    words: Seq<u64>,
    word: u64,
)
    ensures
        hash::row_words(row, Seq::empty()) == Seq::<u64>::empty(),
        hash::row_words(row, keys.push(key)) == hash::row_words(row, keys) + hash::value_words(
            row[key],
        ),
        hash::mixed(state, Seq::empty()) == state,
        hash::mixed(state, words.push(word)) == hash::mixed_word(hash::mixed(state, words), word),
        hash::digest(row, keys) == hash::avalanched(
            hash::mixed(0, seq![keys.len() as u64] + hash::row_words(row, keys)),
        ),
{
    assert(keys.push(key).drop_last() =~= keys);
    assert(words.push(word).drop_last() =~= words);
}

/// A digest is in one of eight partitions at each depth: by its lowest three bits
/// first, and then by the next three.
pub proof fn law_partitions(d: u64, depth: int)
    requires
        0 <= depth < 21,
    ensures
        0 <= hash::partition_of(d, depth) < 8,
        hash::partition_of(d, 0) == d % 8,
        hash::partition_of(d, depth + 1) == hash::partition_of(d / 8, depth),
{
    let shift = (depth * 3) as u64;
    let next = ((depth + 1) * 3) as u64;
    assert((d >> 0u64) & 7 == d % 8) by (bit_vector);
    assert((d >> shift) & 7 < 8) by (bit_vector);
    assert((d >> next) & 7 == ((d / 8) >> shift) & 7) by (bit_vector)
        requires
            shift <= 60,
            next == shift + 3,
    ;
}

/// A word is mixed into a state by multiples modulo 2^64, and the outcome is stirred
/// three times: by its upper bits, and by a multiple between.
pub proof fn law_mixing(state: u64, word: u64)
    ensures
        ({
            let all: int = 0x1_0000_0000_0000_0000;
            let part = (word * 0x9E37_79B9_7F4A_7C15) % all;
            let sum = ((state + 0x517C_C1B7_2722_0A95 + part) % all) as u64;
            hash::mixed_word(state, word) == hash::avalanched(sum)
        }),
        ({
            let all: int = 0x1_0000_0000_0000_0000;
            let a = (((state ^ (state >> 30)) * 0xBF58_476D_1CE4_E5B9) % all) as u64;
            let b = (((a ^ (a >> 27)) * 0x94D0_49BB_1331_11EB) % all) as u64;
            hash::avalanched(state) == b ^ (b >> 31)
        }),
{
}

} // verus!
