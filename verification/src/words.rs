//! 64-bit words read as sets: square `i`, or whatever else is counted
//! from 0 to 63, is in the set when bit `i` of the word is set.

use vstd::arithmetic::power2::pow2;
use vstd::bits::{lemma_u64_pow2_no_overflow, lemma_u64_shl_is_mul};
use vstd::prelude::*;
use vstd::std_specs::bits::{axiom_u64_trailing_zeros, u64_trailing_zeros};

verus! {

/// True when `index` names a square and the bit for it is set in `bits`.
pub open spec fn has_bit(bits: u64, index: int) -> bool {
    0 <= index < 64 && (bits >> (index as u64)) & 1 == 1
}

/// The squares whose bits are set in `bits`.
pub open spec fn squares_of(bits: u64) -> Set<int> {
    Set::new(|index: int| has_bit(bits, index))
}

/// All 64 squares.
pub open spec fn all_squares() -> Set<int> {
    Set::new(|index: int| 0 <= index < 64)
}

/// The number of squares below `limit` whose bits are set in `bits`.
pub open spec fn count_below(bits: u64, limit: int) -> nat
    decreases limit,
{
    if limit <= 0 {
        0
    } else {
        count_below(bits, limit - 1) + if has_bit(bits, limit - 1) {
            1nat
        } else {
            0nat
        }
    }
}

/// The squares of `bits` below `limit`, in ascending order.
pub open spec fn members_below(bits: u64, limit: int) -> Seq<int>
    decreases limit,
{
    if limit <= 0 {
        Seq::empty()
    } else if has_bit(bits, limit - 1) {
        members_below(bits, limit - 1).push(limit - 1)
    } else {
        members_below(bits, limit - 1)
    }
}

/// The word whose bits are set at the places below `limit` that `wanted`
/// holds of.
pub open spec fn word_where(wanted: spec_fn(int) -> bool, limit: int) -> u64
    decreases limit,
{
    if limit <= 0 {
        0
    } else if wanted(limit - 1) {
        word_where(wanted, limit - 1) | (1u64 << ((limit - 1) as u64))
    } else {
        word_where(wanted, limit - 1)
    }
}

/// The number of bits that are set in `bits`.
///
/// Calls `u64::count_ones`, which returns the number of ones in the binary
/// representation of the word.
#[verifier::external_body]
pub(crate) fn count_ones(bits: u64) -> (count: u32)
    ensures
        count == count_below(bits, 64),
{
    bits.count_ones()
}

/// How the bitwise operations act on one bit.
pub(crate) proof fn lemma_bitwise(a: u64, b: u64, i: u64)
    by (bit_vector)
    requires
        i < 64,
    ensures
        ((a | b) >> i) & 1 == 1 <==> ((a >> i) & 1 == 1 || (b >> i) & 1 == 1),
        ((a & b) >> i) & 1 == 1 <==> ((a >> i) & 1 == 1 && (b >> i) & 1 == 1),
        ((a ^ b) >> i) & 1 == 1 <==> ((a >> i) & 1 == 1) != ((b >> i) & 1 == 1),
        ((a & !b) >> i) & 1 == 1 <==> ((a >> i) & 1 == 1 && (b >> i) & 1 != 1),
        ((!a) >> i) & 1 == 1 <==> (a >> i) & 1 != 1,
        a ^ b == 0 ==> a == b,
        a & b == b & a,
{
}

/// The bits of a word with one bit set, and of zero.
pub(crate) proof fn lemma_single_bit(a: u64, i: u64, j: u64)
    by (bit_vector)
    requires
        i < 64,
        j < 64,
    ensures
        ((1u64 << j) >> i) & 1 == 1 <==> i == j,
        (0u64 >> i) & 1 == 0,
        (a & (1u64 << j)) == (1u64 << j) <==> (a >> j) & 1 == 1,
{
}

/// The bits of a rank's word and of a file's word.
pub(crate) proof fn lemma_line_bits(line: u64, amount: u64, i: u64)
    by (bit_vector)
    requires
        line < 8,
        i < 64,
    ensures
        amount == line * 8 ==> (((0xffu64 << amount) >> i) & 1 == 1 <==> i / 8 == line),
        amount == line ==> (((0x0101_0101_0101_0101u64 << amount) >> i) & 1 == 1 <==> i % 8
            == line),
{
}

/// A shift moves every bit by the shift's amount and drops what leaves
/// the word.
pub(crate) proof fn lemma_shift_bits(m: u64, k: u64, i: u64)
    by (bit_vector)
    requires
        k <= 8,
        i < 64,
    ensures
        ((m << k) >> i) & 1 == 1 <==> (i >= k && (m >> ((i - k) as u64)) & 1 == 1),
        ((m >> k) >> i) & 1 == 1 <==> (i + k < 64 && (m >> ((i + k) as u64)) & 1 == 1),
{
}

/// The laws of `|` and `&` on words.
pub(crate) proof fn lemma_word_laws(a: u64, b: u64, c: u64)
    by (bit_vector)
    ensures
        a | b == b | a,
        a & b == b & a,
        (a | b) | c == a | (b | c),
        (a & b) & c == a & (b & c),
        a | a == a,
        a & a == a,
{
}

/// A word below a power of two, with or without that power's bit.
pub(crate) proof fn lemma_low_words(word: u64, place: u64, other: u64)
    by (bit_vector)
    requires
        place < 64,
        other < 64,
    ensures
        place < 63 && word < (1u64 << place) ==> (word | (1u64 << place)) < (1u64 << ((place
            + 1) as u64)),
        place < 63 && word < (1u64 << place) ==> word < (1u64 << ((place + 1) as u64)),
        word < (1u64 << place) && place <= other ==> (word >> other) & 1 == 0,
{
}

/// How the word-level operations act on the sets of squares.
pub proof fn lemma_squares_of_ops(a: u64, b: u64)
    ensures
        squares_of(a | b) == squares_of(a) + squares_of(b),
        squares_of(a & b) == squares_of(a) * squares_of(b),
        squares_of(a ^ b) == (squares_of(a) - squares_of(b)) + (squares_of(b) - squares_of(a)),
        squares_of(a & !b) == squares_of(a) - squares_of(b),
        squares_of(!a) == all_squares() - squares_of(a),
        squares_of(0) == Set::<int>::empty(),
{
    assert forall|i: int| 0 <= i < 64 implies {
        &&& has_bit(a | b, i) == (has_bit(a, i) || has_bit(b, i))
        &&& has_bit(a & b, i) == (has_bit(a, i) && has_bit(b, i))
        &&& has_bit(a ^ b, i) == (has_bit(a, i) != has_bit(b, i))
        &&& has_bit(a & !b, i) == (has_bit(a, i) && !has_bit(b, i))
        &&& has_bit(!a, i) == !has_bit(a, i)
        &&& !has_bit(0, i)
    } by {
        lemma_bitwise(a, b, i as u64);
        lemma_single_bit(a, i as u64, 0);
    }
    assert(squares_of(a | b) =~= squares_of(a) + squares_of(b));
    assert(squares_of(a & b) =~= squares_of(a) * squares_of(b));
    assert(squares_of(a ^ b) =~= (squares_of(a) - squares_of(b)) + (squares_of(b) - squares_of(a)));
    assert(squares_of(a & !b) =~= squares_of(a) - squares_of(b));
    assert(squares_of(!a) =~= all_squares() - squares_of(a));
    assert(squares_of(0) =~= Set::<int>::empty());
}

/// A word holding the one bit `index` stands for the one square `index`.
pub proof fn lemma_squares_of_single(index: u64)
    requires
        index < 64,
    ensures
        squares_of(1u64 << index) == set![index as int],
{
    assert forall|i: int| has_bit(1u64 << index, i) == (i == index) by {
        if 0 <= i < 64 {
            lemma_single_bit(0, i as u64, index);
        }
    }
    assert(squares_of(1u64 << index) =~= set![index as int]);
}

/// Two words with the same squares are the same word.
pub proof fn lemma_squares_of_injective(a: u64, b: u64)
    requires
        squares_of(a) == squares_of(b),
    ensures
        a == b,
{
    let x = a ^ b;
    if x != 0 {
        axiom_u64_trailing_zeros(x);
        let t = u64_trailing_zeros(x) as u64;
        lemma_bitwise(a, b, t);
        assert(has_bit(a, t as int) != has_bit(b, t as int));
        assert(squares_of(a).contains(t as int) == has_bit(a, t as int));
        assert(squares_of(b).contains(t as int) == has_bit(b, t as int));
    } else {
        lemma_bitwise(a, b, 0);
    }
}

/// The squares of a word below `limit` form a finite set of the counted
/// size.
pub proof fn lemma_count_below(bits: u64, limit: int)
    requires
        0 <= limit <= 64,
    ensures
        squares_of(bits).filter(|i: int| i < limit).finite(),
        squares_of(bits).filter(|i: int| i < limit).len() == count_below(bits, limit),
        count_below(bits, limit) <= limit,
    decreases limit,
{
    let below = squares_of(bits).filter(|i: int| i < limit);
    if limit == 0 {
        assert(below =~= Set::<int>::empty());
    } else {
        lemma_count_below(bits, limit - 1);
        let before = squares_of(bits).filter(|i: int| i < limit - 1);
        if has_bit(bits, limit - 1) {
            assert(below =~= before.insert(limit - 1));
        } else {
            assert(below =~= before);
        }
    }
}

/// The ascending list of a word's squares holds exactly those squares,
/// each once, lowest first.
pub proof fn lemma_members_below(bits: u64, limit: int)
    requires
        0 <= limit <= 64,
    ensures
        members_below(bits, limit).len() == count_below(bits, limit),
        forall|k: int|
            0 <= k < members_below(bits, limit).len() ==> has_bit(
                bits,
                #[trigger] members_below(bits, limit)[k],
            ) && members_below(bits, limit)[k] < limit,
        forall|j: int, k: int|
            0 <= j < k < members_below(bits, limit).len() ==> members_below(bits, limit)[j]
                < members_below(bits, limit)[k],
        forall|i: int|
            has_bit(bits, i) && i < limit ==> members_below(bits, limit).contains(i),
    decreases limit,
{
    if limit > 0 {
        lemma_members_below(bits, limit - 1);
        let before = members_below(bits, limit - 1);
        let now = members_below(bits, limit);
        assert forall|i: int| has_bit(bits, i) && i < limit implies now.contains(i) by {
            if i < limit - 1 {
                let k = choose|k: int| 0 <= k < before.len() && before[k] == i;
                assert(now[k] == i);
            } else {
                assert(now[now.len() - 1] == i);
            }
        }
    }
}

/// A word below `2^places` has no bit at or above `places`.
pub proof fn lemma_small_word(word: u64, places: nat, place: int)
    requires
        places < 64,
        word < pow2(places),
        places <= place,
    ensures
        !has_bit(word, place),
{
    if place < 64 {
        lemma_u64_pow2_no_overflow(places);
        lemma_u64_shl_is_mul(1, places as u64);
        lemma_low_words(word, places as u64, place as u64);
    }
}

/// The word built from a condition on places has exactly the bits that
/// the condition holds of, and is as small as its highest place allows.
pub proof fn lemma_word_where(wanted: spec_fn(int) -> bool, limit: int)
    requires
        0 <= limit <= 64,
    ensures
        forall|i: int| has_bit(word_where(wanted, limit), i) <==> 0 <= i < limit && wanted(i),
        limit < 64 ==> word_where(wanted, limit) < pow2(limit as nat),
    decreases limit,
{
    if limit > 0 {
        let before = word_where(wanted, limit - 1);
        let place = (limit - 1) as u64;
        lemma_word_where(wanted, limit - 1);
        lemma_u64_pow2_no_overflow(place as nat);
        lemma_u64_shl_is_mul(1, place);
        if limit < 64 {
            lemma_u64_pow2_no_overflow(limit as nat);
            lemma_u64_shl_is_mul(1, limit as u64);
        }
        lemma_low_words(before, place, 0);
        lemma_squares_of_ops(before, 1u64 << place);
        lemma_squares_of_single(place);
        assert forall|i: int|
            has_bit(word_where(wanted, limit), i) <==> 0 <= i < limit && wanted(i) by {
            assert(squares_of(before).contains(i) == has_bit(before, i));
            assert(squares_of(before | (1u64 << place)).contains(i) == has_bit(
                before | (1u64 << place),
                i,
            ));
        }
    } else {
        lemma_squares_of_ops(0, 0);
        lemma_u64_pow2_no_overflow(0);
        assert forall|i: int| !has_bit(0, i) by {
            assert(squares_of(0).contains(i) == has_bit(0, i));
        }
    }
}

} // verus!
