//! Lookup range-check subsystem.
//!
//! A shared table holds the `2^10` consecutive integers `0 .. 2^10`; a value
//! is constrained to `num_bits` bits by splitting it into 10-bit words, each
//! of which must be a table row, with the narrower final word additionally
//! checked through a short lookup (the word shifted up into the table's full
//! width). This module produces the words, states exactly when such a word
//! assignment satisfies the constraints, and proves the check sound: no
//! satisfying assignment exists for a value outside the range.

use vstd::prelude::*;
use vstd::arithmetic::power2::{
    pow2, lemma_pow2_adds, lemma_pow2_pos, lemma_pow2_strictly_increases, lemma2_to64,
    lemma2_to64_rest,
};
use vstd::arithmetic::div_mod::{
    lemma_fundamental_div_mod, lemma_mod_bound, lemma_mod_decreases, lemma_small_mod,
};
use vstd::arithmetic::mul::{
    lemma_mul_inequality, lemma_mul_is_commutative, lemma_mul_is_distributive_sub,
};
use crate::constants::{LOOKUP_BITS, LOOKUP_ROWS};
use crate::decompose::{
    decompose_windows, le_value, lemma_le_value_append_zero, lemma_le_value_bound,
    lemma_window_nonzero_bound, lemma_windows_recompose, lemma_windows_suffix_zero,
    lemma_windows_value_bound, window_value, windows_value,
};

verus! {

/// Whether a word is a row of the shared lookup table, which holds exactly
/// the integers `0 .. 2^10`.
pub open spec fn word_in_table(word: u64) -> bool {
    word < 1024
}

/// Number of 10-bit words needed to cover `num_bits` bits.
pub open spec fn range_word_count(num_bits: nat) -> nat {
    (num_bits + 9) / 10
}

/// Width in bits of the final, possibly narrower word: between 1 and 10.
pub open spec fn last_word_bits(num_bits: nat) -> nat {
    (num_bits - 10 * (range_word_count(num_bits) - 1)) as nat
}

/// Whether a word assignment satisfies the range-check constraints for
/// `value` and `num_bits`: one word per 10 bits, every word a row of the
/// lookup table, the final word also a table row once shifted up to the
/// table's full width (the short lookup), and the words recomposing to
/// `value`. Synthesis of a range check is satisfiable exactly when such an
/// assignment exists.
pub open spec fn range_check_accepts(words: Seq<u64>, value: nat, num_bits: nat) -> bool {
    let c = range_word_count(num_bits);
    &&& words.len() == c
    &&& forall|i: int| 0 <= i < words.len() ==> word_in_table(#[trigger] words[i])
    &&& words[c - 1] * pow2((10 - last_word_bits(num_bits)) as nat) < 1024
    &&& windows_value(words, 10) == value
}

/// The rows of the shared lookup table: the `2^10` consecutive integers
/// `0 .. 2^10`, in order. The table is populated exactly once per
/// proving/verifying key.
pub fn lookup_table_rows() -> (rows: Vec<u64>)
    ensures
        rows@.len() == LOOKUP_ROWS,
        forall|i: int| 0 <= i < rows@.len() ==> rows@[i] == i,
        forall|i: int| 0 <= i < rows@.len() ==> word_in_table(#[trigger] rows@[i]),
{
    let mut rows: Vec<u64> = Vec::new();
    for i in 0..LOOKUP_ROWS
        invariant
            rows@.len() == i,
            forall|j: int| 0 <= j < rows@.len() ==> rows@[j] == j,
    {
        rows.push(i as u64);
    }
    rows
}

/// `2^e` as a machine word.
pub fn pow2_u64(e: usize) -> (r: u64)
    requires
        e <= 63,
    ensures
        r == pow2(e as nat),
{
    let mut r: u64 = 1;
    proof {
        assert(pow2(0) == 1) by {
            lemma2_to64();
        }
    }
    for t in 0..e
        invariant
            e <= 63,
            r == pow2(t as nat),
    {
        proof {
            lemma_pow2_adds(t as nat, 1);
            assert(pow2(1) == 2) by {
                lemma2_to64();
            }
            lemma_pow2_strictly_increases((t + 1) as nat, 64);
            assert(pow2(64) == 0x10000000000000000) by {
                lemma2_to64_rest();
            }
        }
        r = r * 2;
    }
    r
}

/// `2^e` is monotone in `e`.
proof fn lemma_pow2_le(e1: nat, e2: nat)
    requires
        e1 <= e2,
    ensures
        pow2(e1) <= pow2(e2),
{
    if e1 < e2 {
        lemma_pow2_strictly_increases(e1, e2);
    }
}

/// The short lookup is exact: shifting a word up by `10 - bits` places
/// lands it in the table exactly when the word fits in `bits` bits.
pub proof fn lemma_short_lookup_exact(word: u64, bits: nat)
    requires
        1 <= bits <= 10,
    ensures
        (word * pow2((10 - bits) as nat) < 1024) <==> (word < pow2(bits)),
{
    let sh = pow2((10 - bits) as nat);
    lemma_pow2_pos((10 - bits) as nat);
    lemma_pow2_pos(bits);
    lemma_pow2_adds(bits, (10 - bits) as nat);
    assert(pow2(10) == 1024) by {
        lemma2_to64();
    }
    assert(pow2(bits) * sh == 1024);
    if word >= pow2(bits) {
        lemma_mul_inequality(pow2(bits) as int, word as int, sh as int);
        assert(word * sh >= 1024);
    }
    if word < pow2(bits) {
        lemma_mul_inequality(word as int, pow2(bits) as int - 1, sh as int);
        lemma_mul_is_distributive_sub(sh as int, pow2(bits) as int, 1);
        lemma_mul_is_commutative(sh as int, pow2(bits) as int);
        lemma_mul_is_commutative(sh as int, pow2(bits) as int - 1);
        assert((pow2(bits) - 1) * sh == 1024 - sh);
        assert(word * sh < 1024);
    }
}

/// Computes the 10-bit word decomposition of the represented value for a
/// `num_bits`-bit range check. The words are returned exactly when the
/// value fits in `num_bits` bits — the one case in which a satisfying
/// assignment exists; for a value out of range the constraints admit no
/// assignment at all and synthesis is unsatisfiable.
pub fn check_range(repr: &Vec<u8>, num_bits: usize) -> (r: Option<Vec<u64>>)
    requires
        repr@.len() == 32,
        1 <= num_bits <= 255,
    ensures
        (r is Some) <==> le_value(repr@) < pow2(num_bits as nat),
        r matches Some(w) ==> range_check_accepts(w@, le_value(repr@), num_bits as nat),
{
    let ghost v = le_value(repr@);
    // Pad with two zero bytes so that 27 ten-bit words cover all 256 bits.
    let mut padded: Vec<u8> = Vec::new();
    for j in 0..32usize
        invariant
            repr@.len() == 32,
            padded@.len() == j,
            padded@ == repr@.take(j as int),
    {
        let b: u8 = repr[j];
        padded.push(b);
        proof {
            assert(padded@ =~= repr@.take(j + 1));
        }
    }
    padded.push(0);
    padded.push(0);
    proof {
        assert(repr@.take(32) =~= repr@);
        assert(padded@ =~= repr@.push(0).push(0));
        lemma_le_value_append_zero(repr@);
        lemma_le_value_append_zero(repr@.push(0));
        assert(le_value(padded@) == v);
    }
    let wa = decompose_windows(&padded, 10, 27);
    let count: usize = (num_bits + 9) / 10;
    let last_bits: usize = num_bits - 10 * (count - 1);
    proof {
        assert(count == range_word_count(num_bits as nat));
        assert(1 <= count <= 26);
        assert(1 <= last_bits <= 10);
        assert(last_bits == last_word_bits(num_bits as nat));
        assert(10 * (count - 1) + last_bits == num_bits);
    }
    let bound: u64 = pow2_u64(last_bits);
    let mut ok: bool = wa[count - 1] < bound;
    for i in count..27usize
        invariant
            count <= i <= 27,
            1 <= count <= 26,
            1 <= last_bits <= 10,
            wa@.len() == 27,
            v == le_value(repr@),
            forall|j: int| 0 <= j < 27 ==> wa@[j] == window_value(v, 10, j as nat),
            ok <==> (wa@[count - 1] < pow2(last_bits as nat) && forall|j: int|
                count <= j < i ==> wa@[j] == 0),
    {
        if wa[i] != 0 {
            ok = false;
        }
    }
    if ok {
        let mut w: Vec<u64> = Vec::new();
        for i in 0..count
            invariant
                count <= 26,
                wa@.len() == 27,
                w@.len() == i,
                forall|j: int| 0 <= j < i ==> w@[j] == wa@[j],
        {
            let word: u64 = wa[i];
            w.push(word);
        }
        proof {
            assert(w@ =~= wa@.take(count as int));
            lemma_le_value_bound(repr@);
            lemma_pow2_strictly_increases(256, 270);
            lemma_windows_recompose(wa@, 10, v);
            lemma_small_mod(v, pow2(270));
            assert(windows_value(wa@, 10) == v);
            lemma_windows_suffix_zero(wa@, 10, count as int);
            assert(windows_value(w@, 10) == v);
            assert(pow2(10) == 1024) by {
                lemma2_to64();
            }
            assert(w@[count - 1] == wa@[count - 1]);
            lemma_windows_value_bound(w@, 10, last_bits as nat);
            assert(v < pow2(num_bits as nat));
            lemma_short_lookup_exact(w@[count - 1], last_bits as nat);
            assert(range_check_accepts(w@, v, num_bits as nat));
        }
        Some(w)
    } else {
        proof {
            if wa@[count - 1] < pow2(last_bits as nat) {
                let j = choose|j: int| count <= j < 27 && wa@[j] != 0;
                assert(count <= j < 27 && wa@[j] != 0);
                lemma_window_nonzero_bound(v, 10, j as nat);
                lemma_pow2_le(num_bits as nat, (10 * j) as nat);
                assert(v >= pow2(num_bits as nat));
            } else {
                let d = pow2((10 * (count - 1)) as nat);
                lemma_pow2_pos((10 * (count - 1)) as nat);
                assert(pow2(10) == 1024) by {
                    lemma2_to64();
                }
                assert(wa@[count - 1] == window_value(v, 10, (count - 1) as nat));
                assert(wa@[count - 1] == v / d % 1024);
                lemma_mod_decreases(v / d, 1024);
                assert(v / d >= pow2(last_bits as nat));
                lemma_fundamental_div_mod(v as int, d as int);
                lemma_mul_inequality(pow2(last_bits as nat) as int, (v / d) as int, d as int);
                lemma_mul_is_commutative(d as int, (v / d) as int);
                lemma_mod_bound(v as int, d as int);
                lemma_pow2_adds((10 * (count - 1)) as nat, last_bits as nat);
                lemma_mul_is_commutative(pow2(last_bits as nat) as int, d as int);
                assert(v >= pow2(num_bits as nat));
            }
        }
        None
    }
}

/// Range-check soundness: a word assignment that satisfies the constraints
/// pins the value below `2^num_bits`; equivalently, for a value at least
/// `2^num_bits` no satisfying assignment exists and synthesis is
/// unsatisfiable.
pub proof fn lemma_range_check_sound(words: Seq<u64>, value: nat, num_bits: nat)
    requires
        1 <= num_bits,
        range_check_accepts(words, value, num_bits),
    ensures
        value < pow2(num_bits),
{
    let c = range_word_count(num_bits);
    let lb = last_word_bits(num_bits);
    assert(1 <= c);
    assert(1 <= lb <= 10);
    assert(10 * (c - 1) + lb == num_bits);
    lemma_short_lookup_exact(words[c - 1], lb);
    assert(pow2(10) == 1024) by {
        lemma2_to64();
    }
    lemma_windows_value_bound(words, 10, lb);
}

/// A window value at or above `2^10` is not a row of the lookup table, so
/// an assignment holding one satisfies no range check at all, whatever the
/// value and the width.
pub proof fn lemma_out_of_table_word_rejected(
    words: Seq<u64>,
    value: nat,
    num_bits: nat,
    i: int,
)
    requires
        0 <= i < words.len(),
        !word_in_table(words[i]),
    ensures
        !range_check_accepts(words, value, num_bits),
{
}

} // verus!
