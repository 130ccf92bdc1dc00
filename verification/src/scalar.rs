//! Full-width scalar decomposition for fixed-base multiplication.
//!
//! A 255-bit scalar is split into 85 three-bit windows (radix 8). Each
//! window is individually range-checked in the circuit; here the windows are
//! computed and the decomposition is proved lossless: recomposing the 85
//! windows of a canonical scalar representation reproduces the scalar
//! exactly.

use vstd::prelude::*;
use vstd::arithmetic::power2::{
    pow2, lemma_pow2_adds, lemma_pow2_pos, lemma_pow2_strictly_increases, lemma2_to64,
    lemma2_to64_rest,
};
use vstd::arithmetic::div_mod::{
    lemma_basic_div, lemma_div_basics, lemma_div_denominator, lemma_small_mod,
};
use crate::constants::{FIXED_BASE_WINDOW_SIZE, NUM_WINDOWS, pallas_scalar_modulus};
use crate::decompose::{
    bits_to_bytes, decompose_windows, le_value, lemma_le_value_injective, lemma_window_bit,
    lemma_windows_recompose, lemma_windows_of_recomposition, lemma_windows_value_bound,
    nth_bit, window_value, windows_value,
};

verus! {

/// Decomposes the canonical 32-byte little-endian representation of a
/// scalar into 85 three-bit windows, least-significant window first.
/// Window `i` holds bits `3i .. 3i + 3` of the scalar, so every window is
/// below 8 and the windows jointly determine the scalar modulo `2^255`.
pub fn witness_scalar_windows(repr: &Vec<u8>) -> (w: Vec<u64>)
    requires
        repr@.len() == 32,
    ensures
        w@.len() == NUM_WINDOWS,
        forall|i: int|
            0 <= i < NUM_WINDOWS ==> w@[i] == window_value(
                le_value(repr@),
                FIXED_BASE_WINDOW_SIZE as nat,
                i as nat,
            ),
        forall|i: int| 0 <= i < NUM_WINDOWS ==> w@[i] < 8,
        windows_value(w@, FIXED_BASE_WINDOW_SIZE as nat) == le_value(repr@) % pow2(255),
{
    let w = decompose_windows(repr, FIXED_BASE_WINDOW_SIZE, NUM_WINDOWS);
    proof {
        assert(pow2(3) == 8) by {
            lemma2_to64();
        }
        lemma_windows_recompose(w@, FIXED_BASE_WINDOW_SIZE as nat, le_value(repr@));
    }
    w
}

/// Recomposes 85 three-bit windows into the 32-byte little-endian
/// representation of the value they determine: the executable inverse of
/// `witness_scalar_windows`. For the windows of a canonical scalar
/// representation this returns that representation, bit for bit.
pub fn recompose_windows(w: &Vec<u64>) -> (repr: Vec<u8>)
    requires
        w@.len() == NUM_WINDOWS,
        forall|i: int| 0 <= i < NUM_WINDOWS ==> w@[i] < 8,
    ensures
        repr@.len() == 32,
        le_value(repr@) == windows_value(w@, FIXED_BASE_WINDOW_SIZE as nat),
{
    let ghost v = windows_value(w@, 3);
    proof {
        assert(pow2(3) == 8) by {
            lemma2_to64();
        }
        assert(windows_value(w@, FIXED_BASE_WINDOW_SIZE as nat) == v);
        lemma_windows_of_recomposition(w@, 3);
        lemma_windows_value_bound(w@, 3, 3);
        assert(3 * (w@.len() - 1) + 3 == 255);
        lemma_pow2_strictly_increases(255, 256);
    }
    let mut bits: Vec<bool> = Vec::new();
    for i in 0..NUM_WINDOWS
        invariant
            w@.len() == NUM_WINDOWS,
            forall|ii: int| 0 <= ii < NUM_WINDOWS ==> w@[ii] < 8,
            forall|ii: int|
                0 <= ii < NUM_WINDOWS ==> window_value(v, 3, ii as nat) == w@[ii],
            v == windows_value(w@, 3),
            v < pow2(255),
            bits@.len() == 3 * i,
            forall|k: int| 0 <= k < bits@.len() ==> bits@[k] == nth_bit(v, k as nat),
    {
        let mut acc: u64 = w[i];
        proof {
            assert(pow2(0) == 1) by {
                lemma2_to64();
            }
            lemma_div_basics(w@[i as int] as int);
            assert((w@[i as int] as nat) / pow2(0) == w@[i as int]);
        }
        for t in 0..3usize
            invariant
                w@.len() == NUM_WINDOWS,
                i < NUM_WINDOWS,
                forall|ii: int|
                    0 <= ii < NUM_WINDOWS ==> window_value(v, 3, ii as nat) == w@[ii],
                acc == (w@[i as int] as nat) / pow2(t as nat),
                bits@.len() == 3 * i + t,
                forall|k: int| 0 <= k < bits@.len() ==> bits@[k] == nth_bit(v, k as nat),
        {
            proof {
                lemma_window_bit(v, 3, i as nat, t as nat);
                assert(window_value(v, 3, i as nat) == w@[i as int]);
                assert(nth_bit(v, (3 * i + t) as nat)
                    == ((w@[i as int] as nat) / pow2(t as nat) % 2 == 1));
                lemma_pow2_adds(t as nat, 1);
                assert(pow2(1) == 2) by {
                    lemma2_to64();
                }
                lemma_pow2_pos(t as nat);
                lemma_div_denominator(w@[i as int] as int, pow2(t as nat) as int, 2);
                assert((w@[i as int] as nat) / pow2((t + 1) as nat) == acc as nat / 2);
            }
            bits.push(acc % 2 == 1);
            acc = acc / 2;
        }
    }
    bits.push(false);
    proof {
        lemma_basic_div(v as int, pow2(255) as int);
        assert(v / pow2(255) == 0);
        assert(!nth_bit(v, 255));
        assert(bits@.len() == 256);
    }
    bits_to_bytes(&bits, Ghost(v))
}

/// Decomposes a canonical scalar representation into its 85 windows and
/// recomposes them again. The result is the input itself, bit for bit:
/// the decomposition loses nothing and substitutes nothing, for every
/// scalar of the field.
pub fn scalar_round_trip(repr: &Vec<u8>) -> (out: Vec<u8>)
    requires
        repr@.len() == 32,
        le_value(repr@) < pallas_scalar_modulus(),
    ensures
        out@ == repr@,
{
    let w = witness_scalar_windows(repr);
    proof {
        lemma_scalar_round_trip(w@, repr@);
    }
    let out = recompose_windows(&w);
    proof {
        lemma_le_value_injective(out@, repr@);
    }
    out
}

/// The value of `2^255`, written out so that the scalar and base field
/// moduli can be compared against it.
pub proof fn lemma_pow2_255_value()
    ensures
        pow2(255) == 0x8000000000000000000000000000000000000000000000000000000000000000,
{
    lemma2_to64();
    lemma2_to64_rest();
    lemma_pow2_adds(63, 64);
    assert(pow2(127) == 0x80000000000000000000000000000000);
    lemma_pow2_adds(127, 127);
    assert(pow2(254) == 0x4000000000000000000000000000000000000000000000000000000000000000);
    lemma_pow2_adds(254, 1);
}

/// Decomposition round-trip: for every scalar of the Pallas scalar field,
/// recomposing the 85 three-bit windows of its canonical representation
/// with radix-8 weights reproduces the scalar itself — nothing is lost or
/// substituted.
pub proof fn lemma_scalar_round_trip(w: Seq<u64>, repr: Seq<u8>)
    requires
        repr.len() == 32,
        le_value(repr) < pallas_scalar_modulus(),
        w.len() == NUM_WINDOWS,
        forall|i: int|
            0 <= i < NUM_WINDOWS ==> w[i] == window_value(
                le_value(repr),
                FIXED_BASE_WINDOW_SIZE as nat,
                i as nat,
            ),
    ensures
        windows_value(w, FIXED_BASE_WINDOW_SIZE as nat) == le_value(repr),
{
    lemma_windows_recompose(w, FIXED_BASE_WINDOW_SIZE as nat, le_value(repr));
    lemma_pow2_255_value();
    lemma_small_mod(le_value(repr), pow2(255));
}

/// What the fixed-base multiplication accumulates: window `i` contributes
/// with an offset of 2, so that no intermediate sum touches the identity
/// or a doubling edge case.
pub open spec fn offset_windows_value(w: Seq<u64>) -> nat
    decreases w.len(),
{
    if w.len() == 0 {
        0
    } else {
        (w.first() + 2 + 8 * offset_windows_value(w.drop_first())) as nat
    }
}

/// The cumulative offset over `n` windows: `sum_{j < n} 2 * 8^j`, the
/// constant the final window's table subtracts again.
pub open spec fn offset_correction(n: nat) -> nat
    decreases n,
{
    if n == 0 {
        0
    } else {
        (2 + 8 * offset_correction((n - 1) as nat)) as nat
    }
}

/// Offset correction: accumulating every window with its offset of 2 and
/// then subtracting the cumulative correction leaves exactly the scalar the
/// windows represent — the offsets shift intermediate sums away from the
/// identity without changing the multiplication's result.
pub proof fn lemma_offset_correction(w: Seq<u64>)
    ensures
        offset_windows_value(w) == windows_value(w, FIXED_BASE_WINDOW_SIZE as nat)
            + offset_correction(w.len()),
    decreases w.len(),
{
    assert(pow2(3) == 8) by {
        lemma2_to64();
    }
    if w.len() > 0 {
        lemma_offset_correction(w.drop_first());
    }
}

} // verus!
