//! Windowed decomposition of little-endian byte strings.
//!
//! A witnessed scalar enters the circuit as its canonical 32-byte
//! little-endian representation and is decomposed into fixed-width windows
//! (3-bit windows for fixed-base multiplication, 10-bit words for the lookup
//! range check). This module states what those windows are as arithmetic on
//! the represented integer, computes them, and proves that recomposing the
//! windows loses nothing.

use vstd::prelude::*;
use vstd::arithmetic::power2::{
    pow2, lemma_pow2_adds, lemma_pow2_pos, lemma_pow2_strictly_increases, lemma2_to64,
    lemma2_to64_rest,
};
use vstd::arithmetic::div_mod::{
    lemma_basic_div, lemma_breakdown, lemma_div_basics, lemma_div_denominator,
    lemma_fundamental_div_mod, lemma_fundamental_div_mod_converse, lemma_mod_bound,
    lemma_mod_mod, lemma_multiply_divide_lt, lemma_small_mod,
};
use vstd::arithmetic::mul::{
    lemma_mul_inequality, lemma_mul_is_commutative, lemma_mul_is_distributive_add,
    lemma_mul_is_distributive_sub,
};

verus! {

/// The integer that a little-endian byte string represents.
pub open spec fn le_value(s: Seq<u8>) -> nat
    decreases s.len(),
{
    if s.len() == 0 {
        0
    } else {
        (s.first() + 256 * le_value(s.drop_first())) as nat
    }
}

/// Window `i` of width `width` of the integer `v`: bits
/// `width * i .. width * (i + 1)` of `v`, read as an integer.
pub open spec fn window_value(v: nat, width: nat, i: nat) -> nat {
    v / pow2(width * i) % pow2(width)
}

/// The integer that a sequence of windows of width `width` represents,
/// least-significant window first.
pub open spec fn windows_value(w: Seq<u64>, width: nat) -> nat
    decreases w.len(),
{
    if w.len() == 0 {
        0
    } else {
        (w.first() + pow2(width) * windows_value(w.drop_first(), width)) as nat
    }
}

/// Bit `k` of `v`.
pub open spec fn nth_bit(v: nat, k: nat) -> bool {
    v / pow2(k) % 2 == 1
}

/// The represented integer splits into its lowest byte and the rest.
proof fn lemma_le_value_split(s: Seq<u8>)
    requires
        s.len() > 0,
    ensures
        le_value(s) % 256 == s.first(),
        le_value(s) / 256 == le_value(s.drop_first()),
{
    lemma_fundamental_div_mod_converse(
        le_value(s) as int,
        256,
        le_value(s.drop_first()) as int,
        s.first() as int,
    );
}

/// A byte string of length `n` represents an integer below `2^(8n)`.
pub proof fn lemma_le_value_bound(s: Seq<u8>)
    ensures
        le_value(s) < pow2(8 * s.len()),
    decreases s.len(),
{
    if s.len() == 0 {
        assert(pow2(0) == 1) by {
            lemma2_to64();
        }
    } else {
        let rest = s.drop_first();
        lemma_le_value_bound(rest);
        lemma_pow2_adds(8, 8 * rest.len());
        assert(pow2(8) == 256) by {
            lemma2_to64();
        }
        assert(8 * s.len() == 8 + 8 * rest.len());
        assert(le_value(rest) + 1 <= pow2(8 * rest.len()));
        lemma_mul_inequality(
            (le_value(rest) + 1) as int,
            pow2(8 * rest.len()) as int,
            256,
        );
        assert(256 * (le_value(rest) + 1) <= 256 * pow2(8 * rest.len()));
        assert(le_value(s) == s.first() + 256 * le_value(rest));
        assert(256 * (le_value(rest) + 1) == 256 * le_value(rest) + 256);
    }
}

/// Shifting the represented integer down by `j` bytes drops the first
/// `j` bytes of the string.
proof fn lemma_le_value_skip(s: Seq<u8>, j: nat)
    requires
        j <= s.len(),
    ensures
        le_value(s) / pow2(8 * j) == le_value(s.skip(j as int)),
    decreases j,
{
    if j == 0 {
        assert(pow2(0) == 1) by {
            lemma2_to64();
        }
        lemma_div_basics(le_value(s) as int);
        assert(s.skip(0) =~= s);
    } else {
        lemma_le_value_split(s);
        lemma_le_value_skip(s.drop_first(), (j - 1) as nat);
        assert(s.drop_first().skip(j - 1) =~= s.skip(j as int));
        assert(pow2(8) == 256) by {
            lemma2_to64();
        }
        lemma_pow2_adds(8, 8 * (j - 1) as nat);
        assert(8 * j == 8 + 8 * (j - 1));
        lemma_pow2_pos(8 * (j - 1) as nat);
        lemma_div_denominator(le_value(s) as int, 256, pow2(8 * (j - 1) as nat) as int);
        assert(le_value(s) / pow2(8 * j)
            == (le_value(s) / 256) / pow2(8 * (j - 1) as nat));
    }
}

/// Byte `j` of the string holds bits `8j .. 8j + 8` of the represented
/// integer.
proof fn lemma_le_value_byte(s: Seq<u8>, j: nat)
    requires
        j < s.len(),
    ensures
        le_value(s) / pow2(8 * j) % 256 == s[j as int],
{
    lemma_le_value_skip(s, j);
    let tail = s.skip(j as int);
    assert(tail.first() == s[j as int]);
    lemma_le_value_split(tail);
}

/// Two byte strings of equal length that represent the same integer are
/// equal: an integer determines its little-endian representation.
pub proof fn lemma_le_value_injective(a: Seq<u8>, b: Seq<u8>)
    requires
        a.len() == b.len(),
        le_value(a) == le_value(b),
    ensures
        a == b,
{
    assert forall|j: int| 0 <= j < a.len() implies a[j] == b[j] by {
        lemma_le_value_byte(a, j as nat);
        lemma_le_value_byte(b, j as nat);
    }
    assert(a =~= b);
}

/// Bit `8j + t` of the represented integer is bit `t` of byte `j`.
proof fn lemma_le_value_bit(s: Seq<u8>, j: nat, t: nat)
    requires
        j < s.len(),
        t < 8,
    ensures
        le_value(s) / pow2(8 * j + t) % 2 == (s[j as int] as nat) / pow2(t) % 2,
{
    let v = le_value(s);
    lemma_pow2_pos(8 * j);
    lemma_pow2_pos(t);
    lemma_pow2_adds(8 * j, t);
    lemma_div_denominator(v as int, pow2(8 * j) as int, pow2(t) as int);
    let x = v / pow2(8 * j);
    assert(v / pow2(8 * j + t) == x / pow2(t));
    lemma_le_value_byte(s, j);
    assert(x % 256 == s[j as int]);
    lemma_pow2_pos((8 - t) as nat);
    lemma_pow2_adds(t, (8 - t) as nat);
    assert(t + (8 - t) == 8);
    assert(pow2(8) == 256) by {
        lemma2_to64();
    }
    assert(pow2(t) * pow2((8 - t) as nat) == 256);
    lemma_breakdown(x as int, pow2(t) as int, pow2((8 - t) as nat) as int);
    assert(x % 256 == pow2(t) * ((x / pow2(t)) % pow2((8 - t) as nat)) + x % pow2(t));
    assert(pow2(t) * ((x / pow2(t)) % pow2((8 - t) as nat))
        == ((x / pow2(t)) % pow2((8 - t) as nat)) * pow2(t)) by {
        lemma_mul_is_commutative(
            pow2(t) as int,
            ((x / pow2(t)) % pow2((8 - t) as nat)) as int,
        );
    }
    lemma_mod_bound(x as int, pow2(t) as int);
    lemma_fundamental_div_mod_converse(
        (x % 256) as int,
        pow2(t) as int,
        ((x / pow2(t)) % pow2((8 - t) as nat)) as int,
        (x % pow2(t)) as int,
    );
    assert((s[j as int] as nat) / pow2(t) == (x / pow2(t)) % pow2((8 - t) as nat));
    lemma_pow2_pos((7 - t) as nat);
    lemma_pow2_adds(1, (7 - t) as nat);
    assert(pow2(1) == 2) by {
        lemma2_to64();
    }
    lemma_mod_mod((x / pow2(t)) as int, 2, pow2((7 - t) as nat) as int);
    assert((x / pow2(t)) % pow2((8 - t) as nat) % 2 == (x / pow2(t)) % 2);
}

/// Splits a little-endian byte string into its bits, least significant
/// first: bit `k` of the result is bit `k` of the represented integer.
pub fn bytes_to_bits(s: &Vec<u8>) -> (bits: Vec<bool>)
    ensures
        bits@.len() == 8 * s@.len(),
        forall|k: int|
            0 <= k < bits@.len() ==> bits@[k] == nth_bit(le_value(s@), k as nat),
{
    let n: usize = s.len();
    let mut bits: Vec<bool> = Vec::new();
    for j in 0..n
        invariant
            n == s@.len(),
            bits@.len() == 8 * j,
            forall|k: int|
                0 <= k < bits@.len() ==> bits@[k] == nth_bit(le_value(s@), k as nat),
    {
        let mut acc: u8 = s[j];
        proof {
            assert(pow2(0) == 1) by {
                lemma2_to64();
            }
            lemma_div_basics(s@[j as int] as int);
            assert((s@[j as int] as nat) / pow2(0) == s@[j as int]);
        }
        for t in 0..8usize
            invariant
                n == s@.len(),
                j < n,
                acc == (s@[j as int] as nat) / pow2(t as nat),
                bits@.len() == 8 * j + t,
                forall|k: int|
                    0 <= k < bits@.len() ==> bits@[k] == nth_bit(le_value(s@), k as nat),
        {
            proof {
                lemma_le_value_bit(s@, j as nat, t as nat);
                assert(nth_bit(le_value(s@), (8 * j + t) as nat)
                    == ((s@[j as int] as nat) / pow2(t as nat) % 2 == 1));
                lemma_pow2_adds(t as nat, 1);
                assert(pow2(1) == 2) by {
                    lemma2_to64();
                }
                lemma_pow2_pos(t as nat);
                lemma_div_denominator(s@[j as int] as int, pow2(t as nat) as int, 2);
                assert((s@[j as int] as nat) / pow2((t + 1) as nat) == acc as nat / 2);
            }
            bits.push(acc % 2 == 1);
            acc = acc / 2;
        }
    }
    bits
}

/// Decomposes the integer represented by `s` into `count` windows of
/// `width` bits each, least-significant window first. Every window is the
/// corresponding slice of bits of the represented integer, so in particular
/// every window is below `2^width`.
pub fn decompose_windows(s: &Vec<u8>, width: usize, count: usize) -> (w: Vec<u64>)
    requires
        1 <= width <= 32,
        width * count <= 8 * s@.len(),
    ensures
        w@.len() == count,
        forall|i: int|
            0 <= i < count ==> w@[i] == window_value(le_value(s@), width as nat, i as nat),
        forall|i: int| 0 <= i < count ==> w@[i] < pow2(width as nat),
{
    let bits = bytes_to_bits(s);
    let nbits: usize = bits.len();
    let ghost v = le_value(s@);
    let mut w: Vec<u64> = Vec::new();
    for i in 0..count
        invariant
            1 <= width <= 32,
            width * count <= 8 * s@.len(),
            nbits == bits@.len(),
            bits@.len() == 8 * s@.len(),
            forall|k: int| 0 <= k < bits@.len() ==> bits@[k] == nth_bit(v, k as nat),
            v == le_value(s@),
            w@.len() == i,
            forall|ii: int|
                0 <= ii < i ==> w@[ii] == window_value(v, width as nat, ii as nat),
            forall|ii: int| 0 <= ii < i ==> w@[ii] < pow2(width as nat),
    {
        let ghost x = v / pow2((width * i) as nat);
        let mut word: u64 = 0;
        let mut mult: u64 = 1;
        proof {
            assert(pow2(0) == 1) by {
                lemma2_to64();
            }
            lemma_mod_bound(x as int, 1);
        }
        for t in 0..width
            invariant
                1 <= width <= 32,
                i < count,
                width * count <= 8 * s@.len(),
                nbits == bits@.len(),
                bits@.len() == 8 * s@.len(),
                forall|k: int| 0 <= k < bits@.len() ==> bits@[k] == nth_bit(v, k as nat),
                v == le_value(s@),
                x == v / pow2((width * i) as nat),
                mult == pow2(t as nat),
                word == x % pow2(t as nat),
        {
            proof {
                assert(width * i + t < width * count) by (nonlinear_arith)
                    requires
                        0 <= i < count,
                        0 <= t < width,
                ;
            }
            let b = bits[width * i + t];
            proof {
                lemma_pow2_pos((width * i) as nat);
                lemma_pow2_pos(t as nat);
                lemma_pow2_adds((width * i) as nat, t as nat);
                lemma_div_denominator(v as int, pow2((width * i) as nat) as int, pow2(t as nat) as int);
                assert(v / pow2((width * i + t) as nat) == x / pow2(t as nat));
                assert(b == (x / pow2(t as nat) % 2 == 1));
                lemma_mod_bound((x / pow2(t as nat)) as int, 2);
                lemma_breakdown(x as int, pow2(t as nat) as int, 2);
                assert(pow2(1) == 2) by {
                    lemma2_to64();
                }
                lemma_pow2_adds(t as nat, 1);
                assert(x % pow2((t + 1) as nat)
                    == pow2(t as nat) * (x / pow2(t as nat) % 2) + x % pow2(t as nat));
                lemma_pow2_strictly_increases((t + 1) as nat, 33);
                assert(pow2(33) == 0x200000000) by {
                    lemma2_to64_rest();
                }
                lemma_mod_bound(x as int, pow2(t as nat) as int);
            }
            if b {
                word = word + mult;
            }
            proof {
                assert(x / pow2(t as nat) % 2 == (if b {
                    1int
                } else {
                    0int
                }));
                assert(pow2(t as nat) * (x / pow2(t as nat) % 2) == (if b {
                    pow2(t as nat) as int
                } else {
                    0int
                })) by {
                    lemma_mul_is_commutative(pow2(t as nat) as int, x as int / pow2(t as nat) as int % 2);
                }
                assert(word == x % pow2((t + 1) as nat));
            }
            mult = mult * 2;
        }
        proof {
            assert(word == window_value(v, width as nat, i as nat));
            lemma_pow2_pos(width as nat);
            lemma_mod_bound(x as int, pow2(width as nat) as int);
        }
        w.push(word);
    }
    w
}

/// Recomposing windows that were all taken from one integer `v` gives back
/// `v` modulo `2^(width * count)`: the decomposition is lossless on the
/// bits it covers.
pub proof fn lemma_windows_recompose(w: Seq<u64>, width: nat, v: nat)
    requires
        width >= 1,
        forall|i: int| 0 <= i < w.len() ==> w[i] == window_value(v, width, i as nat),
    ensures
        windows_value(w, width) == v % pow2(width * w.len()),
    decreases w.len(),
{
    if w.len() == 0 {
        assert(pow2(0) == 1) by {
            lemma2_to64();
        }
        lemma_mod_bound(v as int, 1);
    } else {
        let v1 = v / pow2(width);
        let rest = w.drop_first();
        lemma_pow2_pos(width);
        assert forall|i: int| 0 <= i < rest.len() implies rest[i] == window_value(
            v1,
            width,
            i as nat,
        ) by {
            assert(rest[i] == w[i + 1]);
            assert(w[i + 1] == window_value(v, width, (i + 1) as nat));
            lemma_mul_is_distributive_add(width as int, i, 1);
            assert(width * (i + 1) == width * i + width);
            lemma_pow2_pos((width * i as nat) as nat);
            lemma_pow2_adds(width, (width * i as nat) as nat);
            lemma_div_denominator(v as int, pow2(width) as int, pow2((width * i as nat) as nat) as int);
            assert(v / pow2((width * (i + 1) as nat) as nat) == v1 / pow2((width * i as nat) as nat));
        }
        lemma_windows_recompose(rest, width, v1);
        let n1 = (w.len() - 1) as nat;
        assert(windows_value(rest, width) == v1 % pow2(width * n1));
        assert(pow2(0) == 1) by {
            lemma2_to64();
        }
        lemma_div_basics(v as int);
        assert(w.first() == window_value(v, width, 0));
        assert(w.first() == v % pow2(width));
        lemma_pow2_pos(width * n1);
        lemma_breakdown(v as int, pow2(width) as int, pow2(width * n1) as int);
        lemma_pow2_adds(width, width * n1);
        lemma_mul_is_distributive_add(width as int, 1, n1 as int);
        assert(width * w.len() == width + width * n1);
        assert(windows_value(w, width)
            == w.first() + pow2(width) * (v1 % pow2(width * n1)));
        assert(v % pow2(width * w.len())
            == pow2(width) * (v1 % pow2(width * n1)) + v % pow2(width));
    }
}

/// Appending a zero byte does not change the represented integer.
pub proof fn lemma_le_value_append_zero(s: Seq<u8>)
    ensures
        le_value(s.push(0)) == le_value(s),
    decreases s.len(),
{
    if s.len() == 0 {
        assert(s.push(0).drop_first() =~= s);
        assert(le_value(s.push(0)) == 0 + 256 * le_value(s));
    } else {
        lemma_le_value_append_zero(s.drop_first());
        assert(s.push(0).drop_first() =~= s.drop_first().push(0));
        assert(s.push(0).first() == s.first());
    }
}

/// Windows beyond index `c` that are all zero contribute nothing: the
/// recomposed value is that of the first `c` windows alone.
pub proof fn lemma_windows_suffix_zero(w: Seq<u64>, width: nat, c: int)
    requires
        0 <= c <= w.len(),
        forall|i: int| c <= i < w.len() ==> w[i] == 0,
    ensures
        windows_value(w, width) == windows_value(w.take(c), width),
    decreases w.len(),
{
    if w.len() == 0 {
        assert(w.take(c) =~= w);
    } else if c == 0 {
        lemma_windows_suffix_zero(w.drop_first(), width, 0);
        assert(w.drop_first().take(0) =~= Seq::<u64>::empty());
        assert(w.take(0) =~= Seq::<u64>::empty());
        assert(windows_value(w.drop_first(), width) == 0);
        assert(w.first() == w[0] && w[0] == 0);
        assert(pow2(width) * 0 == 0);
    } else {
        lemma_windows_suffix_zero(w.drop_first(), width, c - 1);
        assert(w.take(c).drop_first() =~= w.drop_first().take(c - 1));
        assert(w.take(c).first() == w.first());
        assert(w.take(c).len() == c);
    }
}

/// A nonzero window at index `i` witnesses that the integer is at least
/// `2^(width * i)`.
pub proof fn lemma_window_nonzero_bound(v: nat, width: nat, i: nat)
    requires
        window_value(v, width, i) != 0,
    ensures
        v >= pow2(width * i),
{
    let d = pow2(width * i);
    lemma_pow2_pos(width * i);
    let x = v / d;
    if x == 0 {
        lemma_pow2_pos(width);
        assert(window_value(v, width, i) == 0int % pow2(width) as int);
        assert(0int % pow2(width) as int == 0) by {
            lemma_small_mod(0, pow2(width));
        }
    }
    assert(x >= 1);
    lemma_fundamental_div_mod(v as int, d as int);
    assert(v == d * x + v % d);
    lemma_mul_inequality(1, x as int, d as int);
    lemma_mul_is_commutative(d as int, x as int);
    lemma_mod_bound(v as int, d as int);
}

/// Extracting windows from a recomposed value gives the windows back:
/// recomposition and decomposition invert each other.
pub proof fn lemma_windows_of_recomposition(w: Seq<u64>, width: nat)
    requires
        width >= 1,
        forall|i: int| 0 <= i < w.len() ==> w[i] < pow2(width),
    ensures
        forall|i: int|
            0 <= i < w.len() ==> window_value(windows_value(w, width), width, i as nat)
                == w[i],
    decreases w.len(),
{
    if w.len() > 0 {
        let rest = w.drop_first();
        lemma_windows_of_recomposition(rest, width);
        let v = windows_value(w, width);
        let vr = windows_value(rest, width);
        lemma_pow2_pos(width);
        assert(v == w[0] + pow2(width) * vr);
        lemma_mul_is_commutative(pow2(width) as int, vr as int);
        lemma_fundamental_div_mod_converse(v as int, pow2(width) as int, vr as int, w[0] as int);
        assert(v % pow2(width) == w[0]);
        assert(v / pow2(width) == vr);
        assert(pow2(0) == 1) by {
            lemma2_to64();
        }
        lemma_div_basics(v as int);
        assert forall|i: int| 0 <= i < w.len() implies window_value(v, width, i as nat)
            == w[i] by {
            if i == 0 {
                assert(v / pow2(0) == v);
            } else {
                lemma_mul_is_distributive_add(width as int, 1, i - 1);
                assert(width * i == width + width * (i - 1));
                lemma_pow2_pos((width * (i - 1) as nat) as nat);
                lemma_pow2_adds(width, (width * (i - 1) as nat) as nat);
                lemma_div_denominator(
                    v as int,
                    pow2(width) as int,
                    pow2((width * (i - 1) as nat) as nat) as int,
                );
                assert(v / pow2((width * i as nat) as nat)
                    == vr / pow2((width * (i - 1) as nat) as nat));
                assert(window_value(vr, width, (i - 1) as nat) == rest[i - 1]);
            }
        }
    }
}

/// Bit `width * i + t` of `v` is bit `t` of window `i` of `v`.
pub(crate) proof fn lemma_window_bit(v: nat, width: nat, i: nat, t: nat)
    requires
        t < width,
    ensures
        nth_bit(v, width * i + t) == (window_value(v, width, i) / pow2(t) % 2 == 1),
{
    lemma_pow2_pos(width * i);
    lemma_pow2_pos(t);
    lemma_pow2_pos(width);
    lemma_pow2_adds(width * i, t);
    lemma_div_denominator(v as int, pow2(width * i) as int, pow2(t) as int);
    let x = v / pow2(width * i);
    assert(v / pow2(width * i + t) == x / pow2(t));
    lemma_pow2_pos((width - t) as nat);
    lemma_pow2_adds(t, (width - t) as nat);
    assert(t + (width - t) == width);
    assert(pow2(t) * pow2((width - t) as nat) == pow2(width));
    lemma_breakdown(x as int, pow2(t) as int, pow2((width - t) as nat) as int);
    assert(x % pow2(width)
        == pow2(t) * ((x / pow2(t)) % pow2((width - t) as nat)) + x % pow2(t));
    lemma_mul_is_commutative(
        pow2(t) as int,
        ((x / pow2(t)) % pow2((width - t) as nat)) as int,
    );
    lemma_mod_bound(x as int, pow2(t) as int);
    lemma_fundamental_div_mod_converse(
        (x % pow2(width)) as int,
        pow2(t) as int,
        ((x / pow2(t)) % pow2((width - t) as nat)) as int,
        (x % pow2(t)) as int,
    );
    assert((x % pow2(width)) / pow2(t) == (x / pow2(t)) % pow2((width - t) as nat));
    lemma_pow2_pos((width - t - 1) as nat);
    lemma_pow2_adds(1, (width - t - 1) as nat);
    assert(pow2(1) == 2) by {
        lemma2_to64();
    }
    lemma_mod_mod((x / pow2(t)) as int, 2, pow2((width - t - 1) as nat) as int);
    assert((x / pow2(t)) % pow2((width - t) as nat) % 2 == (x / pow2(t)) % 2);
}

/// A byte string whose byte `j` is window `j` (of width 8) of a value
/// below `2^(8n)` represents exactly that value.
proof fn lemma_le_value_from_windows(s: Seq<u8>, v: nat)
    requires
        forall|j: int| 0 <= j < s.len() ==> s[j] == window_value(v, 8, j as nat),
        v < pow2(8 * s.len()),
    ensures
        le_value(s) == v,
    decreases s.len(),
{
    assert(pow2(0) == 1) by {
        lemma2_to64();
    }
    assert(pow2(8) == 256) by {
        lemma2_to64();
    }
    if s.len() == 0 {
        assert(v < 1);
    } else {
        let v1 = v / 256;
        let rest = s.drop_first();
        lemma_pow2_adds(8, 8 * rest.len());
        assert(8 * s.len() == 8 + 8 * rest.len());
        lemma_pow2_pos(8 * rest.len());
        lemma_multiply_divide_lt(v as int, 256, pow2(8 * rest.len()) as int);
        assert(v1 < pow2(8 * rest.len()));
        assert forall|j: int| 0 <= j < rest.len() implies rest[j] == window_value(
            v1,
            8,
            j as nat,
        ) by {
            assert(rest[j] == s[j + 1]);
            assert(s[j + 1] == window_value(v, 8, (j + 1) as nat));
            lemma_mul_is_distributive_add(8, 1, j);
            assert(8 * (j + 1) == 8 + 8 * j);
            lemma_pow2_pos((8 * j as nat) as nat);
            lemma_pow2_adds(8, (8 * j as nat) as nat);
            lemma_div_denominator(v as int, 256, pow2((8 * j as nat) as nat) as int);
            assert(v / pow2((8 * (j + 1) as nat) as nat)
                == v1 / pow2((8 * j as nat) as nat));
        }
        lemma_le_value_from_windows(rest, v1);
        lemma_div_basics(v as int);
        assert(s.first() == window_value(v, 8, 0));
        assert(s.first() == v % 256);
        lemma_fundamental_div_mod(v as int, 256);
        assert(le_value(s) == s.first() + 256 * le_value(rest));
    }
}

/// Packs a bit string, least-significant bit first, back into little-endian
/// bytes: the inverse of `bytes_to_bits`.
pub(crate) fn bits_to_bytes(bits: &Vec<bool>, Ghost(v): Ghost<nat>) -> (out: Vec<u8>)
    requires
        bits@.len() % 8 == 0,
        v < pow2(bits@.len()),
        forall|k: int| 0 <= k < bits@.len() ==> bits@[k] == nth_bit(v, k as nat),
    ensures
        out@.len() == bits@.len() / 8,
        le_value(out@) == v,
{
    let nbits: usize = bits.len();
    let n: usize = nbits / 8;
    let mut out: Vec<u8> = Vec::new();
    for j in 0..n
        invariant
            nbits == bits@.len(),
            8 * n == bits@.len(),
            v < pow2(bits@.len()),
            forall|k: int| 0 <= k < bits@.len() ==> bits@[k] == nth_bit(v, k as nat),
            out@.len() == j,
            forall|jj: int| 0 <= jj < j ==> out@[jj] == window_value(v, 8, jj as nat),
    {
        let ghost x = v / pow2((8 * j) as nat);
        let mut byte: u64 = 0;
        let mut m: u64 = 1;
        proof {
            assert(pow2(0) == 1) by {
                lemma2_to64();
            }
            lemma_mod_bound(x as int, 1);
        }
        for t in 0..8usize
            invariant
                j < n,
                nbits == bits@.len(),
                8 * n == bits@.len(),
                forall|k: int| 0 <= k < bits@.len() ==> bits@[k] == nth_bit(v, k as nat),
                x == v / pow2((8 * j) as nat),
                m == pow2(t as nat),
                byte == x % pow2(t as nat),
        {
            let b = bits[8 * j + t];
            proof {
                lemma_pow2_pos((8 * j) as nat);
                lemma_pow2_pos(t as nat);
                lemma_pow2_adds((8 * j) as nat, t as nat);
                lemma_div_denominator(v as int, pow2((8 * j) as nat) as int, pow2(t as nat) as int);
                assert(v / pow2((8 * j + t) as nat) == x / pow2(t as nat));
                assert(b == (x / pow2(t as nat) % 2 == 1));
                lemma_mod_bound((x / pow2(t as nat)) as int, 2);
                lemma_breakdown(x as int, pow2(t as nat) as int, 2);
                assert(pow2(1) == 2) by {
                    lemma2_to64();
                }
                lemma_pow2_adds(t as nat, 1);
                assert(x % pow2((t + 1) as nat)
                    == pow2(t as nat) * (x / pow2(t as nat) % 2) + x % pow2(t as nat));
                assert(pow2(8) == 256) by {
                    lemma2_to64();
                }
                lemma_pow2_strictly_increases((t + 1) as nat, 9);
                assert(pow2(9) == 512) by {
                    lemma2_to64();
                }
                lemma_mod_bound(x as int, pow2(t as nat) as int);
            }
            if b {
                byte = byte + m;
            }
            proof {
                assert(x / pow2(t as nat) % 2 == (if b {
                    1int
                } else {
                    0int
                }));
                assert(pow2(t as nat) * (x / pow2(t as nat) % 2) == (if b {
                    pow2(t as nat) as int
                } else {
                    0int
                })) by {
                    lemma_mul_is_commutative(pow2(t as nat) as int, x as int / pow2(t as nat) as int % 2);
                }
                assert(byte == x % pow2((t + 1) as nat));
            }
            m = m * 2;
        }
        proof {
            assert(pow2(8) == 256) by {
                lemma2_to64();
            }
            assert(byte == x % 256);
            assert(byte == window_value(v, 8, j as nat));
            lemma_mod_bound(x as int, 256);
        }
        out.push(byte as u8);
    }
    proof {
        lemma_le_value_from_windows(out@, v);
    }
    out
}

/// An upper bound on a recomposed window sequence: if every window fits in
/// `width` bits and the last window fits in `r` bits, the whole value fits
/// in `width * (count - 1) + r` bits.
pub proof fn lemma_windows_value_bound(w: Seq<u64>, width: nat, r: nat)
    requires
        width >= 1,
        r <= width,
        w.len() >= 1,
        forall|i: int| 0 <= i < w.len() ==> w[i] < pow2(width),
        w.last() < pow2(r),
    ensures
        windows_value(w, width) < pow2((width * (w.len() - 1) + r) as nat),
    decreases w.len(),
{
    lemma_pow2_pos(width);
    lemma_pow2_pos(r);
    if w.len() == 1 {
        assert(w.first() == w.last());
        assert(windows_value(w.drop_first(), width) == 0);
        assert(windows_value(w, width)
            == (w.first() + pow2(width) * windows_value(w.drop_first(), width)) as nat);
        assert(pow2(width) * 0 == 0);
        assert(windows_value(w, width) == w.first());
    } else {
        let rest = w.drop_first();
        assert(rest.last() == w.last());
        lemma_windows_value_bound(rest, width, r);
        let n2 = (w.len() - 2) as nat;
        let bound = pow2(width * n2 + r);
        assert(windows_value(rest, width) < bound);
        assert(windows_value(rest, width) <= bound - 1);
        lemma_mul_inequality(
            windows_value(rest, width) as int,
            bound - 1,
            pow2(width) as int,
        );
        lemma_mul_is_commutative(pow2(width) as int, windows_value(rest, width) as int);
        lemma_mul_is_commutative(pow2(width) as int, bound - 1);
        assert(pow2(width) * windows_value(rest, width) <= (bound - 1) * pow2(width));
        lemma_mul_is_distributive_sub(pow2(width) as int, bound as int, 1);
        lemma_mul_is_commutative(pow2(width) as int, bound as int);
        assert((bound - 1) * pow2(width) == pow2(width) * bound - pow2(width));
        lemma_pow2_adds(width, width * n2 + r);
        assert(pow2(width) * bound == pow2(width + width * n2 + r));
        lemma_mul_is_distributive_add(width as int, 1, n2 as int);
        assert(width * (w.len() - 1) == width + width * n2);
        assert(windows_value(w, width)
            == w.first() + pow2(width) * windows_value(rest, width));
        assert(w.first() <= pow2(width) - 1);
        assert(windows_value(w, width) < pow2(width + width * n2 + r));
    }
}

} // verus!
