//! Channels as bits of a 16-bit word: the predicates the library's contracts
//! are written with, and the bit-level facts its proofs rest on.

use vstd::prelude::*;
use vstd::arithmetic::power2::{pow2, lemma2_to64, lemma_pow2_strictly_increases};
use vstd::bits::lemma_u16_shl_is_mul;

verus! {

/// Whether `v` has a one on channel `c`.
pub open spec fn has_bit(v: u16, c: u16) -> bool {
    v & (1u16 << c) != 0
}

/// The word with ones on exactly the channels `a` and `b`.
pub open spec fn pair_mask(a: u16, b: u16) -> u16 {
    (1u16 << a) | (1u16 << b)
}

/// The largest `w`-bit value: ones on the channels below `w`.
pub open spec fn all_ones(w: u16) -> u16 {
    ((1u16 << w) - 1) as u16
}

/// Where the comparator on channels `(a, b)` sends `v`: a value with a zero
/// on `a` and a one on `b` has the two exchanged, every other value stays.
pub open spec fn comparator_image(v: u16, a: u16, b: u16) -> u16 {
    if has_bit(v, b) && !has_bit(v, a) {
        v ^ pair_mask(a, b)
    } else {
        v
    }
}

/// `v` with what it has on channels `a` and `b` exchanged.
pub open spec fn exchange_image(v: u16, a: u16, b: u16) -> u16 {
    if has_bit(v, a) != has_bit(v, b) {
        v ^ pair_mask(a, b)
    } else {
        v
    }
}

/// How the executable test for a misordered pair reads in terms of bits, and
/// what the comparator does to a `w`-bit value.
pub proof fn lemma_comparator_image(v: u16, a: u16, b: u16, w: u16)
    by (bit_vector)
    requires
        a < w,
        b < w,
        a != b,
        w <= 15,
        v < (1u16 << w),
    ensures
        (v & pair_mask(a, b) == (1u16 << b)) == (has_bit(v, b) && !has_bit(v, a)),
        comparator_image(v, a, b) < (1u16 << w),
        (comparator_image(v, a, b) == v) == !(has_bit(v, b) && !has_bit(v, a)),
        comparator_image(comparator_image(v, a, b), a, b) == comparator_image(v, a, b),
        comparator_image(0, a, b) == 0,
        comparator_image(all_ones(w), a, b) == all_ones(w),
        has_bit(1u16 << b, b) && !has_bit(1u16 << b, a),
        (1u16 << b) < (1u16 << w),
{
}

/// How the executable tests for a value that an exchange moves read in terms
/// of bits, and what the exchange does to a `w`-bit value.
pub proof fn lemma_exchange_image(v: u16, a: u16, b: u16, w: u16)
    by (bit_vector)
    requires
        a < w,
        b < w,
        w <= 15,
        v < (1u16 << w),
    ensures
        a != b ==> (v & pair_mask(a, b) == (1u16 << a)) == (has_bit(v, a) && !has_bit(v, b)),
        a != b ==> (v & pair_mask(a, b) == (1u16 << b)) == (has_bit(v, b) && !has_bit(v, a)),
        exchange_image(v, a, b) < (1u16 << w),
        exchange_image(exchange_image(v, a, b), a, b) == v,
        (exchange_image(v, a, b) == v) == (has_bit(v, a) == has_bit(v, b)),
        has_bit(v, a) != has_bit(v, b) ==> exchange_image(v, a, b) == v ^ pair_mask(a, b),
        exchange_image(0, a, b) == 0,
        exchange_image(all_ones(w), a, b) == all_ones(w),
        a != b ==> has_bit(1u16 << b, b) && !has_bit(1u16 << b, a),
        (1u16 << b) < (1u16 << w),
{
}

/// Exchanging a zero and a one on the same two channels keeps two values in
/// their order.
pub proof fn lemma_flip_keeps_order(x: u16, y: u16, a: u16, b: u16)
    by (bit_vector)
    requires
        a < 16,
        b < 16,
        x < y,
        has_bit(x, b) && !has_bit(x, a),
        has_bit(y, b) && !has_bit(y, a),
    ensures
        x ^ pair_mask(a, b) < y ^ pair_mask(a, b),
{
}

/// The lowest channel on which `x` and `y` differ, 15 if there is none below.
pub open spec fn differing_channel(x: u16, y: u16) -> u16 {
    let d = x ^ y;
    if d & 0x0001 != 0 {
        0
    } else if d & 0x0002 != 0 {
        1
    } else if d & 0x0004 != 0 {
        2
    } else if d & 0x0008 != 0 {
        3
    } else if d & 0x0010 != 0 {
        4
    } else if d & 0x0020 != 0 {
        5
    } else if d & 0x0040 != 0 {
        6
    } else if d & 0x0080 != 0 {
        7
    } else if d & 0x0100 != 0 {
        8
    } else if d & 0x0200 != 0 {
        9
    } else if d & 0x0400 != 0 {
        10
    } else if d & 0x0800 != 0 {
        11
    } else if d & 0x1000 != 0 {
        12
    } else if d & 0x2000 != 0 {
        13
    } else if d & 0x4000 != 0 {
        14
    } else {
        15
    }
}

/// Two different values differ on some channel, and two different `w`-bit
/// values differ on a channel below `w`.
pub proof fn lemma_differing_channel(x: u16, y: u16, w: u16)
    by (bit_vector)
    requires
        x != y,
        w <= 16,
        w < 16 ==> x < (1u16 << w) && y < (1u16 << w),
    ensures
        differing_channel(x, y) < w,
        has_bit(x, differing_channel(x, y)) != has_bit(y, differing_channel(x, y)),
{
}

/// What setting channel `k` does to the channels of `x` and to its size.
pub proof fn lemma_or_bit(x: u16, k: u16, i: u16)
    by (bit_vector)
    requires
        k < 16,
        i < 16,
    ensures
        has_bit(x | (1u16 << k), i) == (has_bit(x, i) || i == k),
        has_bit(1u16 << k, i) == (i == k),
        !has_bit(0u16, i),
        0u16 < (1u16 << k),
        k <= 14 && x < (1u16 << k) ==> (x | (1u16 << k)) < (1u16 << ((k + 1) as u16)) && x < (1u16
            << ((k + 1) as u16)),
{
}

/// The all-ones value on `w` channels has ones exactly on the channels below
/// `w`, and a `w`-bit value has none elsewhere.
pub proof fn lemma_all_ones_bits(w: u16, i: u16)
    by (bit_vector)
    requires
        w <= 15,
        i < 16,
    ensures
        has_bit(all_ones(w), i) == (i < w),
        all_ones(w) < (1u16 << w),
{
}

/// Channel by channel, what two words have in common.
pub proof fn lemma_and_bit(x: u16, y: u16, i: u16)
    by (bit_vector)
    requires
        i < 16,
    ensures
        has_bit(x & y, i) == (has_bit(x, i) && has_bit(y, i)),
{
}

/// What clearing channel `b` does to the channels of `v` and to its size.
pub proof fn lemma_clear_bit(v: u16, b: u16, i: u16)
    by (bit_vector)
    requires
        b < 16,
        i < 16,
    ensures
        has_bit(v & !(1u16 << b), i) == (has_bit(v, i) && i != b),
        v & !(1u16 << b) <= v,
{
}

/// A word is a single one on channel `t` exactly if it passes the test for
/// a power of two and has a one on `t`.
pub proof fn lemma_single_bit(v: u16, t: u16)
    by (bit_vector)
    requires
        t < 16,
    ensures
        (v != 0 && v & ((v - 1) as u16) == 0 && (v >> t) & 1 == 1) ==> v == 1u16 << t,
        v == 1u16 << t ==> v != 0 && v & ((v - 1) as u16) == 0,
{
}

/// Channel by channel, what exchanging channels `a` and `b` does.
pub proof fn lemma_exchange_bits(v: u16, a: u16, b: u16, i: u16)
    by (bit_vector)
    requires
        a < 16,
        b < 16,
        i < 16,
    ensures
        has_bit(exchange_image(v, a, b), i) == has_bit(
            v,
            if i == a {
                b
            } else if i == b {
                a
            } else {
                i
            },
        ),
{
}

/// Two ones make a count of at least two.
pub proof fn lemma_ones_of_two_bits(v: u16, s: u16, t: u16, n: nat)
    requires
        s < t < n <= 16,
        has_bit(v, s),
        has_bit(v, t),
    ensures
        ones_below(v, n) >= 2,
    decreases n,
{
    if n - 1 > t {
        lemma_ones_of_two_bits(v, s, t, (n - 1) as nat);
    } else {
        lemma_ones_below_bounds(v, (n - 1) as nat, s);
    }
}

/// A word that is neither zero nor a single one has at least two ones.
pub proof fn lemma_ones_of_open_word(v: u16)
    requires
        v != 0,
        forall|t: u16| t < 16 ==> v != 1u16 << t,
    ensures
        ones(v) >= 2,
{
    lemma_differing_channel(v, 0, 16);
    let s = differing_channel(v, 0);
    lemma_or_bit(0, s, s);
    assert(has_bit(v, s));
    lemma_differing_channel(v, 1u16 << s, 16);
    let t = differing_channel(v, 1u16 << s);
    lemma_or_bit(0, s, t);
    assert(has_bit(v, t) && t != s);
    if s < t {
        lemma_ones_of_two_bits(v, s, t, 16);
    } else {
        lemma_ones_of_two_bits(v, t, s, 16);
    }
}

/// A single one counts as one.
pub proof fn lemma_ones_of_single(t: u16, n: nat)
    requires
        t < 16,
        n <= 16,
    ensures
        ones_below(1u16 << t, n) == if t < n {
            1nat
        } else {
            0nat
        },
    decreases n,
{
    if n > 0 {
        lemma_ones_of_single(t, (n - 1) as nat);
        lemma_or_bit(0, t, (n - 1) as u16);
    }
}

/// A word that has a one on channel `t` and on no other channel is the
/// single one on `t`.
pub proof fn lemma_word_of_single_bit(v: u16, t: u16)
    requires
        t < 16,
        has_bit(v, t),
        forall|i: u16| i < 16 && i != t ==> !has_bit(v, i),
    ensures
        v == 1u16 << t,
{
    if v != 1u16 << t {
        lemma_differing_channel(v, 1u16 << t, 16);
        lemma_or_bit(0, t, differing_channel(v, 1u16 << t));
    }
}

/// A word without a one on any channel is zero.
pub proof fn lemma_word_without_bits(v: u16)
    requires
        forall|i: u16| i < 16 ==> !has_bit(v, i),
    ensures
        v == 0,
{
    if v != 0 {
        lemma_differing_channel(v, 0, 16);
        lemma_or_bit(0, 0, differing_channel(v, 0));
    }
}

/// A `w`-bit value has no one on a channel from `w` upwards.
pub proof fn lemma_small_value_bits(v: u16, w: u16, i: u16)
    by (bit_vector)
    requires
        w <= i < 16,
        v < (1u16 << w),
    ensures
        !has_bit(v, i),
{
}

/// How many of the channels below `n` carry a one in `v`.
pub open spec fn ones_below(v: u16, n: nat) -> nat
    decreases n,
{
    if n == 0 {
        0
    } else {
        ones_below(v, (n - 1) as nat) + if has_bit(v, (n - 1) as u16) {
            1nat
        } else {
            0nat
        }
    }
}

/// How many channels carry a one in `v`.
pub open spec fn ones(v: u16) -> nat {
    ones_below(v, 16)
}

/// `u16::count_ones` returns the number of ones in the binary representation
/// of its argument.
pub assume_specification[ u16::count_ones ](v: u16) -> (r: u32)
    ensures
        r == ones(v),
;

/// Counting ones up to `n` counts at most `n`, and at least one once a
/// channel that carries a one is passed.
pub proof fn lemma_ones_below_bounds(v: u16, n: nat, c: u16)
    requires
        n <= 16,
    ensures
        ones_below(v, n) <= n,
        c < n && has_bit(v, c) ==> ones_below(v, n) >= 1,
        c < n && !has_bit(v, c) ==> ones_below(v, n) < n,
    decreases n,
{
    if n > 0 {
        lemma_ones_below_bounds(v, (n - 1) as nat, c);
    }
}

/// Clearing a one leaves one fewer.
pub proof fn lemma_ones_after_clear(v: u16, b: u16, n: nat)
    requires
        b < 16,
        n <= 16,
        has_bit(v, b),
    ensures
        ones_below(v & !(1u16 << b), n) + (if b < n {
            1nat
        } else {
            0nat
        }) == ones_below(v, n),
    decreases n,
{
    if n > 0 {
        lemma_ones_after_clear(v, b, (n - 1) as nat);
        lemma_clear_bit(v, b, (n - 1) as u16);
    }
}

/// The ones of a `w`-bit value are on the channels below `w`.
pub proof fn lemma_ones_of_small_value(v: u16, w: u16, n: nat)
    requires
        w <= 15,
        v < (1u16 << w),
        w <= n <= 16,
    ensures
        ones_below(v, n) == ones_below(v, w as nat),
    decreases n,
{
    if n > w {
        lemma_ones_of_small_value(v, w, (n - 1) as nat);
        lemma_small_value_bits(v, w, (n - 1) as u16);
    }
}

/// `1 << w` is the number of `w`-bit values, for every width the library admits.
pub proof fn lemma_limit(w: u16)
    requires
        w <= 15,
    ensures
        (1u16 << w) == pow2(w as nat),
        1 <= pow2(w as nat) <= 32768,
{
    lemma2_to64();
    if w < 15 {
        lemma_pow2_strictly_increases(w as nat, 15);
    }
    if 0 < w {
        lemma_pow2_strictly_increases(0, w as nat);
    }
    lemma_u16_shl_is_mul(1u16, w);
}

} // verus!
