//! Output sets of comparator networks and their per-channel abstractions.

use vstd::prelude::*;
use vstd::arithmetic::power2::pow2;
use crate::bits::{has_bit, pair_mask, comparator_image, exchange_image, lemma_limit, lemma_comparator_image, lemma_exchange_image, lemma_flip_keeps_order};
use crate::fixed_vec::{MAX_CHANNELS, CVec, buffered, buffer_new, buffer_push, buffer_get, indices, indices_get, indices_swap, indices_clone, words, words_new, words_push, words_get};
use crate::permutation::{is_permutation, permuted_value, identity, identity_seq, lemma_permutation_onto, lemma_permuted_bits, lemma_permuted_injective, lemma_permuted_extremes};
use crate::sorting::{ascending, sort_values};
use crate::value_seq::{strictly_ascending, is_subset, is_image, lemma_ascending_bounds, lemma_ascending_unique, lemma_subset_len, count_where, lemma_count_matched, lemma_ascending_no_duplicates, is_image_of_some};

verus! {

/// Whether `s` can be the values of an output set on `w` channels: strictly
/// ascending `w`-bit values, the all-zeros value first and the all-ones value
/// last.
pub open spec fn is_value_seq(s: Seq<u16>, w: nat) -> bool {
    &&& strictly_ascending(s)
    &&& forall|i: int| 0 <= i < s.len() ==> (#[trigger] s[i]) < pow2(w)
    &&& s.len() > 0
    &&& s[0] == 0
    &&& s[s.len() - 1] == pow2(w) - 1
}

/// A strictly ascending sequence of images of the values of `src` that holds
/// the images of the smallest and the largest is a value sequence, when these
/// two stay where they are and no image leaves the range.
proof fn lemma_extremes(out: Seq<u16>, src: Seq<u16>, f: spec_fn(u16) -> u16, w: nat)
    requires
        is_value_seq(src, w),
        strictly_ascending(out),
        is_image(out, src, f),
        forall|i: int| 0 <= i < src.len() ==> f(#[trigger] src[i]) < pow2(w),
        f(0) == 0,
        f((pow2(w) - 1) as u16) == pow2(w) - 1,
    ensures
        is_value_seq(out, w),
{
    let last = src.len() - 1;
    assert(out.contains(f(src[0])));
    assert(out.contains(f(src[last])));
    let lo = choose|k: int| 0 <= k < out.len() && out[k] == f(src[0]);
    let hi = choose|k: int| 0 <= k < out.len() && out[k] == f(src[last]);
    assert forall|k: int| 0 <= k < out.len() implies (#[trigger] out[k]) < pow2(w) by {
        let i = choose|i: int| 0 <= i < src.len() && f(src[i]) == out[k];
    }
    if lo > 0 {
        assert(out[0] < out[lo]);
    }
    if hi < out.len() - 1 {
        assert(out[hi] < out[out.len() - 1]);
    }
}

/// How many values of `s` have a one on channel `c`.
pub open spec fn channel_weight(s: Seq<u16>, c: u16) -> nat {
    count_where(s, |v: u16| has_bit(v, c))
}

/// Whether channel `a` comes before channel `b` when the channels of `s` are
/// put in order: the heavier channel first, of two equally heavy ones the one
/// with the smaller index.
pub open spec fn precedes(s: Seq<u16>, a: usize, b: usize) -> bool {
    channel_weight(s, a as u16) > channel_weight(s, b as u16) || (channel_weight(s, a as u16)
        == channel_weight(s, b as u16) && a < b)
}

/// Whether `p` lists channels of `s` in order.
pub open spec fn ordered_by_weight(s: Seq<u16>, p: Seq<usize>) -> bool {
    forall|i: int, j: int| 0 <= i < j < p.len() ==> precedes(s, #[trigger] p[i], #[trigger] p[j])
}

/// Whether the channels of `s` are in order of weight: no channel is heavier
/// than a channel before it.
pub open spec fn weights_descend(s: Seq<u16>, w: nat) -> bool {
    forall|i: int, j: int| 0 <= i < j < w ==> #[trigger] weight_at(s, i) >= #[trigger] weight_at(s, j)
}

/// How many values of `s` have a one on the channel with the index `c`.
pub open spec fn weight_at(s: Seq<u16>, c: int) -> nat {
    channel_weight(s, c as u16)
}

/// After a permutation of the channels, a channel weighs what the channel
/// that it comes from weighed.
pub proof fn lemma_permuted_weight(src: Seq<u16>, out: Seq<u16>, p: Seq<usize>, w: nat, k: int)
    requires
        w <= 15,
        is_value_seq(src, w),
        strictly_ascending(out),
        out.len() == src.len(),
        is_permutation(p, w),
        is_image(out, src, |v: u16| permuted_value(v, p)),
        0 <= k < w,
    ensures
        channel_weight(out, k as u16) == channel_weight(src, p[k] as u16),
{
    let f = |v: u16| permuted_value(v, p);
    lemma_ascending_no_duplicates(out);
    assert forall|i: int| 0 <= i < out.len() implies is_image_of_some(#[trigger] out[i], src, f) by {
        let j = choose|j: int| 0 <= j < src.len() && f(src[j]) == out[i];
        assert(out[i] == f(src[j]));
    }
    assert forall|j: int| 0 <= j < src.len() implies has_bit(f(#[trigger] src[j]), k as u16)
        == has_bit(src[j], p[k] as u16) by {
        lemma_permuted_bits(src[j], p, k as u16);
    }
    lemma_count_matched(
        out,
        src,
        f,
        |v: u16| has_bit(v, k as u16),
        |v: u16| has_bit(v, p[k] as u16),
    );
}

/// With the channels put in order of weight, no channel is heavier than a
/// channel before it.
pub proof fn lemma_ordered_weights_descend(src: Seq<u16>, out: Seq<u16>, p: Seq<usize>, w: nat)
    requires
        w <= 15,
        is_value_seq(src, w),
        strictly_ascending(out),
        out.len() == src.len(),
        is_permutation(p, w),
        ordered_by_weight(src, p),
        is_image(out, src, |v: u16| permuted_value(v, p)),
    ensures
        weights_descend(out, w),
{
    assert forall|i: int, j: int| 0 <= i < j < w implies #[trigger] weight_at(out, i)
        >= #[trigger] weight_at(out, j) by {
        lemma_permuted_weight(src, out, p, w, i);
        lemma_permuted_weight(src, out, p, w, j);
        assert(precedes(src, p[i], p[j]));
    }
}

/// Applying a comparator once more changes nothing: if `once` is what the
/// comparator on `(a, b)` makes of `s`, and `twice` what it makes of `once`,
/// then `twice` is `once`.
pub proof fn lemma_comparator_idempotent(
    s: Seq<u16>,
    once: Seq<u16>,
    twice: Seq<u16>,
    a: usize,
    b: usize,
    w: nat,
)
    requires
        w <= 15,
        a < w,
        b < w,
        a != b,
        is_value_seq(s, w),
        is_value_seq(once, w),
        is_value_seq(twice, w),
        is_image(once, s, |v: u16| comparator_image(v, a as u16, b as u16)),
        is_image(twice, once, |v: u16| comparator_image(v, a as u16, b as u16)),
    ensures
        twice == once,
{
    let f = |v: u16| comparator_image(v, a as u16, b as u16);
    lemma_limit(w as u16);
    assert forall|k: int| 0 <= k < once.len() implies f(#[trigger] once[k]) == once[k] by {
        let i = choose|i: int| 0 <= i < s.len() && f(s[i]) == once[k];
        lemma_comparator_image(s[i], a as u16, b as u16, w as u16);
    }
    assert forall|k: int| 0 <= k < once.len() implies twice.contains(#[trigger] once[k]) by {
        assert(twice.contains(f(once[k])));
    }
    assert forall|k: int| 0 <= k < twice.len() implies once.contains(#[trigger] twice[k]) by {
        let i = choose|i: int| 0 <= i < once.len() && f(once[i]) == twice[k];
        assert(once[i] == twice[k]);
    }
    lemma_ascending_unique(twice, once);
}

/// Exchanging two channels once more undoes the exchange: if `once` is `s`
/// with channels `a` and `b` exchanged, and `twice` is `once` with the two
/// exchanged, then `twice` is `s`.
pub proof fn lemma_swap_twice(s: Seq<u16>, once: Seq<u16>, twice: Seq<u16>, a: usize, b: usize, w: nat)
    requires
        w <= 15,
        a < w,
        b < w,
        is_value_seq(s, w),
        is_value_seq(once, w),
        is_value_seq(twice, w),
        is_image(once, s, |v: u16| exchange_image(v, a as u16, b as u16)),
        is_image(twice, once, |v: u16| exchange_image(v, a as u16, b as u16)),
    ensures
        twice == s,
{
    let f = |v: u16| exchange_image(v, a as u16, b as u16);
    lemma_limit(w as u16);
    assert forall|i: int| 0 <= i < s.len() implies f(f(#[trigger] s[i])) == s[i] by {
        lemma_exchange_image(s[i], a as u16, b as u16, w as u16);
    }
    crate::value_seq::lemma_image_of_some(once, s, f);
    crate::value_seq::lemma_image_of_some(twice, once, f);
    crate::value_seq::lemma_back_among(s, once, twice, f);
    crate::value_seq::lemma_among_back(s, once, twice, f);
    lemma_ascending_unique(twice, s);
}

/// Putting the channels in order of weight once more changes nothing: if
/// the channels of `out` are in order of weight, then a permutation that
/// puts them in order is the identity, and what it makes of `out` is `out`.
pub proof fn lemma_ordering_idempotent(out: Seq<u16>, p: Seq<usize>, again: Seq<u16>, w: nat)
    requires
        w <= 15,
        is_value_seq(out, w),
        weights_descend(out, w),
        is_permutation(p, w),
        ordered_by_weight(out, p),
        is_value_seq(again, w),
        is_image(again, out, |v: u16| permuted_value(v, p)),
    ensures
        p == identity_seq(w),
        again == out,
{
    let f = |v: u16| permuted_value(v, p);
    assert forall|i: int| 0 <= i < w implies (#[trigger] p[i]) == i by {
        lemma_order_is_identity(out, p, w, i);
    }
    assert(p =~= identity_seq(w));
    lemma_limit(w as u16);
    assert forall|k: int| 0 <= k < out.len() implies f(#[trigger] out[k]) == out[k] by {
        crate::subsumption::lemma_permuted_by_identity(out[k], w as u16);
    }
    assert forall|k: int| 0 <= k < out.len() implies again.contains(#[trigger] out[k]) by {
        assert(again.contains(f(out[k])));
    }
    assert forall|k: int| 0 <= k < again.len() implies out.contains(#[trigger] again[k]) by {
        let i = choose|i: int| 0 <= i < out.len() && f(out[i]) == again[k];
        assert(out[i] == again[k]);
    }
    lemma_ascending_unique(again, out);
}

/// A permutation that puts channels in order which are in order leaves the
/// channels up to `i` where they are.
proof fn lemma_order_is_identity(out: Seq<u16>, p: Seq<usize>, w: nat, i: int)
    requires
        weights_descend(out, w),
        is_permutation(p, w),
        ordered_by_weight(out, p),
        0 <= i < w,
    ensures
        forall|k: int| 0 <= k <= i ==> (#[trigger] p[k]) == k,
    decreases i,
{
    if i > 0 {
        lemma_order_is_identity(out, p, w, i - 1);
    }
    if p[i] != i {
        // the channel `i` comes later, behind a channel with a larger index
        lemma_permutation_onto(p, w, i);
        let m = choose|m: int| 0 <= m < w && p[m] == i;
        assert(m > i) by {
            if m < i {
                assert(p[m] == m);
            }
        }
        let j = p[i] as int;
        assert(j > i) by {
            if j < i {
                assert(p[j] == j);
                assert(p[j] != p[i]);
            }
        }
        assert(precedes(out, p[i], p[m]));
        assert(weight_at(out, i) >= weight_at(out, j));
    }
}

/// Subsumption, without a permutation of the channels, is reflexive and
/// transitive, and two output sets that subsume each other have the same
/// values.
pub proof fn lemma_subsumes_is_an_order(a: Seq<u16>, b: Seq<u16>, c: Seq<u16>)
    ensures
        is_subset(a, a),
        is_subset(a, b) && is_subset(b, c) ==> is_subset(a, c),
        strictly_ascending(a) && strictly_ascending(b) && is_subset(a, b) && is_subset(b, a) ==> a
            == b,
{
    assert forall|i: int| 0 <= i < a.len() implies a.contains(#[trigger] a[i]) by {}
    if is_subset(a, b) && is_subset(b, c) {
        assert forall|i: int| 0 <= i < a.len() implies c.contains(#[trigger] a[i]) by {
            assert(b.contains(a[i]));
            let j = choose|j: int| 0 <= j < b.len() && b[j] == a[i];
            assert(c.contains(b[j]));
        }
    }
    if strictly_ascending(a) && strictly_ascending(b) && is_subset(a, b) && is_subset(b, a) {
        lemma_ascending_unique(a, b);
    }
}

/// Whether `v` is a run of ones from channel 0 upwards.
pub open spec fn is_threshold(v: u16) -> bool {
    v & ((v + 1) as u16) == 0
}

/// The image of `{0,1}^w` under a comparator network, as the ascending
/// sequence of the values it can produce.
#[derive(PartialEq, Eq, PartialOrd, Ord, Hash, Debug)]
pub struct OutputSet {
    channels: usize,
    values: Vec<u16>,
}

impl View for OutputSet {
    type V = Seq<u16>;

    closed spec fn view(&self) -> Seq<u16> {
        self.values@
    }
}

impl Clone for OutputSet {
    fn clone(&self) -> (r: Self)
        ensures
            r@ == self@,
            r.width() == self.width(),
    {
        OutputSet { channels: self.channels, values: self.values.clone() }
    }
}

impl OutputSet {
    /// The number of channels, in specifications.
    pub closed spec fn width(&self) -> nat {
        self.channels as nat
    }

    /// The invariant of an output set.
    pub open spec fn wf(&self) -> bool {
        &&& self.width() <= MAX_CHANNELS
        &&& is_value_seq(self@, self.width())
    }

    /// The output set of the empty network: every `channels`-bit value.
    pub fn all_values(channels: usize) -> (r: Self)
        requires
            channels <= MAX_CHANNELS,
        ensures
            r.wf(),
            r.width() == channels,
            r@.len() == pow2(channels as nat),
            forall|i: int| 0 <= i < r@.len() ==> r@[i] == i,
    {
        proof {
            lemma_limit(channels as u16);
        }
        let count: usize = 1usize << channels;
        assert(count == pow2(channels as nat)) by {
            assert(1usize << channels == (1u16 << (channels as u16)) as usize) by (bit_vector)
                requires
                    channels <= 15,
            ;
        }
        let mut values: Vec<u16> = Vec::with_capacity(count);
        let mut next: usize = 0;
        while next < count
            invariant
                next <= count <= 32768,
                values@.len() == next,
                forall|i: int| 0 <= i < next ==> values@[i] == i,
            decreases count - next,
        {
            values.push(next as u16);
            next += 1;
        }
        OutputSet { channels, values }
    }

    /// The output set behind one more comparator on channels `a` and `b`:
    /// a value with a zero on `a` and a one on `b` has the two exchanged, so
    /// that afterwards `a` carries a one wherever `b` does.
    pub fn apply_comparator(&self, a: usize, b: usize) -> (r: Self)
        requires
            self.wf(),
            a != b,
            a < self.width(),
            b < self.width(),
        ensures
            r.wf(),
            r.width() == self.width(),
            r@.len() <= self@.len(),
            is_image(r@, self@, |v: u16| comparator_image(v, a as u16, b as u16)),
    {
        let ghost image = |v: u16| comparator_image(v, a as u16, b as u16);
        let ghost w = self.channels as u16;
        let ghost src = self.values@;
        let count = self.values.len();
        proof {
            lemma_limit(w);
            lemma_ascending_bounds(src, count - 1);
            assert forall|i: int| 0 <= i < count implies image(src[i]) < pow2(w as nat) by {
                lemma_comparator_image(src[i], a as u16, b as u16, w);
            }
        }
        let mask_a: u16 = 1u16 << a;
        let mask_b: u16 = 1u16 << b;
        let mask: u16 = mask_a | mask_b;

        let mut keep = buffer_new();
        let mut swap = buffer_new();
        let ghost mut keep_from: Seq<int> = Seq::empty();
        let ghost mut swap_from: Seq<int> = Seq::empty();
        let mut at: usize = 0;
        while at < count
            invariant
                at <= count == src.len() <= 32768,
                src == self.values@,
                self.wf(),
                w == self.channels,
                a != b,
                a < w,
                b < w,
                mask_b == 1u16 << (b as u16),
                mask == pair_mask(a as u16, b as u16),
                image == (|v: u16| comparator_image(v, a as u16, b as u16)),
                buffered(keep).len() == keep_from.len(),
                buffered(swap).len() == swap_from.len(),
                keep_from.len() + swap_from.len() == at,
                forall|k: int|
                    0 <= k < keep_from.len() ==> 0 <= #[trigger] keep_from[k] < at && buffered(
                        keep,
                    )[k] == src[keep_from[k]] && image(src[keep_from[k]]) == src[keep_from[k]],
                forall|k: int|
                    0 <= k < swap_from.len() ==> 0 <= #[trigger] swap_from[k] < at && buffered(
                        swap,
                    )[k] == image(src[swap_from[k]]) && has_bit(src[swap_from[k]], b as u16)
                        && !has_bit(src[swap_from[k]], a as u16),
                strictly_ascending(buffered(keep)),
                strictly_ascending(buffered(swap)),
                forall|i: int|
                    0 <= i < at ==> buffered(keep).contains(image(#[trigger] src[i])) || buffered(
                        swap,
                    ).contains(image(src[i])),
                forall|i: int|
                    0 <= i < at && image(#[trigger] src[i]) != src[i] ==> swap_from.len() > 0,
                forall|i: int|
                    0 <= i < at && image(#[trigger] src[i]) == src[i] ==> keep_from.len() > 0,
            decreases count - at,
        {
            let value = self.values[at];
            let ghost old_keep = buffered(keep);
            let ghost old_swap = buffered(swap);
            proof {
                lemma_limit(w);
                lemma_comparator_image(value, a as u16, b as u16, w);
            }
            if value & mask == mask_b {
                buffer_push(&mut swap, value ^ mask);
                proof {
                    assert forall|i: int, j: int| 0 <= i < j < buffered(swap).len() implies buffered(
                        swap,
                    )[i] < buffered(swap)[j] by {
                        if j == old_swap.len() {
                            lemma_comparator_image(src[swap_from[i]], a as u16, b as u16, w);
                            lemma_flip_keeps_order(src[swap_from[i]], value, a as u16, b as u16);
                        } else {
                            assert(old_swap[i] < old_swap[j]);
                        }
                    }
                    swap_from = swap_from.push(at as int);
                    assert(buffered(swap)[swap_from.len() - 1] == image(src[at as int]));
                    assert forall|i: int| 0 <= i < at + 1 implies buffered(keep).contains(
                        image(#[trigger] src[i]),
                    ) || buffered(swap).contains(image(src[i])) by {
                        if i < at {
                            if old_swap.contains(image(src[i])) {
                                let k = choose|k: int|
                                    0 <= k < old_swap.len() && old_swap[k] == image(src[i]);
                                assert(buffered(swap)[k] == image(src[i]));
                            }
                        }
                    }
                }
            } else {
                buffer_push(&mut keep, value);
                proof {
                    assert forall|i: int, j: int| 0 <= i < j < buffered(keep).len() implies buffered(
                        keep,
                    )[i] < buffered(keep)[j] by {
                        if j == old_keep.len() {
                            assert(old_keep[i] == src[keep_from[i]]);
                        } else {
                            assert(old_keep[i] < old_keep[j]);
                        }
                    }
                    keep_from = keep_from.push(at as int);
                    assert(buffered(keep)[keep_from.len() - 1] == image(src[at as int]));
                    assert forall|i: int| 0 <= i < at + 1 implies buffered(keep).contains(
                        image(#[trigger] src[i]),
                    ) || buffered(swap).contains(image(src[i])) by {
                        if i < at {
                            if old_keep.contains(image(src[i])) {
                                let k = choose|k: int|
                                    0 <= k < old_keep.len() && old_keep[k] == image(src[i]);
                                assert(buffered(keep)[k] == image(src[i]));
                            }
                        }
                    }
                }
            }
            at += 1;
        }

        let ghost kept = buffered(keep);
        let ghost swapped = buffered(swap);
        proof {
            // neither buffer holds every value, so both have room for the end mark
            lemma_limit(w);
            lemma_comparator_image(0, a as u16, b as u16, w);
            assert(image(src[0]) == src[0]);
            if count == 32768 {
                let at_b = mask_b as int;
                lemma_ascending_bounds(src, at_b);
                assert(src[at_b] == mask_b);
                lemma_comparator_image(mask_b, a as u16, b as u16, w);
                assert(image(src[at_b]) != src[at_b]);
            }
            assert forall|k: int| 0 <= k < kept.len() implies (#[trigger] kept[k]) < 0x8000 by {
                lemma_comparator_image(src[keep_from[k]], a as u16, b as u16, w);
            }
            assert forall|k: int| 0 <= k < swapped.len() implies (#[trigger] swapped[k])
                < 0x8000 by {
                lemma_comparator_image(src[swap_from[k]], a as u16, b as u16, w);
            }
        }
        buffer_push(&mut keep, 0xffffu16);
        buffer_push(&mut swap, 0xffffu16);

        let mut values: Vec<u16> = Vec::with_capacity(count);
        let ghost mut from: Seq<int> = Seq::empty();
        let mut keep_at: usize = 0;
        let mut swap_at: usize = 0;
        loop
            invariant
                keep_at <= kept.len(),
                swap_at <= swapped.len(),
                buffered(keep) == kept.push(0xffffu16),
                buffered(swap) == swapped.push(0xffffu16),
                strictly_ascending(kept),
                strictly_ascending(swapped),
                strictly_ascending(values@),
                kept.len() + swapped.len() == count == src.len(),
                forall|k: int| 0 <= k < kept.len() ==> (#[trigger] kept[k]) < 0x8000,
                forall|k: int| 0 <= k < swapped.len() ==> (#[trigger] swapped[k]) < 0x8000,
                forall|k: int|
                    0 <= k < kept.len() ==> 0 <= #[trigger] keep_from[k] < count && kept[k]
                        == image(src[keep_from[k]]),
                forall|k: int|
                    0 <= k < swapped.len() ==> 0 <= #[trigger] swap_from[k] < count && swapped[k]
                        == image(src[swap_from[k]]),
                keep_from.len() == kept.len(),
                swap_from.len() == swapped.len(),
                values@.len() == from.len(),
                values@.len() <= keep_at + swap_at,
                forall|o: int|
                    0 <= o < from.len() ==> 0 <= #[trigger] from[o] < count && values@[o] == image(
                        src[from[o]],
                    ),
                forall|o: int|
                    0 <= o < values@.len() ==> (#[trigger] values@[o]) < buffered(
                        keep,
                    )[keep_at as int] && values@[o] < buffered(swap)[swap_at as int],
                forall|k: int| 0 <= k < keep_at ==> values@.contains(#[trigger] kept[k]),
                forall|k: int| 0 <= k < swap_at ==> values@.contains(#[trigger] swapped[k]),
            ensures
                keep_at == kept.len(),
                swap_at == swapped.len(),
                strictly_ascending(values@),
                values@.len() == from.len(),
                values@.len() <= count,
                forall|o: int|
                    0 <= o < from.len() ==> 0 <= #[trigger] from[o] < count && values@[o] == image(
                        src[from[o]],
                    ),
                forall|k: int| 0 <= k < kept.len() ==> values@.contains(#[trigger] kept[k]),
                forall|k: int| 0 <= k < swapped.len() ==> values@.contains(#[trigger] swapped[k]),
            decreases (kept.len() - keep_at) + (swapped.len() - swap_at),
        {
            let swap_value = buffer_get(&swap, swap_at);
            let keep_value = buffer_get(&keep, keep_at);
            let value = if swap_value < keep_value {
                swap_value
            } else {
                keep_value
            };
            if value == 0xffffu16 {
                break ;
            }
            let ghost before = values@;
            values.push(value);
            proof {
                if keep_value == value {
                    from = from.push(keep_from[keep_at as int]);
                } else {
                    from = from.push(swap_from[swap_at as int]);
                }
                assert forall|k: int| 0 <= k < keep_at implies values@.contains(
                    #[trigger] kept[k],
                ) by {
                    let o = choose|o: int| 0 <= o < before.len() && before[o] == kept[k];
                    assert(values@[o] == kept[k]);
                }
                assert forall|k: int| 0 <= k < swap_at implies values@.contains(
                    #[trigger] swapped[k],
                ) by {
                    let o = choose|o: int| 0 <= o < before.len() && before[o] == swapped[k];
                    assert(values@[o] == swapped[k]);
                }
                assert(values@[values@.len() - 1] == value);
            }
            if swap_value == value {
                swap_at += 1;
            }
            if keep_value == value {
                keep_at += 1;
            }
        }

        let r = OutputSet { channels: self.channels, values };
        proof {
            assert forall|i: int| 0 <= i < src.len() implies r@.contains(image(#[trigger] src[i])) by {
                if kept.contains(image(src[i])) {
                    let k = choose|k: int| 0 <= k < kept.len() && kept[k] == image(src[i]);
                    assert(r@.contains(kept[k]));
                } else {
                    let k = choose|k: int| 0 <= k < swapped.len() && swapped[k] == image(src[i]);
                    assert(r@.contains(swapped[k]));
                }
            }
            assert forall|k: int| 0 <= k < r@.len() implies exists|i: int|
                0 <= i < src.len() && image(src[i]) == #[trigger] r@[k] by {
                assert(image(src[from[k]]) == r@[k]);
            }
            lemma_extremes(r@, src, image, w as nat);
        }
        r
    }

    /// Exchanges channels `a` and `b` in every value.
    #[verifier::rlimit(60)]
    pub fn swap_channels(&mut self, a: usize, b: usize)
        requires
            old(self).wf(),
            a < old(self).width(),
            b < old(self).width(),
        ensures
            final(self).wf(),
            final(self).width() == old(self).width(),
            final(self)@.len() == old(self)@.len(),
            is_image(final(self)@, old(self)@, |v: u16| exchange_image(v, a as u16, b as u16)),
    {
        let ghost image = |v: u16| exchange_image(v, a as u16, b as u16);
        let ghost w = self.channels as u16;
        let ghost src = self.values@;
        let count = self.values.len();
        proof {
            lemma_limit(w);
            lemma_ascending_bounds(src, count - 1);
        }
        if a == b {
            proof {
                assert forall|i: int| 0 <= i < src.len() implies src.contains(
                    image(#[trigger] src[i]),
                ) by {
                    assert(image(src[i]) == src[i]);
                }
                assert forall|k: int| 0 <= k < src.len() implies exists|i: int|
                    0 <= i < src.len() && image(src[i]) == #[trigger] src[k] by {
                    assert(image(src[k]) == src[k]);
                }
            }
            return ;
        }
        let mask_a: u16 = 1u16 << a;
        let mask_b: u16 = 1u16 << b;
        let mask: u16 = mask_a | mask_b;

        let mut keep = buffer_new();
        let mut swap_a = buffer_new();
        let mut swap_b = buffer_new();
        let ghost mut keep_from: Seq<int> = Seq::empty();
        let ghost mut a_from: Seq<int> = Seq::empty();
        let ghost mut b_from: Seq<int> = Seq::empty();
        let mut at: usize = 0;
        while at < count
            invariant
                at <= count == src.len() <= 32768,
                src == self.values@,
                self.wf(),
                w == self.channels,
                a != b,
                a < w,
                b < w,
                mask_a == 1u16 << (a as u16),
                mask_b == 1u16 << (b as u16),
                mask == pair_mask(a as u16, b as u16),
                image == (|v: u16| exchange_image(v, a as u16, b as u16)),
                buffered(keep).len() == keep_from.len(),
                buffered(swap_a).len() == a_from.len(),
                buffered(swap_b).len() == b_from.len(),
                keep_from.len() + a_from.len() + b_from.len() == at,
                forall|k: int|
                    0 <= k < keep_from.len() ==> 0 <= #[trigger] keep_from[k] < at && buffered(
                        keep,
                    )[k] == src[keep_from[k]] && image(src[keep_from[k]]) == src[keep_from[k]],
                forall|k: int|
                    0 <= k < a_from.len() ==> 0 <= #[trigger] a_from[k] < at && buffered(
                        swap_a,
                    )[k] == image(src[a_from[k]]) && has_bit(src[a_from[k]], a as u16)
                        && !has_bit(src[a_from[k]], b as u16),
                forall|k: int|
                    0 <= k < b_from.len() ==> 0 <= #[trigger] b_from[k] < at && buffered(
                        swap_b,
                    )[k] == image(src[b_from[k]]) && has_bit(src[b_from[k]], b as u16)
                        && !has_bit(src[b_from[k]], a as u16),
                strictly_ascending(buffered(keep)),
                strictly_ascending(buffered(swap_a)),
                strictly_ascending(buffered(swap_b)),
                forall|i: int|
                    0 <= i < at ==> buffered(keep).contains(image(#[trigger] src[i])) || buffered(
                        swap_a,
                    ).contains(image(src[i])) || buffered(swap_b).contains(image(src[i])),
                forall|i: int|
                    0 <= i < at && image(#[trigger] src[i]) != src[i] ==> a_from.len()
                        + b_from.len() > 0,
                forall|i: int|
                    0 <= i < at && image(#[trigger] src[i]) == src[i] ==> keep_from.len() > 0,
            decreases count - at,
        {
            let value = self.values[at];
            let ghost old_keep = buffered(keep);
            let ghost old_a = buffered(swap_a);
            let ghost old_b = buffered(swap_b);
            proof {
                lemma_limit(w);
                lemma_exchange_image(value, a as u16, b as u16, w);
            }
            if value & mask == mask_a {
                buffer_push(&mut swap_a, value ^ mask);
                proof {
                    assert forall|i: int, j: int|
                        0 <= i < j < buffered(swap_a).len() implies buffered(swap_a)[i] < buffered(
                        swap_a,
                    )[j] by {
                        if j == old_a.len() {
                            lemma_exchange_image(src[a_from[i]], a as u16, b as u16, w);
                            lemma_flip_keeps_order(src[a_from[i]], value, b as u16, a as u16);
                            assert(pair_mask(a as u16, b as u16) == pair_mask(b as u16, a as u16))
                                by (bit_vector);
                        } else {
                            assert(old_a[i] < old_a[j]);
                        }
                    }
                    a_from = a_from.push(at as int);
                    assert(buffered(swap_a)[a_from.len() - 1] == image(src[at as int]));
                }
            } else if value & mask == mask_b {
                buffer_push(&mut swap_b, value ^ mask);
                proof {
                    assert forall|i: int, j: int|
                        0 <= i < j < buffered(swap_b).len() implies buffered(swap_b)[i] < buffered(
                        swap_b,
                    )[j] by {
                        if j == old_b.len() {
                            lemma_exchange_image(src[b_from[i]], a as u16, b as u16, w);
                            lemma_flip_keeps_order(src[b_from[i]], value, a as u16, b as u16);
                        } else {
                            assert(old_b[i] < old_b[j]);
                        }
                    }
                    b_from = b_from.push(at as int);
                    assert(buffered(swap_b)[b_from.len() - 1] == image(src[at as int]));
                }
            } else {
                buffer_push(&mut keep, value);
                proof {
                    assert forall|i: int, j: int| 0 <= i < j < buffered(keep).len() implies buffered(
                        keep,
                    )[i] < buffered(keep)[j] by {
                        if j == old_keep.len() {
                            assert(old_keep[i] == src[keep_from[i]]);
                        } else {
                            assert(old_keep[i] < old_keep[j]);
                        }
                    }
                    keep_from = keep_from.push(at as int);
                    assert(buffered(keep)[keep_from.len() - 1] == image(src[at as int]));
                }
            }
            proof {
                assert forall|i: int| 0 <= i < at + 1 implies buffered(keep).contains(
                    image(#[trigger] src[i]),
                ) || buffered(swap_a).contains(image(src[i])) || buffered(swap_b).contains(
                    image(src[i]),
                ) by {
                    if i < at {
                        if old_keep.contains(image(src[i])) {
                            let k = choose|k: int|
                                0 <= k < old_keep.len() && old_keep[k] == image(src[i]);
                            assert(buffered(keep)[k] == image(src[i]));
                        } else if old_a.contains(image(src[i])) {
                            let k = choose|k: int| 0 <= k < old_a.len() && old_a[k] == image(src[i]);
                            assert(buffered(swap_a)[k] == image(src[i]));
                        } else {
                            let k = choose|k: int| 0 <= k < old_b.len() && old_b[k] == image(src[i]);
                            assert(buffered(swap_b)[k] == image(src[i]));
                        }
                    }
                }
            }
            at += 1;
        }

        let ghost kept = buffered(keep);
        let ghost moved_a = buffered(swap_a);
        let ghost moved_b = buffered(swap_b);
        proof {
            // no buffer holds every value, so each has room for the end mark
            lemma_limit(w);
            lemma_exchange_image(0, a as u16, b as u16, w);
            assert(image(src[0]) == src[0]);
            if count == 32768 {
                let at_b = mask_b as int;
                lemma_ascending_bounds(src, at_b);
                assert(src[at_b] == mask_b);
                lemma_exchange_image(mask_b, a as u16, b as u16, w);
                assert(image(src[at_b]) != src[at_b]);
            }
            assert forall|k: int| 0 <= k < kept.len() implies (#[trigger] kept[k]) < 0x8000 by {
                lemma_exchange_image(src[keep_from[k]], a as u16, b as u16, w);
            }
            assert forall|k: int| 0 <= k < moved_a.len() implies (#[trigger] moved_a[k])
                < 0x8000 by {
                lemma_exchange_image(src[a_from[k]], a as u16, b as u16, w);
            }
            assert forall|k: int| 0 <= k < moved_b.len() implies (#[trigger] moved_b[k])
                < 0x8000 by {
                lemma_exchange_image(src[b_from[k]], a as u16, b as u16, w);
            }
        }
        buffer_push(&mut keep, 0xffffu16);
        buffer_push(&mut swap_a, 0xffffu16);
        buffer_push(&mut swap_b, 0xffffu16);

        let mut values: Vec<u16> = Vec::with_capacity(count);
        let ghost mut from: Seq<int> = Seq::empty();
        let mut keep_at: usize = 0;
        let mut a_at: usize = 0;
        let mut b_at: usize = 0;
        loop
            invariant
                keep_at <= kept.len(),
                a_at <= moved_a.len(),
                b_at <= moved_b.len(),
                buffered(keep) == kept.push(0xffffu16),
                buffered(swap_a) == moved_a.push(0xffffu16),
                buffered(swap_b) == moved_b.push(0xffffu16),
                strictly_ascending(kept),
                strictly_ascending(moved_a),
                strictly_ascending(moved_b),
                strictly_ascending(values@),
                strictly_ascending(src),
                a < w,
                b < w,
                w <= 15,
                image == (|v: u16| exchange_image(v, a as u16, b as u16)),
                forall|i: int| 0 <= i < src.len() ==> (#[trigger] src[i]) < pow2(w as nat),
                kept.len() + moved_a.len() + moved_b.len() == count == src.len(),
                forall|k: int| 0 <= k < kept.len() ==> (#[trigger] kept[k]) < 0x8000,
                forall|k: int| 0 <= k < moved_a.len() ==> (#[trigger] moved_a[k]) < 0x8000,
                forall|k: int| 0 <= k < moved_b.len() ==> (#[trigger] moved_b[k]) < 0x8000,
                forall|k: int|
                    0 <= k < kept.len() ==> 0 <= #[trigger] keep_from[k] < count && kept[k]
                        == image(src[keep_from[k]]) && image(src[keep_from[k]])
                        == src[keep_from[k]],
                forall|k: int|
                    0 <= k < moved_a.len() ==> 0 <= #[trigger] a_from[k] < count && moved_a[k]
                        == image(src[a_from[k]]) && has_bit(src[a_from[k]], a as u16) && !has_bit(
                        src[a_from[k]],
                        b as u16,
                    ),
                forall|k: int|
                    0 <= k < moved_b.len() ==> 0 <= #[trigger] b_from[k] < count && moved_b[k]
                        == image(src[b_from[k]]) && has_bit(src[b_from[k]], b as u16) && !has_bit(
                        src[b_from[k]],
                        a as u16,
                    ),
                keep_from.len() == kept.len(),
                a_from.len() == moved_a.len(),
                b_from.len() == moved_b.len(),
                values@.len() == from.len(),
                values@.len() == keep_at + a_at + b_at,
                forall|o: int|
                    0 <= o < from.len() ==> 0 <= #[trigger] from[o] < count && values@[o] == image(
                        src[from[o]],
                    ),
                forall|o: int|
                    0 <= o < values@.len() ==> (#[trigger] values@[o]) < buffered(
                        keep,
                    )[keep_at as int] && values@[o] < buffered(swap_a)[a_at as int] && values@[o]
                        < buffered(swap_b)[b_at as int],
                forall|k: int| 0 <= k < keep_at ==> values@.contains(#[trigger] kept[k]),
                forall|k: int| 0 <= k < a_at ==> values@.contains(#[trigger] moved_a[k]),
                forall|k: int| 0 <= k < b_at ==> values@.contains(#[trigger] moved_b[k]),
            ensures
                keep_at == kept.len(),
                a_at == moved_a.len(),
                b_at == moved_b.len(),
                strictly_ascending(values@),
                values@.len() == from.len(),
                values@.len() == count,
                forall|o: int|
                    0 <= o < from.len() ==> 0 <= #[trigger] from[o] < count && values@[o] == image(
                        src[from[o]],
                    ),
                forall|k: int| 0 <= k < kept.len() ==> values@.contains(#[trigger] kept[k]),
                forall|k: int| 0 <= k < moved_a.len() ==> values@.contains(#[trigger] moved_a[k]),
                forall|k: int| 0 <= k < moved_b.len() ==> values@.contains(#[trigger] moved_b[k]),
            decreases (kept.len() - keep_at) + (moved_a.len() - a_at) + (moved_b.len() - b_at),
        {
            let a_value = buffer_get(&swap_a, a_at);
            let b_value = buffer_get(&swap_b, b_at);
            let keep_value = buffer_get(&keep, keep_at);
            let least = if a_value < b_value {
                a_value
            } else {
                b_value
            };
            let value = if least < keep_value {
                least
            } else {
                keep_value
            };
            if value == 0xffffu16 {
                break ;
            }
            let ghost before = values@;
            values.push(value);
            proof {
                // exchanging is one-to-one, so only one buffer has `value` next
                lemma_limit(w);
                if keep_value == value {
                    let i = keep_from[keep_at as int];
                    lemma_exchange_image(src[i], a as u16, b as u16, w);
                    if a_value == value {
                        let j = a_from[a_at as int];
                        lemma_exchange_image(src[j], a as u16, b as u16, w);
                        assert(false);
                    }
                    if b_value == value {
                        let j = b_from[b_at as int];
                        lemma_exchange_image(src[j], a as u16, b as u16, w);
                        assert(false);
                    }
                    from = from.push(i);
                } else if a_value == value {
                    let i = a_from[a_at as int];
                    lemma_exchange_image(src[i], a as u16, b as u16, w);
                    if b_value == value {
                        let j = b_from[b_at as int];
                        lemma_exchange_image(src[j], a as u16, b as u16, w);
                        assert(false);
                    }
                    from = from.push(i);
                } else {
                    from = from.push(b_from[b_at as int]);
                }
                assert forall|k: int| 0 <= k < keep_at implies values@.contains(
                    #[trigger] kept[k],
                ) by {
                    let o = choose|o: int| 0 <= o < before.len() && before[o] == kept[k];
                    assert(values@[o] == kept[k]);
                }
                assert forall|k: int| 0 <= k < a_at implies values@.contains(
                    #[trigger] moved_a[k],
                ) by {
                    let o = choose|o: int| 0 <= o < before.len() && before[o] == moved_a[k];
                    assert(values@[o] == moved_a[k]);
                }
                assert forall|k: int| 0 <= k < b_at implies values@.contains(
                    #[trigger] moved_b[k],
                ) by {
                    let o = choose|o: int| 0 <= o < before.len() && before[o] == moved_b[k];
                    assert(values@[o] == moved_b[k]);
                }
                assert(values@[values@.len() - 1] == value);
            }
            if a_value == value {
                a_at += 1;
            }
            if b_value == value {
                b_at += 1;
            }
            if keep_value == value {
                keep_at += 1;
            }
        }

        proof {
            assert forall|i: int| 0 <= i < src.len() implies values@.contains(
                image(#[trigger] src[i]),
            ) by {
                if kept.contains(image(src[i])) {
                    let k = choose|k: int| 0 <= k < kept.len() && kept[k] == image(src[i]);
                    assert(values@.contains(kept[k]));
                } else if moved_a.contains(image(src[i])) {
                    let k = choose|k: int| 0 <= k < moved_a.len() && moved_a[k] == image(src[i]);
                    assert(values@.contains(moved_a[k]));
                } else {
                    let k = choose|k: int| 0 <= k < moved_b.len() && moved_b[k] == image(src[i]);
                    assert(values@.contains(moved_b[k]));
                }
            }
            assert forall|k: int| 0 <= k < values@.len() implies exists|i: int|
                0 <= i < src.len() && image(src[i]) == #[trigger] values@[k] by {
                assert(image(src[from[k]]) == values@[k]);
            }
            assert forall|i: int| 0 <= i < src.len() implies image(#[trigger] src[i]) < pow2(
                w as nat,
            ) by {
                lemma_exchange_image(src[i], a as u16, b as u16, w);
            }
            lemma_exchange_image(0, a as u16, b as u16, w);
            lemma_extremes(values@, src, image, w as nat);
        }
        self.values = values;
    }

    /// Whether every value of `self` is a value of `other`.
    pub fn subsumes(&self, other: &OutputSet) -> (r: bool)
        requires
            self.wf(),
            other.wf(),
            self.width() == other.width(),
        ensures
            r == is_subset(self@, other@),
    {
        let ghost mine = self.values@;
        let ghost theirs = other.values@;
        let count = self.values.len();
        let other_count = other.values.len();
        if other_count < count {
            proof {
                if is_subset(mine, theirs) {
                    lemma_subset_len(mine, theirs);
                }
            }
            return false;
        }
        let mut slack: usize = other_count - count;
        let mut at: usize = 0;
        let mut other_at: usize = 0;
        while at < count
            invariant
                mine == self.values@,
                theirs == other.values@,
                strictly_ascending(mine),
                strictly_ascending(theirs),
                count == mine.len(),
                other_count == theirs.len(),
                at <= count,
                other_at <= other_count,
                at <= other_at,
                slack + (other_at - at) == other_count - count,
                forall|k: int| 0 <= k < at ==> theirs.contains(#[trigger] mine[k]),
                forall|k: int| 0 <= k < other_at && at < count ==> (#[trigger] theirs[k]) < mine[at as int],
            decreases (count - at) + (other_count - other_at),
        {
            let value = self.values[at];
            if other_at >= other_count {
                proof {
                    assert(!theirs.contains(value));
                }
                return false;
            }
            let other_value = other.values[other_at];
            if other_value == value {
                at += 1;
                other_at += 1;
            } else if other_value > value {
                proof {
                    if theirs.contains(value) {
                        let k = choose|k: int| 0 <= k < theirs.len() && theirs[k] == value;
                        if k > other_at {
                            assert(theirs[other_at as int] < theirs[k]);
                        }
                    }
                }
                return false;
            } else {
                if slack == 0 {
                    proof {
                        if is_subset(mine, theirs) {
                            let rest = mine.subrange(at as int, count as int);
                            let other_rest = theirs.subrange(other_at + 1, other_count as int);
                            assert forall|i: int| 0 <= i < rest.len() implies other_rest.contains(
                                #[trigger] rest[i],
                            ) by {
                                assert(theirs.contains(mine[at + i]));
                                let k = choose|k: int|
                                    0 <= k < theirs.len() && theirs[k] == mine[at + i];
                                if i > 0 {
                                    assert(mine[at as int] < mine[at + i]);
                                }
                                if k <= other_at {
                                    if k < other_at {
                                        assert(theirs[k] < theirs[other_at as int]);
                                    }
                                }
                                assert(other_rest[k - other_at - 1] == rest[i]);
                            }
                            lemma_subset_len(rest, other_rest);
                        }
                    }
                    return false;
                }
                slack -= 1;
                other_at += 1;
            }
        }
        true
    }

    /// For each channel, how many values have a one on it.
    pub fn channel_weights(&self) -> (r: CVec<u16>)
        requires
            self.wf(),
        ensures
            words(r).len() == self.width(),
            forall|c: int|
                0 <= c < self.width() ==> (#[trigger] words(r)[c]) == channel_weight(
                    self@,
                    c as u16,
                ),
    {
        let count = self.values.len();
        proof {
            lemma_limit(self.channels as u16);
            lemma_ascending_bounds(self.values@, count - 1);
        }
        let mut weights = words_new();
        let mut channel: usize = 0;
        while channel < self.channels
            invariant
                channel <= self.channels <= 15,
                count == self.values@.len() <= 32768,
                words(weights).len() == channel,
                forall|c: int|
                    0 <= c < channel ==> (#[trigger] words(weights)[c]) == channel_weight(
                        self@,
                        c as u16,
                    ),
            decreases self.channels - channel,
        {
            let mask: u16 = 1u16 << channel;
            let ghost on = |v: u16| has_bit(v, channel as u16);
            let mut weight: u16 = 0;
            let mut at: usize = 0;
            while at < count
                invariant
                    at <= count == self.values@.len() <= 32768,
                    mask == 1u16 << (channel as u16),
                    on == (|v: u16| has_bit(v, channel as u16)),
                    weight == count_where(self.values@.take(at as int), on),
                    weight <= at,
                decreases count - at,
            {
                proof {
                    let next = self.values@.take(at + 1);
                    assert(next.drop_last() =~= self.values@.take(at as int));
                    assert(next.last() == self.values@[at as int]);
                }
                if self.values[at] & mask != 0 {
                    weight += 1;
                }
                at += 1;
            }
            proof {
                assert(self.values@.take(count as int) =~= self.values@);
            }
            words_push(&mut weights, weight);
            channel += 1;
        }
        weights
    }

    /// Rearranges the channels of every value: channel `i` of a new value
    /// carries what channel `perm[i]` of the old one carried.
    pub fn permute_channels(&mut self, perm: CVec<usize>)
        requires
            old(self).wf(),
            is_permutation(indices(perm), old(self).width()),
        ensures
            final(self).wf(),
            final(self).width() == old(self).width(),
            final(self)@.len() == old(self)@.len(),
            is_image(final(self)@, old(self)@, |v: u16| permuted_value(v, indices(perm))),
    {
        let ghost p = indices(perm);
        let ghost image = |v: u16| permuted_value(v, indices(perm));
        let ghost src = self.values@;
        let ghost w = self.channels as u16;
        let channels = self.channels;
        let count = self.values.len();
        let mut values: Vec<u16> = Vec::with_capacity(count);
        let mut at: usize = 0;
        while at < count
            invariant
                at <= count == src.len(),
                src == self.values@,
                channels == w <= 15,
                p == indices(perm),
                is_permutation(p, w as nat),
                values@.len() == at,
                forall|k: int| 0 <= k < at ==> (#[trigger] values@[k]) == permuted_value(src[k], p),
            decreases count - at,
        {
            let value = self.values[at];
            let mut out: u16 = 0;
            let mut channel: usize = 0;
            while channel < channels
                invariant
                    channel <= channels == w <= 15,
                    p == indices(perm),
                    is_permutation(p, w as nat),
                    out == permuted_value(value, p.take(channel as int)),
                decreases channels - channel,
            {
                let from = indices_get(&perm, channel);
                proof {
                    let next = p.take(channel + 1);
                    assert(next.drop_last() =~= p.take(channel as int));
                    assert(next.last() == p[channel as int]);
                }
                if value & (1u16 << from) != 0 {
                    out = out | (1u16 << channel);
                }
                channel += 1;
            }
            proof {
                assert(p.take(channels as int) =~= p);
            }
            values.push(out);
            at += 1;
        }
        let ghost mapped = values@;
        sort_values(&mut values);
        proof {
            let sorted = values@;
            lemma_limit(w);
            assert forall|i: int, j: int| 0 <= i < mapped.len() && 0 <= j < mapped.len() && i
                != j implies mapped[i] != mapped[j] by {
                if i < j {
                    assert(src[i] < src[j]);
                } else {
                    assert(src[j] < src[i]);
                }
                lemma_permuted_injective(src[i], src[j], p, w);
            }
            mapped.lemma_multiset_has_no_duplicates();
            sorted.lemma_multiset_has_no_duplicates_conv();
            vstd::seq_lib::to_multiset_len(mapped);
            vstd::seq_lib::to_multiset_len(sorted);
            assert forall|x: u16| sorted.contains(x) == mapped.contains(x) by {
                vstd::seq_lib::to_multiset_contains(mapped, x);
                vstd::seq_lib::to_multiset_contains(sorted, x);
            }
            assert(strictly_ascending(sorted)) by {
                assert forall|i: int, j: int| 0 <= i < j < sorted.len() implies sorted[i]
                    < sorted[j] by {
                    assert(sorted[i] <= sorted[j]);
                    assert(sorted[i] != sorted[j]);
                }
            }
            assert forall|i: int| 0 <= i < src.len() implies sorted.contains(
                image(#[trigger] src[i]),
            ) by {
                assert(mapped[i] == image(src[i]));
                assert(mapped.contains(image(src[i])));
            }
            assert forall|k: int| 0 <= k < sorted.len() implies exists|i: int|
                0 <= i < src.len() && image(src[i]) == #[trigger] sorted[k] by {
                assert(sorted.contains(sorted[k]));
                assert(mapped.contains(sorted[k]));
                let i = choose|i: int| 0 <= i < mapped.len() && mapped[i] == sorted[k];
                assert(image(src[i]) == sorted[k]);
            }
            assert forall|i: int| 0 <= i < src.len() implies image(#[trigger] src[i]) < pow2(
                w as nat,
            ) by {
                lemma_permuted_bits(src[i], p, 0);
            }
            lemma_permuted_extremes(p, w);
            lemma_extremes(sorted, src, image, w as nat);
        }
        self.values = values;
    }

    /// Puts the channels in order of weight, heaviest first and equally heavy
    /// ones by index, and returns the permutation that does so.
    pub fn order_channels_by_weight(&mut self) -> (r: CVec<usize>)
        requires
            old(self).wf(),
        ensures
            is_permutation(indices(r), old(self).width()),
            ordered_by_weight(old(self)@, indices(r)),
            final(self).wf(),
            final(self).width() == old(self).width(),
            final(self)@.len() == old(self)@.len(),
            is_image(final(self)@, old(self)@, |v: u16| permuted_value(v, indices(r))),
            weights_descend(final(self)@, old(self).width()),
    {
        let ghost src = self.values@;
        let channels = self.channels;
        let weights = self.channel_weights();
        let mut perm = identity(channels);
        let mut done: usize = 0;
        while done < channels
            invariant
                done <= channels <= 15,
                src == self.values@,
                self.wf(),
                channels == self.channels,
                words(weights).len() == channels,
                forall|c: int|
                    0 <= c < channels ==> (#[trigger] words(weights)[c]) == channel_weight(
                        src,
                        c as u16,
                    ),
                is_permutation(indices(perm), channels as nat),
                forall|i: int, j: int|
                    0 <= i < j < channels && i < done ==> precedes(
                        src,
                        #[trigger] indices(perm)[i],
                        #[trigger] indices(perm)[j],
                    ),
            decreases channels - done,
        {
            let ghost p = indices(perm);
            let mut best: usize = done;
            let mut probe: usize = done + 1;
            while probe < channels
                invariant
                    done <= best < probe <= channels <= 15,
                    p == indices(perm),
                    is_permutation(p, channels as nat),
                    words(weights).len() == channels,
                    forall|c: int|
                        0 <= c < channels ==> (#[trigger] words(weights)[c]) == channel_weight(
                            src,
                            c as u16,
                        ),
                    forall|m: int|
                        done <= m < probe && m != best ==> precedes(
                            src,
                            p[best as int],
                            #[trigger] p[m],
                        ),
                decreases channels - probe,
            {
                let probe_channel = indices_get(&perm, probe);
                let best_channel = indices_get(&perm, best);
                let probe_weight = words_get(&weights, probe_channel);
                let best_weight = words_get(&weights, best_channel);
                if probe_weight > best_weight || (probe_weight == best_weight && probe_channel
                    < best_channel) {
                    best = probe;
                }
                probe += 1;
            }
            indices_swap(&mut perm, done, best);
            proof {
                let q = indices(perm);
                assert forall|i: int, j: int|
                    0 <= i < j < channels && i < done + 1 implies precedes(
                    src,
                    #[trigger] q[i],
                    #[trigger] q[j],
                ) by {
                    if i < done {
                        let jj = if j == done {
                            best as int
                        } else if j == best {
                            done as int
                        } else {
                            j
                        };
                        assert(q[j] == p[jj]);
                        assert(precedes(src, p[i], p[jj]));
                    } else {
                        let jj = if j == best {
                            done as int
                        } else {
                            j
                        };
                        assert(q[j] == p[jj]);
                        assert(precedes(src, p[best as int], p[jj]));
                    }
                }
            }
            done += 1;
        }
        self.permute_channels(indices_clone(&perm));
        proof {
            lemma_ordered_weights_descend(src, self.values@, indices(perm), channels as nat);
        }
        perm
    }

    /// Whether `other` has the same channels and the same values.
    pub fn same_as(&self, other: &OutputSet) -> (r: bool)
        ensures
            r == (self.width() == other.width() && self@ == other@),
    {
        if self.channels != other.channels || self.values.len() != other.values.len() {
            return false;
        }
        let mut at: usize = 0;
        while at < self.values.len()
            invariant
                at <= self.values@.len() == other.values@.len(),
                forall|i: int| 0 <= i < at ==> self.values@[i] == other.values@[i],
            decreases self.values@.len() - at,
        {
            if self.values[at] != other.values[at] {
                return false;
            }
            at += 1;
        }
        assert(self.values@ =~= other.values@);
        true
    }

    /// The number of channels.
    pub fn channels(&self) -> (r: usize)
        ensures
            r == self.width(),
    {
        self.channels
    }

    /// The values, ascending.
    pub fn values(&self) -> (r: &[u16])
        ensures
            r@ == self@,
    {
        self.values.as_slice()
    }

    /// Whether the network sorts: every value it can produce is a run of
    /// ones from channel 0 upwards.
    pub fn is_sorted(&self) -> (r: bool)
        requires
            self.wf(),
        ensures
            r == (forall|i: int| 0 <= i < self@.len() ==> is_threshold(#[trigger] self@[i])),
    {
        let mut at: usize = 0;
        while at < self.values.len()
            invariant
                at <= self.values@.len(),
                self.wf(),
                forall|i: int| 0 <= i < at ==> is_threshold(#[trigger] self.values@[i]),
            decreases self.values@.len() - at,
        {
            let value = self.values[at];
            proof {
                lemma_limit(self.channels as u16);
            }
            if value & (value + 1) != 0 {
                return false;
            }
            at += 1;
        }
        true
    }
}

} // verus!
