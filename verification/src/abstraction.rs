//! The abstraction of an output set: for every channel, how its values are
//! spread over the weights of what they carry on the other channels.

use vstd::prelude::*;
use crate::bits::{has_bit, ones, ones_below, lemma_limit, lemma_ones_below_bounds, lemma_ones_of_small_value};
use crate::fixed_vec::{AVec, counts, counts_new, counts_push, counts_len, counts_get, counts_set, counts_swap, counts_clone, counts_as_slice};
use crate::output_set::OutputSet;
use crate::value_seq::{count_where, lemma_count_where_bound, lemma_count_where_same, lemma_ascending_bounds};

verus! {

/// Whether `x` carries a one on channel `c` exactly if `one` says so, and `k`
/// ones on the other channels.
pub open spec fn in_slot(x: u16, c: u16, k: nat, one: bool) -> bool {
    has_bit(x, c) == one && ones(x) == k + if one {
        1nat
    } else {
        0nat
    }
}

/// Where an abstraction on `w` channels keeps the count for channel `c`,
/// `k` ones elsewhere and `one` on the channel itself.
pub open spec fn slot_index(w: nat, c: nat, k: nat, one: bool) -> nat {
    2 * (w * c + k) + if one {
        1nat
    } else {
        0nat
    }
}

/// The slot that `x` is counted in for channel `c`.
pub open spec fn slot_of(x: u16, w: nat, c: nat) -> nat {
    if has_bit(x, c as u16) {
        slot_index(w, c, (ones(x) - 1) as nat, true)
    } else {
        slot_index(w, c, ones(x), false)
    }
}

/// Whether position `i` is one of the `2 * w` positions for channel `c`.
pub open spec fn in_block(w: nat, c: nat, i: int) -> bool {
    2 * w * c <= i < 2 * w * c + 2 * w
}

/// How many values of `s` are counted at position `i` for channel `c`.
pub open spec fn landed(s: Seq<u16>, w: nat, c: nat, i: int) -> nat {
    count_where(s, |x: u16| slot_of(x, w, c) == i)
}

/// How many values of `s` are counted in the slot for `c`, `k` and `one`.
pub open spec fn slot_count(s: Seq<u16>, c: u16, k: nat, one: bool) -> nat {
    count_where(s, |x: u16| in_slot(x, c, k, one))
}

/// The sum of the counts.
pub open spec fn total(s: Seq<u16>) -> nat
    decreases s.len(),
{
    if s.len() == 0 {
        0
    } else {
        total(s.drop_last()) + s.last() as nat
    }
}

/// Whether `r` holds the smaller of `a` and `b` at every position.
pub open spec fn is_pointwise_min(r: Seq<u16>, a: Seq<u16>, b: Seq<u16>) -> bool {
    &&& r.len() == a.len()
    &&& forall|i: int|
        0 <= i < r.len() ==> (#[trigger] r[i]) == if a[i] <= b[i] {
            a[i]
        } else {
            b[i]
        }
}

/// Whether `r` holds the larger of `a` and `b` at every position.
pub open spec fn is_pointwise_max(r: Seq<u16>, a: Seq<u16>, b: Seq<u16>) -> bool {
    &&& r.len() == a.len()
    &&& forall|i: int|
        0 <= i < r.len() ==> (#[trigger] r[i]) == if a[i] >= b[i] {
            a[i]
        } else {
            b[i]
        }
}

/// How far apart `a` and `b` are at position `i`.
pub open spec fn range_at(a: Seq<u16>, b: Seq<u16>, i: int) -> int {
    if a[i] >= b[i] {
        a[i] - b[i]
    } else {
        b[i] - a[i]
    }
}

/// Whether, on `w` channels, every count of `a` for channel `ca` is at most
/// the count of `b` in the same place for channel `cb`.
pub open spec fn channel_le_spec(a: Seq<u16>, ca: nat, b: Seq<u16>, cb: nat, w: nat) -> bool {
    forall|i: int| 0 <= i < 2 * w ==> #[trigger] block_at(a, w, ca, i) <= block_at(b, w, cb, i)
}

/// The `i`-th of the `2 * w` counts that `s` holds for channel `c`.
pub open spec fn block_at(s: Seq<u16>, w: nat, c: nat, i: int) -> u16 {
    s[2 * w * c + i]
}

/// Where the count at position `i` is found after the counts for channels `a`
/// and `b` have changed places: the blocks of `2 * w` counts that belong to
/// the two channels are exchanged.
pub open spec fn exchanged_position(i: int, a: nat, b: nat, w: nat) -> int {
    if 2 * w * a <= i < 2 * w * a + 2 * w {
        i - 2 * w * a + 2 * w * b
    } else if 2 * w * b <= i < 2 * w * b + 2 * w {
        i - 2 * w * b + 2 * w * a
    } else {
        i
    }
}

/// The channel that the count at position `i` belongs to.
pub open spec fn channel_of_position(w: nat, i: int) -> nat {
    ((i / 2) / (w as int)) as nat
}

/// The number of ones on the other channels that the count at position `i`
/// is for.
pub open spec fn weight_of_position(w: nat, i: int) -> nat {
    ((i / 2) % (w as int)) as nat
}

/// Every position of an abstraction is the slot of a channel and a weight.
pub proof fn lemma_slot_of_position(w: nat, i: int)
    requires
        0 <= i < 2 * w * w,
    ensures
        channel_of_position(w, i) < w,
        weight_of_position(w, i) < w,
        i == slot_index(w, channel_of_position(w, i), weight_of_position(w, i), i % 2 == 1),
{
    assert(w > 0) by (nonlinear_arith)
        requires
            0 <= i < 2 * w * w,
    ;
    let h = i / 2;
    assert(h < w * w) by (nonlinear_arith)
        requires
            0 <= i < 2 * w * w,
            h == i / 2,
    ;
    vstd::arithmetic::div_mod::lemma_fundamental_div_mod(h, w as int);
    vstd::arithmetic::div_mod::lemma_mod_pos_bound(h, w as int);
    vstd::arithmetic::div_mod::lemma_div_pos_is_pos(h, w as int);
    let c = h / (w as int);
    assert(c < w) by (nonlinear_arith)
        requires
            h < w * w,
            h == w * c + h % (w as int),
            0 <= h % (w as int),
            c >= 0,
            w > 0,
    ;
}

/// Raising one count by one raises the sum by one.
pub proof fn lemma_total_update(s: Seq<u16>, i: int)
    requires
        0 <= i < s.len(),
        s[i] < 0xffff,
    ensures
        total(s.update(i, (s[i] + 1) as u16)) == total(s) + 1,
    decreases s.len(),
{
    let t = s.update(i, (s[i] + 1) as u16);
    if i == s.len() - 1 {
        assert(t.drop_last() =~= s.drop_last());
    } else {
        lemma_total_update(s.drop_last(), i);
        assert(t.drop_last() =~= s.drop_last().update(i, (s[i] + 1) as u16));
    }
}

/// The blocks of two different channels do not overlap.
pub proof fn lemma_block_order(w: nat, c1: nat, c2: nat)
    by (nonlinear_arith)
    requires
        c1 < c2,
    ensures
        2 * w * c1 + 2 * w <= 2 * w * c2,
        2 * (w * c1) == 2 * w * c1,
        2 * (w * c2) == 2 * w * c2,
{
}

/// The blocks of the channels below `w` lie within the `2 * w * w` counts.
pub proof fn lemma_block_bound(w: nat, c: nat)
    by (nonlinear_arith)
    requires
        c < w,
    ensures
        2 * w * c + 2 * w <= 2 * w * w,
        2 * (w * c) == 2 * w * c,
        w <= 15 ==> 2 * w * w <= 450,
{
}

/// A per-channel summary of an output set.
#[derive(Debug)]
pub struct Abstraction {
    channels: usize,
    values: AVec,
}

impl View for Abstraction {
    type V = Seq<u16>;

    closed spec fn view(&self) -> Seq<u16> {
        counts(self.values)
    }
}

impl Clone for Abstraction {
    fn clone(&self) -> (r: Self)
        ensures
            r@ == self@,
            r.width() == self.width(),
    {
        Abstraction { channels: self.channels, values: counts_clone(&self.values) }
    }
}

impl Abstraction {
    /// The number of channels, in specifications.
    pub closed spec fn width(&self) -> nat {
        self.channels as nat
    }

    /// The invariant of an abstraction: two counts per channel and weight.
    pub open spec fn wf(&self) -> bool {
        &&& self.width() <= 15
        &&& self@.len() == 2 * self.width() * self.width()
    }

    /// Replaces every count by the smaller of it and the count of `other` in
    /// the same place.
    pub fn update_min(&mut self, other: &Abstraction)
        requires
            old(self).wf(),
            other.wf(),
            old(self).width() == other.width(),
        ensures
            final(self).wf(),
            final(self).width() == old(self).width(),
            is_pointwise_min(final(self)@, old(self)@, other@),
    {
        let count = counts_len(&self.values);
        let ghost before = counts(self.values);
        let mut at: usize = 0;
        while at < count
            invariant
                at <= count == before.len() == other@.len(),
                counts(self.values).len() == count,
                self.channels == old(self).channels,
                forall|i: int|
                    0 <= i < at ==> (#[trigger] counts(self.values)[i]) == if before[i]
                        <= other@[i] {
                        before[i]
                    } else {
                        other@[i]
                    },
                forall|i: int| at <= i < count ==> (#[trigger] counts(self.values)[i]) == before[i],
            decreases count - at,
        {
            let theirs = counts_get(&other.values, at);
            if theirs < counts_get(&self.values, at) {
                counts_set(&mut self.values, at, theirs);
            }
            at += 1;
        }
    }

    /// Replaces every count by the larger of it and the count of `other` in
    /// the same place.
    pub fn update_max(&mut self, other: &Abstraction)
        requires
            old(self).wf(),
            other.wf(),
            old(self).width() == other.width(),
        ensures
            final(self).wf(),
            final(self).width() == old(self).width(),
            is_pointwise_max(final(self)@, old(self)@, other@),
    {
        let count = counts_len(&self.values);
        let ghost before = counts(self.values);
        let mut at: usize = 0;
        while at < count
            invariant
                at <= count == before.len() == other@.len(),
                counts(self.values).len() == count,
                self.channels == old(self).channels,
                forall|i: int|
                    0 <= i < at ==> (#[trigger] counts(self.values)[i]) == if before[i]
                        >= other@[i] {
                        before[i]
                    } else {
                        other@[i]
                    },
                forall|i: int| at <= i < count ==> (#[trigger] counts(self.values)[i]) == before[i],
            decreases count - at,
        {
            let theirs = counts_get(&other.values, at);
            if theirs > counts_get(&self.values, at) {
                counts_set(&mut self.values, at, theirs);
            }
            at += 1;
        }
    }

    /// The counts.
    pub fn values(&self) -> (r: &[u16])
        ensures
            r@ == self@,
    {
        counts_as_slice(&self.values)
    }

    /// The number of channels.
    pub fn channels(&self) -> (r: usize)
        ensures
            r == self.width(),
    {
        self.channels
    }

    /// The position at which `self` and `other` are furthest apart, the last
    /// one if there are several; none if they agree wherever both have a
    /// count.
    pub fn largest_range(&self, other: &Abstraction) -> (r: Option<usize>)
        ensures
            match r {
                Some(at) => {
                    &&& at < self@.len()
                    &&& at < other@.len()
                    &&& range_at(self@, other@, at as int) > 0
                    &&& forall|i: int|
                        0 <= i < self@.len() && i < other@.len() ==> range_at(self@, other@, i)
                            <= range_at(self@, other@, at as int)
                    &&& forall|i: int|
                        at < i < self@.len() && i < other@.len() ==> range_at(self@, other@, i)
                            < range_at(self@, other@, at as int)
                },
                None => forall|i: int|
                    0 <= i < self@.len() && i < other@.len() ==> range_at(self@, other@, i) == 0,
            },
    {
        let mine = counts_len(&self.values);
        let theirs = counts_len(&other.values);
        let count = if mine < theirs {
            mine
        } else {
            theirs
        };
        let mut best: usize = 0;
        let mut best_range: u16 = 0;
        let mut at: usize = 0;
        while at < count
            invariant
                at <= count,
                count <= self@.len(),
                count <= other@.len(),
                count == self@.len() || count == other@.len(),
                best_range == 0 ==> forall|i: int|
                    0 <= i < at ==> range_at(self@, other@, i) == 0,
                best_range > 0 ==> {
                    &&& best < at
                    &&& range_at(self@, other@, best as int) == best_range
                    &&& forall|i: int|
                        0 <= i < at ==> range_at(self@, other@, i) <= best_range
                    &&& forall|i: int| best < i < at ==> range_at(self@, other@, i) < best_range
                },
            decreases count - at,
        {
            let a = counts_get(&self.values, at);
            let b = counts_get(&other.values, at);
            let range = if a >= b {
                a - b
            } else {
                b - a
            };
            if range > 0 && range >= best_range {
                best = at;
                best_range = range;
            }
            at += 1;
        }
        if best_range > 0 {
            Some(best)
        } else {
            None
        }
    }

    /// Whether every count for channel `my_channel` is at most the count of
    /// `other` in the same place for channel `other_channel`.
    pub fn channel_le(&self, my_channel: usize, other: &Abstraction, other_channel: usize) -> (r:
        bool)
        requires
            self.wf(),
            other.wf(),
            self.width() == other.width(),
            my_channel < self.width(),
            other_channel < self.width(),
        ensures
            r == channel_le_spec(
                self@,
                my_channel as nat,
                other@,
                other_channel as nat,
                self.width(),
            ),
    {
        let ghost w = self.channels as nat;
        proof {
            lemma_block_bound(w, my_channel as nat);
            lemma_block_bound(w, other_channel as nat);
        }
        let block = self.channels * 2;
        let my_offset = block * my_channel;
        let other_offset = block * other_channel;
        let mut at: usize = 0;
        while at < block
            invariant
                at <= block == 2 * w,
                w == self.channels,
                my_offset == 2 * w * my_channel,
                other_offset == 2 * w * other_channel,
                my_offset + block <= self@.len(),
                other_offset + block <= other@.len(),
                self@.len() <= 450,
                other@.len() <= 450,
                forall|i: int|
                    0 <= i < at ==> #[trigger] block_at(self@, w, my_channel as nat, i) <= block_at(
                        other@,
                        w,
                        other_channel as nat,
                        i,
                    ),
            decreases block - at,
        {
            if counts_get(&self.values, my_offset + at) > counts_get(
                &other.values,
                other_offset + at,
            ) {
                proof {
                    assert(block_at(self@, w, my_channel as nat, at as int) > block_at(
                        other@,
                        w,
                        other_channel as nat,
                        at as int,
                    ));
                }
                return false;
            }
            at += 1;
        }
        true
    }

    /// Exchanges the counts for channels `a` and `b`.
    pub fn swap_channels(&mut self, a: usize, b: usize)
        requires
            old(self).wf(),
            a < old(self).width(),
            b < old(self).width(),
        ensures
            final(self).wf(),
            final(self).width() == old(self).width(),
            forall|i: int|
                0 <= i < final(self)@.len() ==> (#[trigger] final(self)@[i]) == old(
                    self,
                )@[exchanged_position(i, a as nat, b as nat, old(self).width())],
    {
        if a == b {
            return ;
        }
        let ghost w = self.channels as nat;
        let ghost before = counts(self.values);
        proof {
            lemma_block_bound(w, a as nat);
            lemma_block_bound(w, b as nat);
            if a < b {
                lemma_block_order(w, a as nat, b as nat);
            } else {
                lemma_block_order(w, b as nat, a as nat);
            }
        }
        let block = self.channels * 2;
        let a_offset = block * a;
        let b_offset = block * b;
        let mut at: usize = 0;
        while at < block
            invariant
                at <= block == 2 * w,
                w == self.channels == old(self).channels,
                a_offset == 2 * w * a,
                b_offset == 2 * w * b,
                a_offset + block <= before.len(),
                b_offset + block <= before.len(),
                a_offset + block <= b_offset || b_offset + block <= a_offset,
                before.len() == counts(self.values).len() <= 450,
                forall|i: int|
                    0 <= i < before.len() ==> (#[trigger] counts(self.values)[i]) == if a_offset
                        <= i < a_offset + at {
                        before[i - a_offset + b_offset]
                    } else if b_offset <= i < b_offset + at {
                        before[i - b_offset + a_offset]
                    } else {
                        before[i]
                    },
            decreases block - at,
        {
            counts_swap(&mut self.values, a_offset + at, b_offset + at);
            at += 1;
        }
    }
}

impl OutputSet {
    /// The abstraction of the output set: at position
    /// `2 * (w * c + k) + v` the number of values that carry `v` on channel
    /// `c` and `k` ones on the other channels.
    pub fn abstraction(&self) -> (r: Abstraction)
        requires
            self.wf(),
        ensures
            r.wf(),
            r.width() == self.width(),
            forall|c: nat, k: nat, one: bool|
                c < self.width() && k < self.width() ==> r@[#[trigger] slot_index(
                    self.width(),
                    c,
                    k,
                    one,
                ) as int] == slot_count(self@, c as u16, k, one),
            total(r@) == self.width() * self@.len(),
    {
        let channels = self.channels();
        let values = self.values();
        let ghost w = channels as nat;
        let ghost src = self@;
        let count = values.len();
        proof {
            lemma_limit(channels as u16);
            lemma_ascending_bounds(src, count - 1);
            assert(w * w <= 225 && 2 * w * w == (w * w) * 2) by (nonlinear_arith)
                requires
                    w <= 15,
            ;
        }
        let size = channels * channels * 2;
        let mut slots = counts_new();
        let mut filled: usize = 0;
        while filled < size
            invariant
                filled <= size == 2 * w * w <= 450,
                counts(slots).len() == filled,
                forall|i: int| 0 <= i < filled ==> (#[trigger] counts(slots)[i]) == 0,
                total(counts(slots)) == 0,
            decreases size - filled,
        {
            let ghost before = counts(slots);
            counts_push(&mut slots, 0);
            proof {
                assert(counts(slots).drop_last() =~= before);
            }
            filled += 1;
        }
        proof {
            assert(src.take(0) =~= Seq::<u16>::empty());
            assert forall|c: nat, i: int| c < w && #[trigger] in_block(w, c, i) implies counts(
                slots,
            )[i] == landed(src.take(0), w, c, i) by {
                lemma_block_bound(w, c);
            }
        }
        let mut at: usize = 0;
        while at < count
            invariant
                at <= count == src.len() <= 32768,
                src == self@,
                values@ == src,
                self.wf(),
                channels == w == self.width(),
                counts(slots).len() == size == 2 * w * w <= 450,
                total(counts(slots)) == w * at,
                forall|c: nat, i: int|
                    c < w && #[trigger] in_block(w, c, i) ==> (counts(
                        slots,
                    )[i]) == landed(src.take(at as int), w, c, i),
            decreases count - at,
        {
            let value = values[at];
            let weight = value.count_ones() as usize;
            let ghost done = src.take(at as int);
            let ghost next = src.take(at + 1);
            proof {
                assert(next.drop_last() =~= done);
                assert(next.last() == value);
                lemma_limit(channels as u16);
                lemma_ones_of_small_value(value, channels as u16, 16);
                lemma_ones_below_bounds(value, w, 0);
                assert(w * at + w == w * (at + 1)) by (nonlinear_arith);
            }
            let mut channel: usize = 0;
            while channel < channels
                invariant
                    channel <= channels == w <= 15,
                    at < count == src.len() <= 32768,
                    value == src[at as int],
                    value < (1u16 << (channels as u16)),
                    weight == ones(value) <= w,
                    ones(value) == ones_below(value, w),
                    done == src.take(at as int),
                    next == src.take(at + 1),
                    next.drop_last() == done,
                    next.last() == value,
                    counts(slots).len() == size == 2 * w * w <= 450,
                    total(counts(slots)) == w * at + channel,
                    forall|c: nat, i: int|
                        c < w && #[trigger] in_block(w, c, i) ==> (counts(
                            slots,
                        )[i]) == if c < channel {
                            landed(next, w, c, i)
                        } else {
                            landed(done, w, c, i)
                        },
                decreases channels - channel,
            {
                let mask: u16 = 1u16 << channel;
                let one: usize = if value & mask != 0 {
                    1
                } else {
                    0
                };
                proof {
                    lemma_ones_below_bounds(value, w, channel as u16);
                    lemma_block_bound(w, channel as nat);
                }
                let rest = weight - one;
                assert(channels * channel <= 210) by (nonlinear_arith)
                    requires
                        channels <= 15,
                        channel < 15,
                ;
                let index = 2 * (channels * channel + rest) + one;
                assert(index == slot_of(value, w, channel as nat));
                assert(in_block(w, channel as nat, index as int));
                let ghost before = counts(slots);
                let old_count = counts_get(&slots, index);
                proof {
                    lemma_count_where_bound(
                        done,
                        |x: u16| slot_of(x, w, channel as nat) == index as int,
                    );
                }
                counts_set(&mut slots, index, old_count + 1);
                proof {
                    lemma_total_update(before, index as int);
                    assert forall|c: nat, i: int|
                        c < w && #[trigger] in_block(w, c, i) implies (counts(
                        slots,
                    )[i]) == if c < channel + 1 {
                        landed(next, w, c, i)
                    } else {
                        landed(done, w, c, i)
                    } by {
                        lemma_block_bound(w, c);
                        if c < channel {
                            lemma_block_order(w, c, channel as nat);
                            assert(i != index);
                            assert(counts(slots)[i] == before[i]);
                            assert(before[i] == landed(next, w, c, i));
                        } else if c > channel {
                            lemma_block_order(w, channel as nat, c);
                            assert(i != index);
                            assert(counts(slots)[i] == before[i]);
                            assert(before[i] == landed(done, w, c, i));
                        } else {
                            assert(before[i] == landed(done, w, c, i));
                            assert(landed(next, w, c, i) == landed(done, w, c, i) + if slot_of(
                                value,
                                w,
                                c,
                            ) == i {
                                1nat
                            } else {
                                0nat
                            });
                        }
                    }
                }
                channel += 1;
            }
            at += 1;
        }
        let r = Abstraction { channels, values: slots };
        proof {
            assert(src.take(count as int) =~= src);
            assert forall|c: nat, k: nat, one: bool| c < w && k < w implies r@[#[trigger] slot_index(
                w,
                c,
                k,
                one,
            ) as int] == slot_count(src, c as u16, k, one) by {
                let i = slot_index(w, c, k, one) as int;
                lemma_block_bound(w, c);
                assert(in_block(w, c, i));
                assert forall|x: u16| (slot_of(x, w, c) == i) == in_slot(x, c as u16, k, one) by {
                    lemma_ones_below_bounds(x, 16, c as u16);
                }
                lemma_count_where_same(
                    src,
                    |x: u16| slot_of(x, w, c) == i,
                    |x: u16| in_slot(x, c as u16, k, one),
                );
            }
            assert(w * count == self.width() * self@.len());
        }
        r
    }
}

} // verus!
