//! Which channel of one output set may take the place of which channel of
//! another: a relation between two sets of channels, kept as one word of
//! candidates per channel on either side.

use vstd::prelude::*;
use vstd::std_specs::bits::{axiom_u16_trailing_zeros};
use crate::bits::{has_bit, all_ones, ones, lemma_ones_after_clear, exchange_image, lemma_limit, lemma_all_ones_bits, lemma_or_bit, lemma_clear_bit, lemma_single_bit, lemma_exchange_bits, lemma_exchange_image, lemma_word_of_single_bit, lemma_word_without_bits, lemma_small_value_bits};
use crate::fixed_vec::{CVec, words, words_new, words_push, words_len, words_get, words_set, words_swap, words_clone};

verus! {

/// The word with a single one, on channel `t`.
pub open spec fn single(t: int) -> u16 {
    1u16 << (t as u16)
}

/// A relation between the channels `0..w` of a side A and those of a side B:
/// `a[x]` has a one on channel `y`, and `b[y]` a one on channel `x`, exactly
/// if `x` is related to `y`.
pub struct Pairs {
    pub a: Seq<u16>,
    pub b: Seq<u16>,
}

impl Pairs {
    /// The number of channels on each side.
    pub open spec fn width(self) -> nat {
        self.a.len()
    }

    /// Whether `x` is related to `y`.
    pub open spec fn has(self, x: int, y: int) -> bool {
        has_bit(self.a[x], y as u16)
    }

    /// Whether the two sides describe the same relation on at most 15
    /// channels.
    pub open spec fn wf(self) -> bool {
        &&& self.a.len() == self.b.len()
        &&& self.a.len() <= 15
        &&& forall|x: int| 0 <= x < self.width() ==> (#[trigger] self.a[x]) < single(self.width() as int)
        &&& forall|y: int| 0 <= y < self.width() ==> (#[trigger] self.b[y]) < single(self.width() as int)
        &&& forall|x: int, y: int|
            0 <= x < self.width() && 0 <= y < self.width() ==> (#[trigger] has_bit(
                self.a[x],
                y as u16,
            )) == has_bit(self.b[y], x as u16)
    }

    /// Whether every channel on either side has a candidate.
    pub open spec fn total(self) -> bool {
        &&& forall|x: int| 0 <= x < self.width() ==> (#[trigger] self.a[x]) != 0
        &&& forall|y: int| 0 <= y < self.width() ==> (#[trigger] self.b[y]) != 0
    }

    /// Whether `x` has `t` as its only candidate.
    pub open spec fn row_is(self, x: int, t: int) -> bool {
        self.a[x] == single(t)
    }

    /// Whether `y` is a candidate of `s` only.
    pub open spec fn col_is(self, y: int, s: int) -> bool {
        self.b[y] == single(s)
    }

    /// Whether nothing is left to conclude from "every channel is matched
    /// with one channel of the other side": every channel has a candidate,
    /// and a channel that is the only candidate of another has that one as
    /// its only candidate.
    pub open spec fn settled(self) -> bool {
        &&& self.total()
        &&& forall|x: int, t: int|
            0 <= x < self.width() && 0 <= t < self.width() && #[trigger] self.row_is(x, t)
                ==> self.col_is(t, x)
        &&& forall|y: int, s: int|
            0 <= y < self.width() && 0 <= s < self.width() && #[trigger] self.col_is(y, s)
                ==> self.row_is(s, y)
    }

    /// Whether every pair of `self` is a pair of `other`.
    pub open spec fn within(self, other: Pairs) -> bool {
        &&& self.width() == other.width()
        &&& forall|x: int, y: int|
            0 <= x < self.width() && 0 <= y < self.width() && #[trigger] self.has(x, y)
                ==> other.has(x, y)
    }
}

/// How many ones the words of `s` have together.
pub open spec fn total_ones(s: Seq<u16>) -> nat
    decreases s.len(),
{
    if s.len() == 0 {
        0
    } else {
        total_ones(s.drop_last()) + ones(s.last())
    }
}

/// Replacing one word changes the number of ones by as much as the two
/// words differ in it.
pub proof fn lemma_total_ones_update(s: Seq<u16>, i: int, v: u16)
    requires
        0 <= i < s.len(),
    ensures
        total_ones(s.update(i, v)) + ones(s[i]) == total_ones(s) + ones(v),
    decreases s.len(),
{
    let t = s.update(i, v);
    if i == s.len() - 1 {
        assert(t.drop_last() =~= s.drop_last());
    } else {
        lemma_total_ones_update(s.drop_last(), i, v);
        assert(t.drop_last() =~= s.drop_last().update(i, v));
    }
}

/// Different channels have different single-one words, none of them zero.
pub proof fn lemma_singles_differ(t: int, u: int)
    requires
        0 <= t < 16,
        0 <= u < 16,
    ensures
        single(t) != 0,
        t != u ==> single(t) != single(u),
        has_bit(single(t), u as u16) == (t == u),
{
    lemma_or_bit(0, t as u16, t as u16);
    lemma_or_bit(0, t as u16, u as u16);
    lemma_or_bit(0, u as u16, t as u16);
}

impl Pairs {
    /// How many pairs the relation has.
    pub open spec fn size(self) -> nat {
        total_ones(self.a)
    }

    /// Whether, if `x` has a single candidate, `x` is all that it is a
    /// candidate of.
    pub open spec fn unit_row(self, x: int) -> bool {
        forall|t: int| 0 <= t < self.width() && #[trigger] self.row_is(x, t) ==> self.col_is(t, x)
    }

    /// Whether, if `y` is a candidate of a single channel, `y` is all that
    /// that channel has.
    pub open spec fn unit_col(self, y: int) -> bool {
        forall|s: int| 0 <= s < self.width() && #[trigger] self.col_is(y, s) ==> self.row_is(s, y)
    }

    /// Whether every channel whose candidates are not what they are in `base`
    /// has been dealt with as `settled` asks.
    pub open spec fn settled_where_changed(self, base: Pairs) -> bool {
        &&& forall|x: int|
            0 <= x < self.width() && (#[trigger] self.a[x]) != base.a[x] ==> self.unit_row(x)
        &&& forall|y: int|
            0 <= y < self.width() && (#[trigger] self.b[y]) != base.b[y] ==> self.unit_col(y)
    }

    /// The candidates of `x` in a relation within one where `x` has the
    /// single candidate `t` are `t` alone, if there are any.
    pub proof fn lemma_row_shrinks_to_single(self, c: Pairs, x: int, t: int)
        requires
            self.wf(),
            c.wf(),
            self.within(c),
            0 <= x < c.width(),
            0 <= t < c.width(),
            c.row_is(x, t),
            self.a[x] != 0,
        ensures
            self.row_is(x, t),
    {
        let w = self.width();
        let v = self.a[x];
        assert forall|i: u16| i < 16 && i != t implies !has_bit(v, i) by {
            if i < w {
                if has_bit(v, i) {
                    assert(self.has(x, i as int));
                    assert(c.has(x, i as int));
                    lemma_singles_differ(t, i as int);
                }
            } else {
                lemma_small_value_bits(v, w as u16, i);
            }
        }
        if !has_bit(v, t as u16) {
            lemma_word_without_bits(v);
        }
        lemma_word_of_single_bit(v, t as u16);
    }

    /// What `y` is a candidate of in a relation within one where `y` is a
    /// candidate of `s` alone is `s` alone, if it is anything.
    pub proof fn lemma_col_shrinks_to_single(self, c: Pairs, y: int, s: int)
        requires
            self.wf(),
            c.wf(),
            self.within(c),
            0 <= y < c.width(),
            0 <= s < c.width(),
            c.col_is(y, s),
            self.b[y] != 0,
        ensures
            self.col_is(y, s),
    {
        let w = self.width();
        let v = self.b[y];
        assert forall|i: u16| i < 16 && i != s implies !has_bit(v, i) by {
            if i < w {
                if has_bit(v, i) {
                    assert(has_bit(self.a[i as int], y as u16));
                    assert(self.has(i as int, y));
                    assert(c.has(i as int, y));
                    assert(has_bit(c.a[i as int], y as u16) == has_bit(c.b[y], i));
                    lemma_singles_differ(s, i as int);
                }
            } else {
                lemma_small_value_bits(v, w as u16, i);
            }
        }
        if !has_bit(v, s as u16) {
            lemma_word_without_bits(v);
        }
        lemma_word_of_single_bit(v, s as u16);
    }

    /// In a relation within one where `x` has no candidate, `x` has none.
    pub proof fn lemma_row_shrinks_to_zero(self, c: Pairs, x: int)
        requires
            self.wf(),
            c.wf(),
            self.within(c),
            0 <= x < c.width(),
            c.a[x] == 0,
        ensures
            self.a[x] == 0,
    {
        let w = self.width();
        let v = self.a[x];
        assert forall|i: u16| i < 16 implies !has_bit(v, i) by {
            if i < w {
                if has_bit(v, i) {
                    assert(self.has(x, i as int));
                    assert(c.has(x, i as int));
                    lemma_or_bit(0, 0, i);
                }
            } else {
                lemma_small_value_bits(v, w as u16, i);
            }
        }
        lemma_word_without_bits(v);
    }

    /// In a relation within one where `y` is no candidate, `y` is none.
    pub proof fn lemma_col_shrinks_to_zero(self, c: Pairs, y: int)
        requires
            self.wf(),
            c.wf(),
            self.within(c),
            0 <= y < c.width(),
            c.b[y] == 0,
        ensures
            self.b[y] == 0,
    {
        let w = self.width();
        let v = self.b[y];
        assert forall|i: u16| i < 16 implies !has_bit(v, i) by {
            if i < w {
                if has_bit(v, i) {
                    assert(has_bit(self.a[i as int], y as u16));
                    assert(self.has(i as int, y));
                    assert(c.has(i as int, y));
                    assert(has_bit(c.a[i as int], y as u16) == has_bit(c.b[y], i));
                    lemma_or_bit(0, 0, i);
                }
            } else {
                lemma_small_value_bits(v, w as u16, i);
            }
        }
        lemma_word_without_bits(v);
    }

    /// What was concluded for a channel of side A stays concluded in a
    /// smaller relation that leaves the channel's candidates alone.
    pub proof fn lemma_unit_row_stable(self, c: Pairs, x: int)
        requires
            self.wf(),
            c.wf(),
            self.within(c),
            self.total(),
            0 <= x < c.width(),
            self.a[x] == c.a[x],
            c.unit_row(x),
        ensures
            self.unit_row(x),
    {
        assert forall|t: int| 0 <= t < self.width() && #[trigger] self.row_is(x, t) implies self.col_is(
            t,
            x,
        ) by {
            assert(c.row_is(x, t));
            self.lemma_col_shrinks_to_single(c, t, x);
        }
    }

    /// What was concluded for a channel of side B stays concluded in a
    /// smaller relation that leaves alone what the channel is a candidate of.
    pub proof fn lemma_unit_col_stable(self, c: Pairs, y: int)
        requires
            self.wf(),
            c.wf(),
            self.within(c),
            self.total(),
            0 <= y < c.width(),
            self.b[y] == c.b[y],
            c.unit_col(y),
        ensures
            self.unit_col(y),
    {
        assert forall|s: int| 0 <= s < self.width() && #[trigger] self.col_is(y, s) implies self.row_is(
            s,
            y,
        ) by {
            assert(c.col_is(y, s));
            self.lemma_row_shrinks_to_single(c, s, y);
        }
    }

    /// A relation within a settled one that has a candidate for every channel
    /// and is settled wherever it differs is settled.
    pub proof fn lemma_settled_from_changes(self, base: Pairs)
        requires
            self.wf(),
            base.wf(),
            self.within(base),
            self.total(),
            base.settled(),
            self.settled_where_changed(base),
        ensures
            self.settled(),
    {
        assert forall|x: int, t: int|
            0 <= x < self.width() && 0 <= t < self.width() && #[trigger] self.row_is(
                x,
                t,
            ) implies self.col_is(t, x) by {
            if self.a[x] == base.a[x] {
                assert forall|u: int| 0 <= u < base.width() && #[trigger] base.row_is(
                    x,
                    u,
                ) implies base.col_is(u, x) by {}
                self.lemma_unit_row_stable(base, x);
            }
            assert(self.unit_row(x));
        }
        assert forall|y: int, s: int|
            0 <= y < self.width() && 0 <= s < self.width() && #[trigger] self.col_is(
                y,
                s,
            ) implies self.row_is(s, y) by {
            if self.b[y] == base.b[y] {
                assert forall|u: int| 0 <= u < base.width() && #[trigger] base.col_is(
                    y,
                    u,
                ) implies base.row_is(u, y) by {}
                self.lemma_unit_col_stable(base, y);
            }
            assert(self.unit_col(y));
        }
    }

    /// What taking the pair `(x, y)` out of the relation `base` gives.
    pub open spec fn without(self, x: int, y: int) -> Pairs {
        Pairs {
            a: self.a.update(x, self.a[x] & !single(y)),
            b: self.b.update(y, self.b[y] & !single(x)),
        }
    }

    /// Taking a pair out of a relation leaves a relation with one pair fewer,
    /// which holds every relation within the first that lacks the pair.
    pub proof fn lemma_without(self, x: int, y: int)
        requires
            self.wf(),
            0 <= x < self.width(),
            0 <= y < self.width(),
            self.has(x, y),
        ensures
            self.without(x, y).wf(),
            self.without(x, y).within(self),
            !self.without(x, y).has(x, y),
            self.without(x, y).size() + 1 == self.size(),
            forall|g: Pairs|
                #![trigger g.within(self)]
                g.within(self) && !g.has(x, y) ==> g.within(self.without(x, y)),
    {
        let m = self.without(x, y);
        let w = self.width();
        lemma_clear_bit(self.a[x], y as u16, 0);
        lemma_clear_bit(self.b[y], x as u16, 0);
        assert forall|i: int, j: int| 0 <= i < w && 0 <= j < w implies (#[trigger] has_bit(
            m.a[i],
            j as u16,
        )) == has_bit(m.b[j], i as u16) && (m.has(i, j) == (self.has(i, j) && !(i == x && j
            == y))) by {
            lemma_clear_bit(self.a[x], y as u16, j as u16);
            lemma_clear_bit(self.b[y], x as u16, i as u16);
            assert(has_bit(self.a[i], j as u16) == has_bit(self.b[j], i as u16));
        }
        assert forall|i: int, j: int| 0 <= i < w && 0 <= j < w && #[trigger] m.has(
            i,
            j,
        ) implies self.has(i, j) by {
            assert(has_bit(m.a[i], j as u16));
        }
        lemma_ones_after_clear(self.a[x], y as u16, 16);
        lemma_total_ones_update(self.a, x, self.a[x] & !single(y));
        assert forall|g: Pairs| #![trigger g.within(self)] g.within(self) && !g.has(
            x,
            y,
        ) implies g.within(m) by {
            assert forall|i: int, j: int| 0 <= i < w && 0 <= j < w && #[trigger] g.has(
                i,
                j,
            ) implies m.has(i, j) by {
                assert(self.has(i, j));
                assert(has_bit(m.a[i], j as u16));
            }
        }
    }
}

/// A relation between the channels of two output sets, with a mark that is
/// set once some channel has no candidate left.
pub struct Matching {
    matches_a: CVec<u16>,
    matches_b: CVec<u16>,
    incomplete: bool,
}

impl View for Matching {
    type V = Pairs;

    closed spec fn view(&self) -> Pairs {
        Pairs { a: words(self.matches_a), b: words(self.matches_b) }
    }
}

impl Clone for Matching {
    fn clone(&self) -> (r: Self)
        ensures
            r@ == self@,
            r.failed() == self.failed(),
    {
        Matching {
            matches_a: words_clone(&self.matches_a),
            matches_b: words_clone(&self.matches_b),
            incomplete: self.incomplete,
        }
    }
}

/// Exchanges channels `i` and `j` in every word of `rows`.
fn exchange_in_rows(rows: &mut CVec<u16>, i: usize, j: usize)
    requires
        i < 16,
        j < 16,
    ensures
        words(*final(rows)).len() == words(*old(rows)).len(),
        forall|y: int|
            0 <= y < words(*old(rows)).len() ==> (#[trigger] words(*final(rows))[y])
                == exchange_image(words(*old(rows))[y], i as u16, j as u16),
{
    if i == j {
        return ;
    }
    let ghost before = words(*rows);
    let col_i: u16 = 1u16 << i;
    let col_j: u16 = 1u16 << j;
    let both: u16 = col_i | col_j;
    let count = words_len(rows);
    let mut at: usize = 0;
    while at < count
        invariant
            at <= count == before.len(),
            words(*rows).len() == count,
            i < 16,
            j < 16,
            i != j,
            col_i == 1u16 << (i as u16),
            col_j == 1u16 << (j as u16),
            both == col_i | col_j,
            forall|y: int|
                0 <= y < at ==> (#[trigger] words(*rows)[y]) == exchange_image(
                    before[y],
                    i as u16,
                    j as u16,
                ),
            forall|y: int| at <= y < count ==> (#[trigger] words(*rows)[y]) == before[y],
        decreases count - at,
    {
        let row = words_get(rows, at);
        let exchange = row & both;
        proof {
            lemma_exchange_tests(row, i as u16, j as u16);
        }
        if exchange == col_i || exchange == col_j {
            words_set(rows, at, row ^ both);
        }
        at += 1;
    }
}

/// How the executable tests for a word that an exchange changes read in
/// terms of bits.
proof fn lemma_exchange_tests(v: u16, a: u16, b: u16)
    by (bit_vector)
    requires
        a < 16,
        b < 16,
        a != b,
    ensures
        (v & ((1u16 << a) | (1u16 << b)) == (1u16 << a) || v & ((1u16 << a) | (1u16 << b)) == (1u16
            << b)) == (has_bit(v, a) != has_bit(v, b)),
{
}

impl Matching {
    /// Whether some channel has been found to have no candidate left.
    pub closed spec fn failed(&self) -> bool {
        self.incomplete
    }

    /// The number of channels on each side.
    pub open spec fn width(&self) -> nat {
        self@.width()
    }

    /// The invariant of a matching: the two sides agree, and every channel
    /// has a candidate unless the mark is set.
    pub open spec fn wf(&self) -> bool {
        &&& self@.wf()
        &&& !self.failed() ==> self@.total()
    }

    /// The matching in which every channel may be matched with every channel.
    pub fn new(channels: usize) -> (r: Matching)
        requires
            channels <= 15,
        ensures
            r.wf(),
            r.width() == channels,
            !r.failed(),
            forall|x: int, y: int| 0 <= x < channels && 0 <= y < channels ==> r@.has(x, y),
            r@.settled(),
    {
        proof {
            lemma_limit(channels as u16);
        }
        let all: u16 = (1u16 << channels) - 1;
        let mut matches_a = words_new();
        let mut matches_b = words_new();
        let mut at: usize = 0;
        while at < channels
            invariant
                at <= channels <= 15,
                words(matches_a).len() == at,
                words(matches_b).len() == at,
                all == all_ones(channels as u16),
                forall|x: int| 0 <= x < at ==> (#[trigger] words(matches_a)[x]) == all,
                forall|y: int| 0 <= y < at ==> (#[trigger] words(matches_b)[y]) == all,
            decreases channels - at,
        {
            words_push(&mut matches_a, all);
            words_push(&mut matches_b, all);
            at += 1;
        }
        let r = Matching { matches_a, matches_b, incomplete: false };
        proof {
            lemma_all_ones_bits(channels as u16, 0);
            assert forall|x: int, y: int| 0 <= x < channels && 0 <= y < channels implies (
            #[trigger] has_bit(r@.a[x], y as u16)) && has_bit(r@.b[y], x as u16) by {
                lemma_all_ones_bits(channels as u16, y as u16);
                lemma_all_ones_bits(channels as u16, x as u16);
            }
            assert forall|x: int| 0 <= x < channels implies (#[trigger] r@.a[x]) != 0 by {
                assert(has_bit(r@.a[x], 0u16));
                lemma_or_bit(0, 0, 0);
            }
            assert forall|y: int| 0 <= y < channels implies (#[trigger] r@.b[y]) != 0 by {
                assert(has_bit(r@.b[y], 0u16));
                lemma_or_bit(0, 0, 0);
            }
            assert forall|x: int, t: int|
                0 <= x < channels && 0 <= t < channels && #[trigger] r@.row_is(x, t) implies r@.col_is(
                t,
                x,
            ) by {
                // a single candidate means a single channel
                if channels > 1 {
                    let other = if t == 0 {
                        1int
                    } else {
                        0int
                    };
                    lemma_all_ones_bits(channels as u16, other as u16);
                    assert(has_bit(r@.a[x], other as u16));
                    lemma_or_bit(0, t as u16, other as u16);
                }
                lemma_all_ones_bits(1, 0);
            }
            assert forall|y: int, s: int|
                0 <= y < channels && 0 <= s < channels && #[trigger] r@.col_is(y, s) implies r@.row_is(
                s,
                y,
            ) by {
                if channels > 1 {
                    let other = if s == 0 {
                        1int
                    } else {
                        0int
                    };
                    lemma_all_ones_bits(channels as u16, other as u16);
                    assert(has_bit(r@.b[y], other as u16));
                    lemma_or_bit(0, s as u16, other as u16);
                }
                lemma_all_ones_bits(1, 0);
            }
        }
        r
    }

    /// Whether `channel_a` may be matched with `channel_b`.
    pub fn contains(&self, channel_a: usize, channel_b: usize) -> (r: bool)
        requires
            self@.wf(),
            channel_a < self.width(),
            channel_b < self.width(),
        ensures
            r == self@.has(channel_a as int, channel_b as int),
    {
        words_get(&self.matches_a, channel_a) & (1u16 << channel_b) != 0
    }

    /// The candidates of `channel_a`, a one on every channel it may be
    /// matched with.
    pub fn matches_a(&self, channel_a: usize) -> (r: u16)
        requires
            channel_a < self.width(),
        ensures
            r == self@.a[channel_a as int],
    {
        words_get(&self.matches_a, channel_a)
    }

    /// The channels that `channel_b` is a candidate of.
    pub fn matches_b(&self, channel_b: usize) -> (r: u16)
        requires
            channel_b < self@.b.len(),
        ensures
            r == self@.b[channel_b as int],
    {
        words_get(&self.matches_b, channel_b)
    }

    /// The only candidate of `channel_a`, if the mark is not set and it has
    /// exactly one.
    pub fn unique_match_a(&self, channel_a: usize) -> (r: Option<usize>)
        requires
            channel_a < self.width(),
        ensures
            match r {
                Some(t) => !self.failed() && t < 16 && self@.row_is(channel_a as int, t as int),
                None => self.failed() || forall|t: int|
                    0 <= t < 16 ==> !self@.row_is(channel_a as int, t),
            },
    {
        if self.incomplete {
            return None;
        }
        let row = words_get(&self.matches_a, channel_a);
        if row != 0 && row & (row - 1) == 0 {
            let t = row.trailing_zeros() as usize;
            proof {
                axiom_u16_trailing_zeros(row);
                lemma_single_bit(row, t as u16);
            }
            Some(t)
        } else {
            proof {
                assert forall|t: int| 0 <= t < 16 implies !self@.row_is(channel_a as int, t) by {
                    lemma_single_bit(row, t as u16);
                }
            }
            None
        }
    }

    /// Takes the pair `(channel_a, channel_b)` out and concludes what follows
    /// from "every channel is matched with one channel of the other side":
    /// where a channel is left with a single candidate, that candidate is
    /// taken from every other channel, and so on. Returns whether the mark
    /// is set afterwards: whether some channel was left without a candidate.
    ///
    /// If the mark was set, nothing happens. Otherwise what is left is within
    /// what was there and holds every settled relation within it that lacks
    /// the pair; if there is no such relation, the mark is set. From a
    /// settled matching the result is therefore the largest settled relation
    /// without the pair.
    pub fn remove(&mut self, channel_a: usize, channel_b: usize) -> (r: bool)
        requires
            old(self).wf(),
            channel_a < old(self).width(),
            channel_b < old(self).width(),
        ensures
            final(self).wf(),
            final(self).width() == old(self).width(),
            r == final(self).failed(),
            final(self)@.within(old(self)@),
            final(self)@.size() < old(self)@.size() || final(self)@ == old(self)@,
            old(self).failed() ==> r && final(self)@ == old(self)@,
            !old(self).failed() && !old(self)@.has(channel_a as int, channel_b as int) ==> !r
                && final(self)@ == old(self)@,
            !r ==> !final(self)@.has(channel_a as int, channel_b as int),
            !r ==> final(self)@.settled_where_changed(old(self)@),
            !r && old(self)@.settled() ==> final(self)@.settled(),
            !old(self).failed() ==> forall|g: Pairs|
                #![trigger g.within(old(self)@)]
                g.wf() && g.settled() && g.within(old(self)@) && !g.has(
                    channel_a as int,
                    channel_b as int,
                ) ==> !r && g.within(final(self)@),
        decreases old(self)@.size(),
    {
        if self.incomplete {
            return true;
        }
        let ghost m0 = self@;
        let ghost a = channel_a as int;
        let ghost b = channel_b as int;
        let channels = words_len(&self.matches_a);
        let col_a: u16 = 1u16 << channel_b;
        let row_a = words_get(&self.matches_a, channel_a);
        if row_a & col_a == 0 {
            return false;
        }
        let row_a = row_a & !col_a;
        words_set(&mut self.matches_a, channel_a, row_a);
        let col_b: u16 = 1u16 << channel_a;
        let row_b = words_get(&self.matches_b, channel_b) & !col_b;
        words_set(&mut self.matches_b, channel_b, row_b);
        let ghost m1 = self@;
        proof {
            assert(m1 == m0.without(a, b));
            m0.lemma_without(a, b);
        }
        if row_a == 0 {
            self.incomplete = true;
            proof {
                assert forall|g: Pairs|
                    #![trigger g.within(m0)]
                    g.wf() && g.settled() && g.within(m0) && !g.has(a, b) implies false by {
                    g.lemma_row_shrinks_to_zero(m1, a);
                }
            }
            return true;
        }
        if row_b == 0 {
            self.incomplete = true;
            proof {
                assert forall|g: Pairs|
                    #![trigger g.within(m0)]
                    g.wf() && g.settled() && g.within(m0) && !g.has(a, b) implies false by {
                    g.lemma_col_shrinks_to_zero(m1, b);
                }
            }
            return true;
        }
        assert(m1.total());
        if row_a & (row_a - 1) == 0 {
            let target = row_a.trailing_zeros() as usize;
            proof {
                axiom_u16_trailing_zeros(row_a);
                lemma_single_bit(row_a, target as u16);
                if target >= channels {
                    lemma_small_value_bits(row_a, channels as u16, target as u16);
                    lemma_singles_differ(target as int, target as int);
                }
            }
            let mut other: usize = 0;
            while other < channels
                invariant
                    other <= channels == m0.width(),
                    m0 == old(self)@,
                    !old(self).failed(),
                    m0.has(a, b),
                    a == channel_a < channels,
                    b == channel_b < channels,
                    target < channels,
                    m0.wf(),
                    m1.wf(),
                    m1.within(m0),
                    m1.size() < m0.size(),
                    self.wf(),
                    !self.failed(),
                    self@.within(m1),
                    self@.size() <= m1.size(),
                    self@.row_is(a, target as int),
                    m1.a[a] == self@.a[a],
                    forall|o: int| 0 <= o < other && o != a ==> !self@.has(o, target as int),
                    self@.settled_where_changed(m1),
                    forall|g: Pairs|
                        #![trigger g.within(m0)]
                        g.wf() && g.settled() && g.within(m0) && !g.has(a, b) ==> g.within(self@),
                decreases channels - other,
            {
                if other != channel_a {
                    let ghost cur = self@;
                    let failed = self.remove(other, target);
                    proof {
                        assert forall|g: Pairs|
                            #![trigger g.within(m0)]
                            g.wf() && g.settled() && g.within(m0) && !g.has(a, b) implies !failed
                            && g.within(self@) by {
                            assert(g.within(cur));
                            g.lemma_row_shrinks_to_single(cur, a, target as int);
                            assert(g.col_is(target as int, a));
                            lemma_singles_differ(a, other as int);
                            assert(has_bit(g.a[other as int], target as u16) == has_bit(
                                g.b[target as int],
                                other as u16,
                            ));
                            assert(!g.has(other as int, target as int));
                        }
                    }
                    if failed {
                        return true;
                    }
                    proof {
                        let now = self@;
                        now.lemma_row_shrinks_to_single(cur, a, target as int);
                        lemma_kept_settled(m1, cur, now);
                    }
                }
                other += 1;
            }
            proof {
                // the candidate of `channel_a` is now a candidate of nothing else
                let now = self@;
                assert forall|i: u16| i < 16 && i != a implies !has_bit(
                    now.b[target as int],
                    i,
                ) by {
                    if i < channels {
                        assert(!now.has(i as int, target as int));
                        assert(has_bit(now.a[i as int], target as u16) == has_bit(
                            now.b[target as int],
                            i,
                        ));
                    } else {
                        lemma_small_value_bits(now.b[target as int], channels as u16, i);
                    }
                }
                lemma_singles_differ(target as int, target as int);
                assert(has_bit(now.a[a], target as u16) == has_bit(now.b[target as int], a as u16));
                lemma_word_of_single_bit(now.b[target as int], a as u16);
                assert forall|t: int| 0 <= t < now.width() && #[trigger] now.row_is(
                    a,
                    t,
                ) implies now.col_is(t, a) by {
                    lemma_singles_differ(t, target as int);
                }
                assert(now.unit_row(a));
            }
        } else {
            proof {
                assert forall|t: int| 0 <= t < m1.width() && #[trigger] m1.row_is(
                    a,
                    t,
                ) implies m1.col_is(t, a) by {
                    lemma_single_bit(row_a, t as u16);
                }
                assert(self@.unit_row(a));
            }
        }
        let ghost m2 = self@;
        if row_b & (row_b - 1) == 0 {
            let target = row_b.trailing_zeros() as usize;
            proof {
                axiom_u16_trailing_zeros(row_b);
                lemma_single_bit(row_b, target as u16);
                if target >= channels {
                    lemma_small_value_bits(row_b, channels as u16, target as u16);
                    lemma_singles_differ(target as int, target as int);
                }
                assert(m1.col_is(b, target as int));
                m2.lemma_col_shrinks_to_single(m1, b, target as int);
            }
            let mut other: usize = 0;
            while other < channels
                invariant
                    other <= channels == m0.width(),
                    m0 == old(self)@,
                    !old(self).failed(),
                    m0.has(a, b),
                    a == channel_a < channels,
                    b == channel_b < channels,
                    target < channels,
                    m0.wf(),
                    m1.wf(),
                    m1.within(m0),
                    m1.size() < m0.size(),
                    self.wf(),
                    !self.failed(),
                    self@.within(m1),
                    self@.size() <= m1.size(),
                    self@.col_is(b, target as int),
                    forall|o: int| 0 <= o < other && o != b ==> !self@.has(target as int, o),
                    self@.settled_where_changed(m1),
                    self@.unit_row(a),
                    forall|g: Pairs|
                        #![trigger g.within(m0)]
                        g.wf() && g.settled() && g.within(m0) && !g.has(a, b) ==> g.within(self@),
                decreases channels - other,
            {
                if other != channel_b {
                    let ghost cur = self@;
                    let failed = self.remove(target, other);
                    proof {
                        assert forall|g: Pairs|
                            #![trigger g.within(m0)]
                            g.wf() && g.settled() && g.within(m0) && !g.has(a, b) implies !failed
                            && g.within(self@) by {
                            assert(g.within(cur));
                            g.lemma_col_shrinks_to_single(cur, b, target as int);
                            assert(g.row_is(target as int, b));
                            lemma_singles_differ(b, other as int);
                            assert(!g.has(target as int, other as int));
                        }
                    }
                    if failed {
                        return true;
                    }
                    proof {
                        let now = self@;
                        now.lemma_col_shrinks_to_single(cur, b, target as int);
                        lemma_kept_settled(m1, cur, now);
                        if now.a[a] == cur.a[a] {
                            now.lemma_unit_row_stable(cur, a);
                        }
                    }
                }
                other += 1;
            }
            proof {
                // what `channel_b` is a candidate of now has no other candidate
                let now = self@;
                assert forall|i: u16| i < 16 && i != b implies !has_bit(
                    now.a[target as int],
                    i,
                ) by {
                    if i < channels {
                        assert(!now.has(target as int, i as int));
                    } else {
                        lemma_small_value_bits(now.a[target as int], channels as u16, i);
                    }
                }
                lemma_singles_differ(target as int, target as int);
                assert(has_bit(now.a[target as int], b as u16) == has_bit(
                    now.b[b],
                    target as u16,
                ));
                lemma_word_of_single_bit(now.a[target as int], b as u16);
                assert forall|s: int| 0 <= s < now.width() && #[trigger] now.col_is(
                    b,
                    s,
                ) implies now.row_is(s, b) by {
                    lemma_singles_differ(s, target as int);
                }
                assert(now.unit_col(b));
            }
        } else {
            proof {
                let now = self@;
                if now.b[b] == m1.b[b] {
                    assert forall|s: int| 0 <= s < now.width() && #[trigger] now.col_is(
                        b,
                        s,
                    ) implies now.row_is(s, b) by {
                        lemma_single_bit(row_b, s as u16);
                    }
                }
                assert(now.unit_col(b));
            }
        }
        proof {
            let now = self@;
            assert(now.settled_where_changed(m0)) by {
                assert forall|x: int| 0 <= x < now.width() && (#[trigger] now.a[x])
                    != m0.a[x] implies now.unit_row(x) by {
                    if x != a {
                        assert(m1.a[x] == m0.a[x]);
                    }
                }
                assert forall|y: int| 0 <= y < now.width() && (#[trigger] now.b[y])
                    != m0.b[y] implies now.unit_col(y) by {
                    if y != b {
                        assert(m1.b[y] == m0.b[y]);
                    }
                }
            }
            if m0.settled() {
                now.lemma_settled_from_changes(m0);
            }
        }
        false
    }

    /// Matches `channel_a` with `channel_b`: takes out every other pair with
    /// one of the two, and concludes what follows as `remove` does. Returns
    /// whether the mark is set afterwards; it is set if the pair itself was
    /// not there.
    ///
    /// If the mark was set, nothing happens. Otherwise what is left is within
    /// what was there and holds every settled relation within it in which
    /// `channel_b` is the only candidate of `channel_a`; if there is no such
    /// relation, the mark is set.
    pub fn select(&mut self, channel_a: usize, channel_b: usize) -> (r: bool)
        requires
            old(self).wf(),
            channel_a < old(self).width(),
            channel_b < old(self).width(),
        ensures
            final(self).wf(),
            final(self).width() == old(self).width(),
            r == final(self).failed(),
            final(self)@.within(old(self)@),
            final(self)@.size() < old(self)@.size() || final(self)@ == old(self)@,
            old(self).failed() ==> r && final(self)@ == old(self)@,
            !old(self).failed() && !old(self)@.has(channel_a as int, channel_b as int) ==> r
                && final(self)@ == old(self)@,
            !r ==> final(self)@.row_is(channel_a as int, channel_b as int) && final(self)@.col_is(
                channel_b as int,
                channel_a as int,
            ),
            !r ==> final(self)@.settled_where_changed(old(self)@),
            !r && old(self)@.settled() ==> final(self)@.settled(),
            !old(self).failed() ==> forall|g: Pairs|
                #![trigger g.within(old(self)@)]
                g.wf() && g.settled() && g.within(old(self)@) && g.row_is(
                    channel_a as int,
                    channel_b as int,
                ) ==> !r && g.within(final(self)@),
    {
        if self.incomplete {
            return true;
        }
        let ghost m0 = self@;
        let ghost a = channel_a as int;
        let ghost b = channel_b as int;
        if !self.contains(channel_a, channel_b) {
            self.incomplete = true;
            proof {
                assert forall|g: Pairs|
                    #![trigger g.within(m0)]
                    g.wf() && g.settled() && g.within(m0) && g.row_is(a, b) implies false by {
                    lemma_singles_differ(b, b);
                    assert(g.has(a, b));
                }
            }
            return true;
        }
        let channels = words_len(&self.matches_a);
        let mut other: usize = 0;
        while other < channels
            invariant
                other <= channels == m0.width(),
                m0 == old(self)@,
                !old(self).failed(),
                m0.has(a, b),
                a == channel_a < channels,
                b == channel_b < channels,
                m0.wf(),
                self.wf(),
                !self.failed(),
                self@.within(m0),
                self@.size() < m0.size() || self@ == m0,
                m0.settled() ==> self@.settled(),
                forall|o: int| 0 <= o < other && o != a ==> !self@.has(o, b),
                self@.settled_where_changed(m0),
                forall|g: Pairs|
                    #![trigger g.within(m0)]
                    g.wf() && g.settled() && g.within(m0) && g.row_is(a, b) ==> g.within(self@),
            decreases channels - other,
        {
            if other != channel_a {
                let ghost cur = self@;
                let failed = self.remove(other, channel_b);
                proof {
                    assert forall|g: Pairs|
                        #![trigger g.within(m0)]
                        g.wf() && g.settled() && g.within(m0) && g.row_is(a, b) implies !failed
                        && g.within(self@) by {
                        assert(g.within(cur));
                        assert(g.col_is(b, a));
                        lemma_singles_differ(a, other as int);
                        assert(has_bit(g.a[other as int], b as u16) == has_bit(
                            g.b[b],
                            other as u16,
                        ));
                        assert(!g.has(other as int, b));
                    }
                }
                if failed {
                    return true;
                }
                proof {
                    lemma_kept_settled(m0, cur, self@);
                }
            }
            other += 1;
        }
        let mut other: usize = 0;
        while other < channels
            invariant
                other <= channels == m0.width(),
                m0 == old(self)@,
                !old(self).failed(),
                m0.has(a, b),
                a == channel_a < channels,
                b == channel_b < channels,
                m0.wf(),
                self.wf(),
                !self.failed(),
                self@.within(m0),
                self@.size() < m0.size() || self@ == m0,
                m0.settled() ==> self@.settled(),
                forall|o: int| 0 <= o < channels && o != a ==> !self@.has(o, b),
                forall|o: int| 0 <= o < other && o != b ==> !self@.has(a, o),
                self@.settled_where_changed(m0),
                forall|g: Pairs|
                    #![trigger g.within(m0)]
                    g.wf() && g.settled() && g.within(m0) && g.row_is(a, b) ==> g.within(self@),
            decreases channels - other,
        {
            if other != channel_b {
                let ghost cur = self@;
                let failed = self.remove(channel_a, other);
                proof {
                    assert forall|g: Pairs|
                        #![trigger g.within(m0)]
                        g.wf() && g.settled() && g.within(m0) && g.row_is(a, b) implies !failed
                        && g.within(self@) by {
                        assert(g.within(cur));
                        lemma_singles_differ(b, other as int);
                        assert(!g.has(a, other as int));
                    }
                }
                if failed {
                    return true;
                }
                proof {
                    lemma_kept_settled(m0, cur, self@);
                }
            }
            other += 1;
        }
        proof {
            let now = self@;
            assert forall|i: u16| i < 16 && i != b implies !has_bit(now.a[a], i) by {
                if i < channels {
                    assert(!now.has(a, i as int));
                } else {
                    lemma_small_value_bits(now.a[a], channels as u16, i);
                }
            }
            if !has_bit(now.a[a], b as u16) {
                lemma_word_without_bits(now.a[a]);
            }
            lemma_word_of_single_bit(now.a[a], b as u16);
            assert forall|i: u16| i < 16 && i != a implies !has_bit(now.b[b], i) by {
                if i < channels {
                    assert(!now.has(i as int, b));
                    assert(has_bit(now.a[i as int], b as u16) == has_bit(now.b[b], i));
                } else {
                    lemma_small_value_bits(now.b[b], channels as u16, i);
                }
            }
            assert(has_bit(now.a[a], b as u16) == has_bit(now.b[b], a as u16));
            lemma_word_of_single_bit(now.b[b], a as u16);
        }
        false
    }

    /// Takes out every pair for which `pred` returns false, and concludes
    /// what follows as `remove` does. Returns whether the mark is set
    /// afterwards.
    ///
    /// If the mark was set, nothing happens. Otherwise `pred` has returned
    /// true for every pair that is left, and what is left is within what was
    /// there and holds every settled relation within it on whose pairs
    /// `pred` cannot return false; if there is no such relation, the mark is
    /// set.
    pub fn filter<F: FnMut(usize, usize) -> bool>(&mut self, pred: F) -> (r: bool)
        requires
            old(self).wf(),
            forall|x: usize, y: usize|
                x < old(self).width() && y < old(self).width() ==> call_requires(pred, (x, y)),
        ensures
            final(self).wf(),
            final(self).width() == old(self).width(),
            r == final(self).failed(),
            final(self)@.within(old(self)@),
            old(self).failed() ==> r && final(self)@ == old(self)@,
            !r ==> forall|x: usize, y: usize|
                x < final(self).width() && y < final(self).width() && #[trigger] final(self)@.has(
                    x as int,
                    y as int,
                ) ==> call_ensures(pred, (x, y), true),
            !r ==> final(self)@.settled_where_changed(old(self)@),
            !r && old(self)@.settled() ==> final(self)@.settled(),
            !old(self).failed() ==> forall|g: Pairs|
                #![trigger g.within(old(self)@)]
                g.wf() && g.settled() && g.within(old(self)@) && allowed_on(g, pred) ==> !r
                    && g.within(final(self)@),
    {
        if self.incomplete {
            return true;
        }
        broadcast use vstd::function::group_function_axioms;

        let ghost m0 = self@;
        let mut test = pred;
        let channels = words_len(&self.matches_a);
        let mut a: usize = 0;
        while a < channels
            invariant
                a <= channels == m0.width(),
                m0 == old(self)@,
                test == pred,
                !old(self).failed(),
                m0.wf(),
                self.wf(),
                !self.failed(),
                self@.within(m0),
                m0.settled() ==> self@.settled(),
                self@.settled_where_changed(m0),
                forall|x: usize, y: usize|
                    x < channels && y < channels ==> call_requires(pred, (x, y)),
                forall|x: usize, y: usize|
                    x < a && y < channels && #[trigger] self@.has(x as int, y as int)
                        ==> call_ensures(pred, (x, y), true),
                forall|g: Pairs|
                    #![trigger g.within(m0)]
                    g.wf() && g.settled() && g.within(m0) && allowed_on(g, pred) ==> g.within(
                        self@,
                    ),
            decreases channels - a,
        {
            let mut b: usize = 0;
            while b < channels
                invariant
                    a < channels == m0.width(),
                    b <= channels,
                    test == pred,
                    m0 == old(self)@,
                    !old(self).failed(),
                    m0.wf(),
                    self.wf(),
                    !self.failed(),
                    self@.within(m0),
                    m0.settled() ==> self@.settled(),
                    self@.settled_where_changed(m0),
                    forall|x: usize, y: usize|
                        x < channels && y < channels ==> call_requires(pred, (x, y)),
                    forall|x: usize, y: usize|
                        x < a && y < channels && #[trigger] self@.has(x as int, y as int)
                            ==> call_ensures(pred, (x, y), true),
                    forall|y: usize|
                        y < b && #[trigger] self@.has(a as int, y as int) ==> call_ensures(
                            pred,
                            (a, y),
                            true,
                        ),
                    forall|g: Pairs|
                        #![trigger g.within(m0)]
                        g.wf() && g.settled() && g.within(m0) && allowed_on(g, pred) ==> g.within(
                            self@,
                        ),
                decreases channels - b,
            {
                if self.contains(a, b) {
                    let keep = test(a, b);
                    assert(call_ensures(pred, (a, b), keep));
                    if !keep {
                        let ghost cur = self@;
                        let failed = self.remove(a, b);
                        proof {
                            assert forall|g: Pairs|
                                #![trigger g.within(m0)]
                                g.wf() && g.settled() && g.within(m0) && allowed_on(
                                    g,
                                    pred,
                                ) implies !failed && g.within(self@) by {
                                assert(g.within(cur));
                                if g.has(a as int, b as int) {
                                    assert(!call_ensures(pred, (a, b), false));
                                }
                            }
                        }
                        if failed {
                            return true;
                        }
                        proof {
                            lemma_kept_settled(m0, cur, self@);
                        }
                    }
                }
                b += 1;
            }
            a += 1;
        }
        false
    }

    /// Renames the channels of side A: `i` becomes `j` and `j` becomes `i`.
    pub fn swap_channels_a(&mut self, i: usize, j: usize)
        requires
            old(self).wf(),
            i < old(self).width(),
            j < old(self).width(),
        ensures
            final(self).wf(),
            final(self).failed() == old(self).failed(),
            final(self)@.a == old(self)@.a.update(i as int, old(self)@.a[j as int]).update(
                j as int,
                old(self)@.a[i as int],
            ),
            final(self)@.b.len() == old(self)@.b.len(),
            forall|y: int|
                0 <= y < old(self).width() ==> (#[trigger] final(self)@.b[y]) == exchange_image(
                    old(self)@.b[y],
                    i as u16,
                    j as u16,
                ),
            old(self)@.settled() ==> final(self)@.settled(),
    {
        let ghost before = self@;
        words_swap(&mut self.matches_a, i, j);
        exchange_in_rows(&mut self.matches_b, i, j);
        proof {
            lemma_renamed(before, self@, i as int, j as int, true);
            if before.settled() {
                lemma_mirrored_settled(before);
                lemma_renamed(mirrored(before), mirrored(self@), i as int, j as int, false);
                lemma_renamed_settled(mirrored(before), mirrored(self@), i as int, j as int);
                lemma_mirrored_settled(mirrored(self@));
                assert(mirrored(mirrored(self@)) == self@);
            }
        }
    }

    /// Renames the channels of side B: `i` becomes `j` and `j` becomes `i`.
    pub fn swap_channels_b(&mut self, i: usize, j: usize)
        requires
            old(self).wf(),
            i < old(self).width(),
            j < old(self).width(),
        ensures
            final(self).wf(),
            final(self).failed() == old(self).failed(),
            final(self)@.b == old(self)@.b.update(i as int, old(self)@.b[j as int]).update(
                j as int,
                old(self)@.b[i as int],
            ),
            final(self)@.a.len() == old(self)@.a.len(),
            forall|x: int|
                0 <= x < old(self).width() ==> (#[trigger] final(self)@.a[x]) == exchange_image(
                    old(self)@.a[x],
                    i as u16,
                    j as u16,
                ),
            old(self)@.settled() ==> final(self)@.settled(),
    {
        let ghost before = self@;
        words_swap(&mut self.matches_b, i, j);
        exchange_in_rows(&mut self.matches_a, i, j);
        proof {
            lemma_renamed(before, self@, i as int, j as int, false);
            if before.settled() {
                lemma_renamed_settled(before, self@, i as int, j as int);
            }
        }
    }
}

/// Whether `pred` cannot return false on a pair of `g`.
pub open spec fn allowed_on<F: FnMut(usize, usize) -> bool>(g: Pairs, pred: F) -> bool {
    forall|x: usize, y: usize|
        x < g.width() && y < g.width() && #[trigger] g.has(x as int, y as int) ==> !call_ensures(
            pred,
            (x, y),
            false,
        )
}

/// What is settled where it differs from `base` stays so through one more
/// step that is settled where it changes something.
pub proof fn lemma_kept_settled(base: Pairs, cur: Pairs, now: Pairs)
    requires
        base.wf(),
        cur.wf(),
        now.wf(),
        now.total(),
        now.within(cur),
        cur.settled_where_changed(base),
        now.settled_where_changed(cur),
    ensures
        now.settled_where_changed(base),
{
    assert forall|x: int| 0 <= x < now.width() && (#[trigger] now.a[x]) != base.a[x] implies now.unit_row(
        x,
    ) by {
        if now.a[x] == cur.a[x] {
            now.lemma_unit_row_stable(cur, x);
        }
    }
    assert forall|y: int| 0 <= y < now.width() && (#[trigger] now.b[y]) != base.b[y] implies now.unit_col(
        y,
    ) by {
        if now.b[y] == cur.b[y] {
            now.lemma_unit_col_stable(cur, y);
        }
    }
}

/// A relation with the channels `i` and `j` of one side renamed into each
/// other is again one relation, and has a candidate for every channel if the
/// first has.
pub proof fn lemma_renamed(before: Pairs, after: Pairs, i: int, j: int, on_a: bool)
    requires
        before.wf(),
        0 <= i < before.width(),
        0 <= j < before.width(),
        after.a.len() == before.a.len(),
        after.b.len() == before.b.len(),
        on_a ==> after.a == before.a.update(i, before.a[j]).update(j, before.a[i]),
        on_a ==> forall|y: int|
            0 <= y < before.width() ==> (#[trigger] after.b[y]) == exchange_image(
                before.b[y],
                i as u16,
                j as u16,
            ),
        !on_a ==> after.b == before.b.update(i, before.b[j]).update(j, before.b[i]),
        !on_a ==> forall|x: int|
            0 <= x < before.width() ==> (#[trigger] after.a[x]) == exchange_image(
                before.a[x],
                i as u16,
                j as u16,
            ),
    ensures
        after.wf(),
        before.total() ==> after.total(),
{
    let w = before.width();
    assert forall|x: int| 0 <= x < w implies (#[trigger] after.a[x]) < single(w as int) && (
    before.total() ==> after.a[x] != 0) by {
        lemma_exchange_image(before.a[x], i as u16, j as u16, w as u16);
        lemma_exchange_image(0, i as u16, j as u16, w as u16);
        lemma_exchange_image(after.a[x], i as u16, j as u16, w as u16);
    }
    assert forall|y: int| 0 <= y < w implies (#[trigger] after.b[y]) < single(w as int) && (
    before.total() ==> after.b[y] != 0) by {
        lemma_exchange_image(before.b[y], i as u16, j as u16, w as u16);
        lemma_exchange_image(0, i as u16, j as u16, w as u16);
        lemma_exchange_image(after.b[y], i as u16, j as u16, w as u16);
    }
    assert forall|x: int, y: int| 0 <= x < w && 0 <= y < w implies (#[trigger] has_bit(
        after.a[x],
        y as u16,
    )) == has_bit(after.b[y], x as u16) by {
        if on_a {
            let from = if x == i {
                j
            } else if x == j {
                i
            } else {
                x
            };
            lemma_exchange_bits(before.b[y], i as u16, j as u16, x as u16);
            assert(has_bit(before.a[from], y as u16) == has_bit(before.b[y], from as u16));
        } else {
            let from = if y == i {
                j
            } else if y == j {
                i
            } else {
                y
            };
            lemma_exchange_bits(before.a[x], i as u16, j as u16, y as u16);
            assert(has_bit(before.a[x], from as u16) == has_bit(before.b[from], x as u16));
        }
    }
}

/// Exchanging two channels of a single one gives the single one on the
/// channel that the exchange sends it to.
pub proof fn lemma_exchange_of_single(t: int, i: int, j: int)
    requires
        0 <= t < 16,
        0 <= i < 16,
        0 <= j < 16,
    ensures
        exchange_image(single(t), i as u16, j as u16) == single(
            if t == i {
                j
            } else if t == j {
                i
            } else {
                t
            },
        ),
{
    let to = if t == i {
        j
    } else if t == j {
        i
    } else {
        t
    };
    let v = exchange_image(single(t), i as u16, j as u16);
    assert forall|c: u16| c < 16 && c != to implies !has_bit(v, c) by {
        lemma_exchange_bits(single(t), i as u16, j as u16, c);
        let from = if c == i {
            j
        } else if c == j {
            i
        } else {
            c as int
        };
        lemma_singles_differ(t, from);
    }
    lemma_exchange_bits(single(t), i as u16, j as u16, to as u16);
    lemma_singles_differ(t, t);
    lemma_word_of_single_bit(v, to as u16);
}

/// A relation with its two sides exchanged.
pub open spec fn mirrored(p: Pairs) -> Pairs {
    Pairs { a: p.b, b: p.a }
}

/// A settled relation with two channels of side B renamed into each other
/// is settled.
pub proof fn lemma_renamed_settled(before: Pairs, after: Pairs, i: int, j: int)
    requires
        before.wf(),
        after.wf(),
        before.settled(),
        after.total(),
        0 <= i < before.width(),
        0 <= j < before.width(),
        after.b == before.b.update(i, before.b[j]).update(j, before.b[i]),
        after.a.len() == before.a.len(),
        forall|x: int|
            0 <= x < before.width() ==> (#[trigger] after.a[x]) == exchange_image(
                before.a[x],
                i as u16,
                j as u16,
            ),
    ensures
        after.settled(),
{
    let w = before.width();
    assert forall|x: int, t: int| 0 <= x < w && 0 <= t < w && #[trigger] after.row_is(
        x,
        t,
    ) implies after.col_is(t, x) by {
        let from = if t == i {
            j
        } else if t == j {
            i
        } else {
            t
        };
        lemma_exchange_of_single(t, i, j);
        lemma_exchange_image(before.a[x], i as u16, j as u16, w as u16);
        assert(before.row_is(x, from));
        assert(before.col_is(from, x));
    }
    assert forall|y: int, s: int| 0 <= y < w && 0 <= s < w && #[trigger] after.col_is(
        y,
        s,
    ) implies after.row_is(s, y) by {
        let from = if y == i {
            j
        } else if y == j {
            i
        } else {
            y
        };
        assert(before.col_is(from, s));
        assert(before.row_is(s, from));
        lemma_exchange_of_single(from, i, j);
    }
}

/// A settled relation with its sides exchanged is settled.
pub proof fn lemma_mirrored_settled(p: Pairs)
    requires
        p.wf(),
        p.settled(),
    ensures
        mirrored(p).wf(),
        mirrored(p).settled(),
{
    let q = mirrored(p);
    assert forall|x: int, y: int| 0 <= x < q.width() && 0 <= y < q.width() implies (#[trigger] has_bit(
        q.a[x],
        y as u16,
    )) == has_bit(q.b[y], x as u16) by {
        assert(has_bit(p.a[y], x as u16) == has_bit(p.b[x], y as u16));
    }
    assert forall|x: int, t: int|
        0 <= x < q.width() && 0 <= t < q.width() && #[trigger] q.row_is(x, t) implies q.col_is(
        t,
        x,
    ) by {
        assert(p.col_is(x, t));
    }
    assert forall|y: int, s: int|
        0 <= y < q.width() && 0 <= s < q.width() && #[trigger] q.col_is(y, s) implies q.row_is(
        s,
        y,
    ) by {
        assert(p.row_is(y, s));
    }
}

} // verus!
