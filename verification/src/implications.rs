//! Which channel of an output set carries a one wherever another does.

use vstd::prelude::*;
use crate::bits::{has_bit, all_ones, comparator_image, lemma_limit, lemma_all_ones_bits, lemma_and_bit};
use crate::fixed_vec::{CVec, words, words_new, words_push, words_len, words_get};
use crate::output_set::{is_value_seq, OutputSet};
use crate::value_seq::{is_image, lemma_ascending_unique};

verus! {

/// Whether every value of `s` with a one on channel `i` has a one on channel
/// `j`.
pub open spec fn dominates(s: Seq<u16>, i: u16, j: u16) -> bool {
    forall|k: int| 0 <= k < s.len() && has_bit(#[trigger] s[k], i) ==> has_bit(s[k], j)
}

/// Whether one of the channels `i` and `j` carries a one wherever the other
/// does: a comparator on the two would change nothing or only exchange them.
#[verifier::opaque]
pub open spec fn associated(s: Seq<u16>, i: usize, j: usize) -> bool {
    dominates(s, i as u16, j as u16) || dominates(s, j as u16, i as u16)
}

/// Whether the word for channel `i` has a one on channel `j`.
pub open spec fn implied(rows: Seq<u16>, i: int, j: int) -> bool {
    has_bit(rows[i], j as u16)
}

/// For every channel of an output set, the channels that carry a one
/// wherever it does.
pub struct Implications {
    above: CVec<u16>,
}

impl View for Implications {
    type V = Seq<u16>;

    closed spec fn view(&self) -> Seq<u16> {
        words(self.above)
    }
}

impl Implications {
    /// Whether these are the implications between the `w` channels of `s`.
    pub open spec fn describes(&self, s: Seq<u16>, w: nat) -> bool {
        &&& self@.len() == w
        &&& forall|i: int, j: int|
            0 <= i < w && 0 <= j < w ==> #[trigger] implied(self@, i, j) == dominates(
                s,
                i as u16,
                j as u16,
            )
    }

    /// Whether one of the channels `i` and `j` carries a one wherever the
    /// other does.
    pub fn is_associated(&self, i: usize, j: usize) -> (r: bool)
        requires
            i < self@.len(),
            j < self@.len(),
        ensures
            r == (implied(self@, i as int, j as int) || implied(self@, j as int, i as int)),
            forall|s: Seq<u16>| #[trigger] self.describes(s, self@.len()) ==> r == associated(s, i, j),
    {
        let count = words_len(&self.above);
        let up = words_get(&self.above, i) & (1u16 << j) != 0;
        let down = words_get(&self.above, j) & (1u16 << i) != 0;
        proof {
            reveal(associated);
            assert forall|s: Seq<u16>| #[trigger] self.describes(s, self@.len()) implies (up || down)
                == associated(s, i, j) by {
                assert(implied(self@, i as int, j as int) == dominates(s, i as u16, j as u16));
                assert(implied(self@, j as int, i as int) == dominates(s, j as u16, i as u16));
            }
        }
        up || down
    }
}

/// One more value is dominated if the values before it are and it is.
proof fn lemma_dominates_step(s: Seq<u16>, k: int, i: u16, j: u16)
    requires
        0 <= k < s.len(),
    ensures
        dominates(s.take(k + 1), i, j) == (dominates(s.take(k), i, j) && (has_bit(s[k], i)
            ==> has_bit(s[k], j))),
{
    let more = s.take(k + 1);
    let less = s.take(k);
    if dominates(more, i, j) {
        assert forall|m: int| 0 <= m < less.len() && has_bit(#[trigger] less[m], i) implies has_bit(
            less[m],
            j,
        ) by {
            assert(more[m] == less[m]);
        }
        assert(more[k] == s[k]);
    }
    if dominates(less, i, j) && (has_bit(s[k], i) ==> has_bit(s[k], j)) {
        assert forall|m: int| 0 <= m < more.len() && has_bit(#[trigger] more[m], i) implies has_bit(
            more[m],
            j,
        ) by {
            if m < k {
                assert(more[m] == less[m]);
            }
        }
    }
}

/// A comparator on channels of which the first carries a one wherever the
/// second does changes nothing.
pub proof fn lemma_comparator_changes_nothing(s: Seq<u16>, r: Seq<u16>, a: usize, b: usize, w: nat)
    requires
        w <= 15,
        a < w,
        b < w,
        a != b,
        is_value_seq(s, w),
        is_value_seq(r, w),
        is_image(r, s, |v: u16| comparator_image(v, a as u16, b as u16)),
        dominates(s, b as u16, a as u16),
    ensures
        r == s,
{
    let f = |v: u16| comparator_image(v, a as u16, b as u16);
    assert forall|k: int| 0 <= k < s.len() implies f(#[trigger] s[k]) == s[k] by {}
    assert forall|k: int| 0 <= k < s.len() implies r.contains(#[trigger] s[k]) by {
        assert(r.contains(f(s[k])));
    }
    assert forall|k: int| 0 <= k < r.len() implies s.contains(#[trigger] r[k]) by {
        let i = choose|i: int| 0 <= i < s.len() && f(s[i]) == r[k];
        assert(s[i] == r[k]);
    }
    lemma_ascending_unique(r, s);
}

impl OutputSet {
    /// Which channel carries a one wherever another does.
    pub fn implications(&self) -> (r: Implications)
        requires
            self.wf(),
        ensures
            r.describes(self@, self.width()),
    {
        let channels = self.channels();
        let values = self.values();
        let ghost s = self@;
        let ghost w = channels as u16;
        proof {
            lemma_limit(w);
        }
        let all: u16 = (1u16 << channels) - 1;
        let mut above = words_new();
        let mut channel: usize = 0;
        while channel < channels
            invariant
                channel <= channels == w <= 15,
                values@ == s,
                all == all_ones(w),
                words(above).len() == channel,
                forall|i: int, j: int|
                    0 <= i < channel && 0 <= j < w ==> #[trigger] implied(words(above), i, j)
                        == dominates(s, i as u16, j as u16),
            decreases channels - channel,
        {
            let mask: u16 = 1u16 << channel;
            let mut common: u16 = all;
            let mut at: usize = 0;
            proof {
                assert forall|j: u16| j < 16 implies #[trigger] has_bit(common, j) == (j < w
                    && dominates(s.take(0), channel as u16, j)) by {
                    lemma_all_ones_bits(w, j);
                }
            }
            while at < values.len()
                invariant
                    at <= values@.len(),
                    values@ == s,
                    channel < w <= 15,
                    mask == 1u16 << (channel as u16),
                    forall|j: u16|
                        j < 16 ==> #[trigger] has_bit(common, j) == (j < w && dominates(
                            s.take(at as int),
                            channel as u16,
                            j,
                        )),
                decreases values@.len() - at,
            {
                let value = values[at];
                let ghost before = common;
                if value & mask != 0 {
                    common = common & value;
                }
                proof {
                    assert forall|j: u16| j < 16 implies #[trigger] has_bit(common, j) == (j < w
                        && dominates(s.take(at + 1), channel as u16, j)) by {
                        lemma_and_bit(before, value, j);
                        lemma_dominates_step(s, at as int, channel as u16, j);
                        assert(has_bit(before, j) == (j < w && dominates(
                            s.take(at as int),
                            channel as u16,
                            j,
                        )));
                    }
                }
                at += 1;
            }
            let ghost rows = words(above);
            words_push(&mut above, common);
            proof {
                assert(s.take(s.len() as int) =~= s);
                assert forall|i: int, j: int| 0 <= i < channel + 1 && 0 <= j < w implies #[trigger] implied(
                    words(above),
                    i,
                    j,
                ) == dominates(s, i as u16, j as u16) by {
                    if i < channel {
                        assert(implied(rows, i, j) == dominates(s, i as u16, j as u16));
                    } else {
                        assert(has_bit(common, j as u16) == (j < w && dominates(
                            s.take(s.len() as int),
                            channel as u16,
                            j as u16,
                        )));
                    }
                }
            }
            channel += 1;
        }
        Implications { above }
    }
}

} // verus!
