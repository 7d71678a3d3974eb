//! Permutations of the channels and what they do to values.

use vstd::prelude::*;
use vstd::set_lib::{set_int_range, lemma_int_range, lemma_subset_equality};
use crate::bits::{has_bit, all_ones, lemma_or_bit, lemma_differing_channel, differing_channel, lemma_all_ones_bits};
use crate::fixed_vec::{CVec, indices, indices_new, indices_push, indices_len, indices_get};

verus! {

/// Whether `p` lists each of the channels `0..w` once.
pub open spec fn is_permutation(p: Seq<usize>, w: nat) -> bool {
    &&& p.len() == w
    &&& forall|i: int| 0 <= i < w ==> (#[trigger] p[i]) < w
    &&& forall|i: int, j: int| 0 <= i < j < w ==> p[i] != p[j]
}

/// The list `0, 1, .., w - 1`.
pub open spec fn identity_seq(w: nat) -> Seq<usize> {
    Seq::new(w, |i: int| i as usize)
}

/// `v` with its channels rearranged by `p`: channel `i` of the result carries
/// what channel `p[i]` of `v` carries.
pub open spec fn permuted_value(v: u16, p: Seq<usize>) -> u16
    decreases p.len(),
{
    if p.len() == 0 {
        0
    } else {
        let low = permuted_value(v, p.drop_last());
        if has_bit(v, p.last() as u16) {
            low | (1u16 << ((p.len() - 1) as u16))
        } else {
            low
        }
    }
}

/// Channel by channel, a rearranged value is what its definition says, and it
/// has no ones beyond the channels of `p`.
pub proof fn lemma_permuted_bits(v: u16, p: Seq<usize>, i: u16)
    requires
        p.len() <= 15,
        forall|k: int| 0 <= k < p.len() ==> (#[trigger] p[k]) < 16,
        i < 16,
    ensures
        has_bit(permuted_value(v, p), i) == (i < p.len() && has_bit(v, p[i as int] as u16)),
        permuted_value(v, p) < (1u16 << (p.len() as u16)),
    decreases p.len(),
{
    if p.len() == 0 {
        lemma_or_bit(0, 0, i);
    } else {
        let q = p.drop_last();
        lemma_permuted_bits(v, q, i);
        lemma_or_bit(permuted_value(v, q), q.len() as u16, i);
    }
}

/// Every channel below `w` occurs in a permutation of `0..w`.
pub proof fn lemma_permutation_onto(p: Seq<usize>, w: nat, c: int)
    requires
        is_permutation(p, w),
        0 <= c < w,
    ensures
        exists|i: int| 0 <= i < w && p[i] == c,
{
    let s = Seq::new(w, |i: int| p[i] as int);
    assert(s.no_duplicates());
    s.unique_seq_to_set();
    lemma_int_range(0, w as int);
    vstd::seq_lib::seq_to_set_is_finite(s);
    assert(s.to_set().subset_of(set_int_range(0, w as int))) by {
        assert forall|x: int| s.to_set().contains(x) implies set_int_range(0, w as int).contains(
            x,
        ) by {
            let i = choose|i: int| 0 <= i < s.len() && s[i] == x;
            assert(s[i] == p[i]);
        }
    }
    lemma_subset_equality(s.to_set(), set_int_range(0, w as int));
    assert(set_int_range(0, w as int).contains(c));
    assert(s.to_set().contains(c));
    let i = choose|i: int| 0 <= i < s.len() && s[i] == c;
    assert(p[i] == c);
}

/// A permutation of the channels sends different `w`-bit values to different
/// values.
pub proof fn lemma_permuted_injective(x: u16, y: u16, p: Seq<usize>, w: u16)
    requires
        is_permutation(p, w as nat),
        w <= 15,
        x < (1u16 << w),
        y < (1u16 << w),
        x != y,
    ensures
        permuted_value(x, p) != permuted_value(y, p),
{
    lemma_differing_channel(x, y, w);
    let c = differing_channel(x, y);
    lemma_permutation_onto(p, w as nat, c as int);
    let i = choose|i: int| 0 <= i < w && p[i] == c;
    lemma_permuted_bits(x, p, i as u16);
    lemma_permuted_bits(y, p, i as u16);
}

/// A permutation of the channels leaves the all-zeros and the all-ones value
/// where they are.
pub proof fn lemma_permuted_extremes(p: Seq<usize>, w: u16)
    requires
        is_permutation(p, w as nat),
        w <= 15,
    ensures
        permuted_value(0, p) == 0,
        permuted_value(all_ones(w), p) == all_ones(w),
{
    let z = permuted_value(0, p);
    if z != 0 {
        lemma_differing_channel(z, 0, 16);
        let c = differing_channel(z, 0);
        lemma_permuted_bits(0, p, c);
        lemma_or_bit(0, 0, c);
        if c < w {
            lemma_or_bit(0, 0, p[c as int] as u16);
        }
    }
    let o = permuted_value(all_ones(w), p);
    if o != all_ones(w) {
        lemma_differing_channel(o, all_ones(w), 16);
        let c = differing_channel(o, all_ones(w));
        lemma_permuted_bits(all_ones(w), p, c);
        lemma_all_ones_bits(w, c);
        if c < w {
            lemma_all_ones_bits(w, p[c as int] as u16);
        }
    }
}

/// The permutation that leaves every channel where it is.
pub fn identity(channels: usize) -> (r: CVec<usize>)
    requires
        channels <= 15,
    ensures
        indices(r) == identity_seq(channels as nat),
        is_permutation(indices(r), channels as nat),
{
    let mut perm = indices_new();
    let mut next: usize = 0;
    while next < channels
        invariant
            next <= channels <= 15,
            indices(perm).len() == next,
            forall|i: int| 0 <= i < next ==> indices(perm)[i] == i,
        decreases channels - next,
    {
        indices_push(&mut perm, next);
        next += 1;
    }
    assert(indices(perm) =~= identity_seq(channels as nat));
    perm
}

/// Whether `perm` lists each of the channels `0..channels` once.
pub fn is_channel_permutation(perm: &CVec<usize>, channels: usize) -> (r: bool)
    ensures
        r == is_permutation(indices(*perm), channels as nat),
{
    let ghost p = indices(*perm);
    if indices_len(perm) != channels {
        return false;
    }
    let mut seen: u16 = 0;
    let mut at: usize = 0;
    proof {
        assert forall|c: u16| c < 16 implies !has_bit(0u16, c) by {
            lemma_or_bit(0, 0, c);
        }
    }
    while at < channels
        invariant
            p == indices(*perm),
            at <= channels == p.len() <= 15,
            forall|i: int| 0 <= i < at ==> (#[trigger] p[i]) < channels,
            forall|i: int, j: int| 0 <= i < j < at ==> p[i] != p[j],
            forall|c: u16|
                c < 16 ==> (#[trigger] has_bit(seen, c) <==> exists|i: int|
                    0 <= i < at && p[i] == c),
        decreases channels - at,
    {
        let channel = indices_get(perm, at);
        if channel >= channels {
            return false;
        }
        let mask: u16 = 1u16 << channel;
        if seen & mask != 0 {
            proof {
                assert(has_bit(seen, channel as u16));
                let i = choose|i: int| 0 <= i < at && p[i] == channel as u16;
                assert(p[i] == p[at as int]);
            }
            return false;
        }
        let ghost before = seen;
        seen = seen | mask;
        proof {
            assert(!has_bit(before, channel as u16));
            assert forall|c: u16| c < 16 implies (#[trigger] has_bit(seen, c) <==> exists|i: int|
                0 <= i < at + 1 && p[i] == c) by {
                lemma_or_bit(before, channel as u16, c);
                if has_bit(before, c) {
                    let i = choose|i: int| 0 <= i < at && p[i] == c;
                    assert(0 <= i < at + 1 && p[i] == c);
                }
                if c == channel {
                    assert(p[at as int] == c);
                }
            }
            assert forall|i: int, j: int| 0 <= i < j < at + 1 implies p[i] != p[j] by {
                if j == at && p[i] == p[j] {
                    assert(0 <= i < at && p[i] == channel as u16);
                }
            }
        }
        at += 1;
    }
    true
}

} // verus!
