//! Subsumption of output sets under a permutation of the channels, and what
//! the abstractions of two output sets say about it.

use vstd::prelude::*;
use vstd::arithmetic::power2::pow2;
use crate::abstraction::{in_slot, slot_count, slot_index, block_at, channel_le_spec, lemma_block_bound};
use crate::bits::{has_bit, ones, ones_below, exchange_image, lemma_limit, lemma_differing_channel, lemma_exchange_bits, lemma_exchange_image, lemma_ones_of_small_value};
use crate::permutation::{is_permutation, identity_seq, permuted_value, lemma_permuted_bits, lemma_permutation_onto};
use crate::value_seq::{count_where, is_image_of_some, strictly_ascending, lemma_count_through, lemma_ascending_no_duplicates};

verus! {

/// Whether every value of `a` is a value of `b` with its channels rearranged
/// by `p`.
pub open spec fn subsumes_permuted(a: Seq<u16>, b: Seq<u16>, p: Seq<usize>) -> bool {
    forall|i: int|
        0 <= i < a.len() ==> is_image_of_some(#[trigger] a[i], b, |v: u16| permuted_value(v, p))
}

/// Whether, on `w` channels, `a` subsumes `b` under some permutation of the
/// channels.
pub open spec fn subsumes_under_permutation(a: Seq<u16>, b: Seq<u16>, w: nat) -> bool {
    exists|p: Seq<usize>| is_permutation(p, w) && #[trigger] subsumes_permuted(a, b, p)
}

/// Whether `counts` is the abstraction of the values `s` on `w` channels.
pub open spec fn is_abstraction_of(counts: Seq<u16>, s: Seq<u16>, w: nat) -> bool {
    &&& counts.len() == 2 * w * w
    &&& forall|c: nat, k: nat, one: bool|
        c < w && k < w ==> counts[#[trigger] slot_index(w, c, k, one) as int] == slot_count(
            s,
            c as u16,
            k,
            one,
        )
}

/// `p` with the channels `a` and `b` renamed into each other wherever they
/// occur.
pub open spec fn renamed(p: Seq<usize>, a: usize, b: usize) -> Seq<usize> {
    Seq::new(
        p.len(),
        |i: int|
            if p[i] == a {
                b
            } else if p[i] == b {
                a
            } else {
                p[i]
            },
    )
}

/// `p` with the entries at positions `a` and `b` exchanged.
pub open spec fn exchanged(p: Seq<usize>, a: int, b: int) -> Seq<usize> {
    p.update(a, p[b]).update(b, p[a])
}

/// First `q`, then `p`: position `i` holds `p[q[i]]`.
pub open spec fn composed(p: Seq<usize>, q: Seq<usize>) -> Seq<usize> {
    Seq::new(q.len(), |i: int| p[q[i] as int])
}

/// Whether the values of `q` are those of `start` with their channels
/// rearranged by `p`.
#[verifier::opaque]
pub open spec fn arranged(q: Seq<u16>, start: Seq<u16>, p: Seq<usize>) -> bool {
    &&& forall|i: int| 0 <= i < start.len() ==> q.contains(permuted_value(#[trigger] start[i], p))
    &&& forall|k: int|
        0 <= k < q.len() ==> is_image_of_some(#[trigger] q[k], start, |v: u16| permuted_value(v, p))
}

/// Two `w`-bit values that agree on every channel below `w` are equal.
pub proof fn lemma_equal_by_bits(x: u16, y: u16, w: u16)
    requires
        w <= 15,
        x < (1u16 << w),
        y < (1u16 << w),
        forall|i: u16| i < w ==> has_bit(x, i) == has_bit(y, i),
    ensures
        x == y,
{
    if x != y {
        lemma_differing_channel(x, y, w);
    }
}

/// The identity permutation leaves a `w`-bit value as it is.
pub proof fn lemma_permuted_by_identity(v: u16, w: u16)
    requires
        w <= 15,
        v < (1u16 << w),
    ensures
        permuted_value(v, identity_seq(w as nat)) == v,
        is_permutation(identity_seq(w as nat), w as nat),
{
    let p = identity_seq(w as nat);
    lemma_permuted_bits(v, p, 0);
    assert forall|i: u16| i < w implies has_bit(permuted_value(v, p), i) == has_bit(v, i) by {
        lemma_permuted_bits(v, p, i);
    }
    lemma_equal_by_bits(permuted_value(v, p), v, w);
}

/// Rearranging by `q` what was rearranged by `p` rearranges by `composed`.
pub proof fn lemma_permuted_twice(v: u16, p: Seq<usize>, q: Seq<usize>, w: u16)
    requires
        w <= 15,
        is_permutation(p, w as nat),
        is_permutation(q, w as nat),
    ensures
        permuted_value(permuted_value(v, p), q) == permuted_value(v, composed(p, q)),
        is_permutation(composed(p, q), w as nat),
{
    let pq = composed(p, q);
    let x = permuted_value(permuted_value(v, p), q);
    let y = permuted_value(v, pq);
    assert forall|i: int, j: int| 0 <= i < j < w implies pq[i] != pq[j] by {
        assert(q[i] != q[j]);
        let qi = q[i] as int;
        let qj = q[j] as int;
        if qi < qj {
            assert(p[qi] != p[qj]);
        } else {
            assert(p[qj] != p[qi]);
        }
    }
    lemma_permuted_bits(permuted_value(v, p), q, 0);
    lemma_permuted_bits(v, pq, 0);
    assert forall|i: u16| i < w implies has_bit(x, i) == has_bit(y, i) by {
        lemma_permuted_bits(permuted_value(v, p), q, i);
        lemma_permuted_bits(v, p, q[i as int] as u16);
        lemma_permuted_bits(v, pq, i);
    }
    lemma_equal_by_bits(x, y, w);
}

/// Exchanging two channels of what was rearranged by `p` rearranges by `p`
/// with the two entries exchanged.
pub proof fn lemma_permuted_then_exchanged(v: u16, p: Seq<usize>, a: usize, b: usize, w: u16)
    requires
        w <= 15,
        is_permutation(p, w as nat),
        a < w,
        b < w,
    ensures
        exchange_image(permuted_value(v, p), a as u16, b as u16) == permuted_value(
            v,
            exchanged(p, a as int, b as int),
        ),
        is_permutation(exchanged(p, a as int, b as int), w as nat),
{
    let e = exchanged(p, a as int, b as int);
    let x = exchange_image(permuted_value(v, p), a as u16, b as u16);
    let y = permuted_value(v, e);
    assert forall|i: int, j: int| 0 <= i < j < w implies e[i] != e[j] by {
        let fi = if i == a {
            b as int
        } else if i == b {
            a as int
        } else {
            i
        };
        let fj = if j == a {
            b as int
        } else if j == b {
            a as int
        } else {
            j
        };
        assert(e[i] == p[fi] && e[j] == p[fj]);
        if fi < fj {
            assert(p[fi] != p[fj]);
        } else {
            assert(p[fj] != p[fi]);
        }
    }
    lemma_permuted_bits(v, p, 0);
    lemma_permuted_bits(v, e, 0);
    lemma_limit(w);
    lemma_exchange_image(permuted_value(v, p), a as u16, b as u16, w);
    assert forall|i: u16| i < w implies has_bit(x, i) == has_bit(y, i) by {
        lemma_exchange_bits(permuted_value(v, p), a as u16, b as u16, i);
        let from = if i == a {
            b as u16
        } else if i == b {
            a as u16
        } else {
            i
        };
        lemma_permuted_bits(v, p, from);
        lemma_permuted_bits(v, e, i);
    }
    lemma_equal_by_bits(x, y, w);
}

/// Rearranging by `p` with two channels renamed what had the same two
/// channels exchanged is rearranging the value itself by `p`.
pub proof fn lemma_exchanged_then_permuted(v: u16, p: Seq<usize>, a: usize, b: usize, w: u16)
    requires
        w <= 15,
        is_permutation(p, w as nat),
        a < w,
        b < w,
    ensures
        permuted_value(exchange_image(v, a as u16, b as u16), renamed(p, a, b)) == permuted_value(
            v,
            p,
        ),
        is_permutation(renamed(p, a, b), w as nat),
{
    let r = renamed(p, a, b);
    let x = permuted_value(exchange_image(v, a as u16, b as u16), r);
    let y = permuted_value(v, p);
    assert forall|i: int, j: int| 0 <= i < j < w implies r[i] != r[j] by {
        assert(p[i] != p[j]);
    }
    lemma_permuted_bits(exchange_image(v, a as u16, b as u16), r, 0);
    lemma_permuted_bits(v, p, 0);
    assert forall|i: u16| i < w implies has_bit(x, i) == has_bit(y, i) by {
        lemma_permuted_bits(exchange_image(v, a as u16, b as u16), r, i);
        lemma_exchange_bits(v, a as u16, b as u16, r[i as int] as u16);
        lemma_permuted_bits(v, p, i);
    }
    lemma_equal_by_bits(x, y, w);
}

/// The channels below `n`, in order.
pub open spec fn channels_below(n: nat) -> Seq<u16> {
    Seq::new(n, |i: int| i as u16)
}

/// Counting the ones of a value channel by channel.
proof fn lemma_ones_as_count(v: u16, n: nat)
    requires
        n <= 16,
    ensures
        ones_below(v, n) == count_where(channels_below(n), |c: u16| has_bit(v, c)),
    decreases n,
{
    if n > 0 {
        lemma_ones_as_count(v, (n - 1) as nat);
        assert(channels_below(n).drop_last() =~= channels_below((n - 1) as nat));
    }
}

/// Counting the ones of a rearranged value entry by entry of the
/// permutation.
proof fn lemma_permuted_ones_as_count(v: u16, p: Seq<usize>, n: nat)
    requires
        p.len() <= 15,
        n <= p.len(),
        forall|k: int| 0 <= k < p.len() ==> (#[trigger] p[k]) < 16,
    ensures
        ones_below(permuted_value(v, p), n) == count_where(
            Seq::new(n, |i: int| p[i] as u16),
            |c: u16| has_bit(v, c),
        ),
    decreases n,
{
    if n > 0 {
        lemma_permuted_ones_as_count(v, p, (n - 1) as nat);
        lemma_permuted_bits(v, p, (n - 1) as u16);
        assert(Seq::new(n, |i: int| p[i] as u16).drop_last() =~= Seq::new(
            (n - 1) as nat,
            |i: int| p[i] as u16,
        ));
    }
}

/// Rearranging the channels of a `w`-bit value leaves its number of ones.
pub proof fn lemma_permuted_ones(v: u16, p: Seq<usize>, w: u16)
    requires
        w <= 15,
        is_permutation(p, w as nat),
        v < (1u16 << w),
    ensures
        ones(permuted_value(v, p)) == ones(v),
{
    let on = |c: u16| has_bit(v, c);
    let same = |c: u16| c;
    let listed = Seq::new(w as nat, |i: int| p[i] as u16);
    let all = channels_below(w as nat);
    lemma_permuted_bits(v, p, 0);
    lemma_ones_of_small_value(v, w, 16);
    lemma_ones_of_small_value(permuted_value(v, p), w, 16);
    lemma_ones_as_count(v, w as nat);
    lemma_permuted_ones_as_count(v, p, w as nat);
    assert(listed.no_duplicates());
    assert(all.no_duplicates());
    assert forall|i: int| 0 <= i < listed.len() implies is_image_of_some(
        #[trigger] listed[i],
        all,
        same,
    ) by {
        assert(listed[i] == same(all[p[i] as int]));
    }
    assert forall|i: int| 0 <= i < all.len() implies is_image_of_some(
        #[trigger] all[i],
        listed,
        same,
    ) by {
        lemma_permutation_onto(p, w as nat, i);
        let j = choose|j: int| 0 <= j < w && p[j] == i;
        assert(all[i] == same(listed[j]));
    }
    lemma_count_through(listed, all, same, on, on);
    lemma_count_through(all, listed, same, on, on);
}

/// If `a` subsumes `b` under the permutation `p`, then for every channel `c`
/// every count of the abstraction of `a` for `c` is at most the count of the
/// abstraction of `b` in the same place for `p[c]`.
pub proof fn lemma_subsumption_bounds_counts(
    a: Seq<u16>,
    a_counts: Seq<u16>,
    b: Seq<u16>,
    b_counts: Seq<u16>,
    p: Seq<usize>,
    w: u16,
    c: int,
)
    requires
        w <= 15,
        strictly_ascending(a),
        forall|j: int| 0 <= j < b.len() ==> (#[trigger] b[j]) < pow2(w as nat),
        is_abstraction_of(a_counts, a, w as nat),
        is_abstraction_of(b_counts, b, w as nat),
        is_permutation(p, w as nat),
        subsumes_permuted(a, b, p),
        0 <= c < w,
    ensures
        channel_le_spec(a_counts, c as nat, b_counts, p[c] as nat, w as nat),
{
    let wn = w as nat;
    let f = |v: u16| permuted_value(v, p);
    lemma_limit(w);
    lemma_ascending_no_duplicates(a);
    lemma_block_bound(wn, c as nat);
    lemma_block_bound(wn, p[c] as nat);
    assert forall|i: int| 0 <= i < 2 * wn implies #[trigger] block_at(a_counts, wn, c as nat, i)
        <= block_at(b_counts, wn, p[c] as nat, i) by {
        let k = (i / 2) as nat;
        let one = i % 2 == 1;
        let pa = |x: u16| in_slot(x, c as u16, k, one);
        let qb = |x: u16| in_slot(x, p[c] as u16, k, one);
        assert(2 * wn * (c as nat) + i == slot_index(wn, c as nat, k, one));
        assert(2 * wn * (p[c] as nat) + i == slot_index(wn, p[c] as nat, k, one));
        assert forall|j: int| 0 <= j < b.len() && pa(f(#[trigger] b[j])) implies qb(b[j]) by {
            lemma_permuted_bits(b[j], p, c as u16);
            lemma_permuted_ones(b[j], p, w);
        }

        lemma_count_through(a, b, f, pa, qb);
        assert(a_counts[slot_index(wn, c as nat, k, one) as int] == slot_count(
            a,
            c as u16,
            k,
            one,
        ));
        assert(b_counts[slot_index(wn, p[c] as nat, k, one) as int] == slot_count(
            b,
            p[c] as u16,
            k,
            one,
        ));
    }
}

/// Exchanging the counts for two channels in the abstraction of an output
/// set gives the abstraction of the output set with the two channels
/// exchanged.
pub proof fn lemma_exchanged_abstraction(
    counts: Seq<u16>,
    moved: Seq<u16>,
    s: Seq<u16>,
    out: Seq<u16>,
    a: usize,
    b: usize,
    w: nat,
)
    requires
        w <= 15,
        a < w,
        b < w,
        is_abstraction_of(counts, s, w),
        forall|j: int| 0 <= j < s.len() ==> (#[trigger] s[j]) < pow2(w),
        strictly_ascending(out),
        out.len() == s.len(),
        crate::value_seq::is_image(out, s, |v: u16| exchange_image(v, a as u16, b as u16)),
        moved.len() == counts.len(),
        forall|i: int|
            0 <= i < moved.len() ==> (#[trigger] moved[i]) == counts[crate::abstraction::exchanged_position(
                i,
                a as nat,
                b as nat,
                w,
            )],
    ensures
        is_abstraction_of(moved, out, w),
{
    let f = |v: u16| exchange_image(v, a as u16, b as u16);
    lemma_limit(w as u16);
    lemma_ascending_no_duplicates(out);
    assert forall|i: int| 0 <= i < out.len() implies is_image_of_some(#[trigger] out[i], s, f) by {
        let j = choose|j: int| 0 <= j < s.len() && f(s[j]) == out[i];
        assert(out[i] == f(s[j]));
    }
    assert forall|c: nat, k: nat, one: bool| c < w && k < w implies moved[#[trigger] slot_index(
        w,
        c,
        k,
        one,
    ) as int] == slot_count(out, c as u16, k, one) by {
        let from: nat = if c == a {
            b as nat
        } else if c == b {
            a as nat
        } else {
            c
        };
        let at = slot_index(w, c, k, one) as int;
        lemma_block_bound(w, c);
        lemma_block_bound(w, from);
        lemma_block_bound(w, a as nat);
        lemma_block_bound(w, b as nat);
        if c != a {
            if c < a {
                crate::abstraction::lemma_block_order(w, c, a as nat);
            } else {
                crate::abstraction::lemma_block_order(w, a as nat, c);
            }
        }
        if c != b {
            if c < b {
                crate::abstraction::lemma_block_order(w, c, b as nat);
            } else {
                crate::abstraction::lemma_block_order(w, b as nat, c);
            }
        }
        assert(crate::abstraction::exchanged_position(at, a as nat, b as nat, w) == slot_index(
            w,
            from,
            k,
            one,
        ));
        assert(counts[slot_index(w, from, k, one) as int] == slot_count(s, from as u16, k, one));
        assert forall|j: int| 0 <= j < s.len() implies in_slot(f(#[trigger] s[j]), c as u16, k, one)
            == in_slot(s[j], from as u16, k, one) by {
            lemma_exchange_bits(s[j], a as u16, b as u16, c as u16);
            crate::solution::lemma_exchange_ones(s[j], a as u16, b as u16, w as u16);
        }
        crate::value_seq::lemma_count_matched(
            out,
            s,
            f,
            |x: u16| in_slot(x, c as u16, k, one),
            |x: u16| in_slot(x, from as u16, k, one),
        );
    }
}

/// An output set is itself with its channels rearranged by the identity.
pub proof fn lemma_arranged_by_identity(q: Seq<u16>, w: u16)
    requires
        w <= 15,
        forall|k: int| 0 <= k < q.len() ==> (#[trigger] q[k]) < pow2(w as nat),
    ensures
        arranged(q, q, identity_seq(w as nat)),
{
    reveal(arranged);
    lemma_limit(w);
    let id = identity_seq(w as nat);
    assert forall|i: int| 0 <= i < q.len() implies q.contains(permuted_value(#[trigger] q[i], id))
        && is_image_of_some(q[i], q, |v: u16| permuted_value(v, id)) by {
        lemma_permuted_by_identity(q[i], w);
    }
}

/// With two channels exchanged in values that are rearranged by `p`, the
/// values are rearranged by `p` with the two entries exchanged.
pub proof fn lemma_arranged_exchanged(
    start: Seq<u16>,
    q: Seq<u16>,
    after: Seq<u16>,
    p: Seq<usize>,
    a: usize,
    b: usize,
    w: u16,
)
    requires
        w <= 15,
        a < w,
        b < w,
        is_permutation(p, w as nat),
        arranged(q, start, p),
        crate::value_seq::is_image(after, q, |v: u16| exchange_image(v, a as u16, b as u16)),
    ensures
        arranged(after, start, exchanged(p, a as int, b as int)),
{
    reveal(arranged);
    let e = exchanged(p, a as int, b as int);
    let f = |v: u16| exchange_image(v, a as u16, b as u16);
    assert forall|i: int| 0 <= i < start.len() implies after.contains(
        permuted_value(#[trigger] start[i], e),
    ) by {
        let x = permuted_value(start[i], p);
        let k = choose|k: int| 0 <= k < q.len() && q[k] == x;
        assert(after.contains(f(q[k])));
        lemma_permuted_then_exchanged(start[i], p, a, b, w);
    }
    assert forall|k: int| 0 <= k < after.len() implies is_image_of_some(
        #[trigger] after[k],
        start,
        |v: u16| permuted_value(v, e),
    ) by {
        let j = choose|j: int| 0 <= j < q.len() && f(q[j]) == after[k];
        assert(is_image_of_some(q[j], start, |v: u16| permuted_value(v, p)));
        let i = choose|i: int| 0 <= i < start.len() && q[j] == permuted_value(#[trigger] start[i], p);
        lemma_permuted_then_exchanged(start[i], p, a, b, w);
        assert(after[k] == permuted_value(start[i], e));
    }
}

/// An output set whose values are all among values that are rearranged by
/// `p` subsumes under `p` what was rearranged.
pub proof fn lemma_arranged_subsumes(n: Seq<u16>, q: Seq<u16>, start: Seq<u16>, p: Seq<usize>)
    requires
        crate::value_seq::is_subset(n, q),
        arranged(q, start, p),
    ensures
        subsumes_permuted(n, start, p),
{
    reveal(arranged);
    assert forall|i: int| 0 <= i < n.len() implies is_image_of_some(
        #[trigger] n[i],
        start,
        |v: u16| permuted_value(v, p),
    ) by {
        assert(q.contains(n[i]));
        let k = choose|k: int| 0 <= k < q.len() && q[k] == n[i];
        assert(is_image_of_some(q[k], start, |v: u16| permuted_value(v, p)));
    }
}

} // verus!
