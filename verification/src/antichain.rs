//! Lists of output sets none of which subsumes another under a permutation
//! of the channels.

use vstd::prelude::*;
use crate::output_set::is_value_seq;
use crate::permutation::{is_permutation, permuted_value};
use crate::solution::lemma_subsumes_by_identity;
use crate::subsumption::{subsumes_permuted, subsumes_under_permutation, composed, lemma_permuted_twice};
use crate::value_seq::{is_image_of_some, is_subset};

verus! {

/// Whether every set of `a` is a set of `b`.
#[verifier::opaque]
pub open spec fn all_among(a: Seq<Seq<u16>>, b: Seq<Seq<u16>>) -> bool {
    forall|i: int| 0 <= i < a.len() ==> b.contains(#[trigger] a[i])
}

/// Whether every set of `v` is the values of an output set on `w` channels.
pub open spec fn all_value_seqs(v: Seq<Seq<u16>>, w: nat) -> bool {
    forall|i: int| 0 <= i < v.len() ==> is_value_seq(#[trigger] v[i], w)
}

/// Whether some set of `v` subsumes `q` under a permutation of the
/// channels.
pub open spec fn some_subsumes(v: Seq<Seq<u16>>, q: Seq<u16>, w: nat) -> bool {
    exists|i: int| 0 <= i < v.len() && subsumes_under_permutation(#[trigger] v[i], q, w)
}

/// Whether no set of `v` subsumes another under a permutation of the
/// channels.
pub open spec fn is_antichain(v: Seq<Seq<u16>>, w: nat) -> bool {
    forall|i: int, j: int|
        0 <= i < v.len() && 0 <= j < v.len() && i != j ==> !subsumes_under_permutation(
            #[trigger] v[i],
            #[trigger] v[j],
            w,
        )
}

/// The test for a set that no set of `v` subsumes.
pub open spec fn not_subsumed_by(v: Seq<Seq<u16>>, w: nat) -> spec_fn(Seq<u16>) -> bool {
    |q: Seq<u16>| !some_subsumes(v, q, w)
}

/// Whether no set of `b` is subsumed by a set of `a` under a permutation of
/// the channels.
pub open spec fn none_subsumed(a: Seq<Seq<u16>>, b: Seq<Seq<u16>>, w: nat) -> bool {
    forall|k: int| 0 <= k < b.len() ==> !some_subsumes(a, #[trigger] b[k], w)
}

/// Whether every set of `b` is subsumed by a set of `a` under a permutation
/// of the channels.
#[verifier::opaque]
pub open spec fn covers(a: Seq<Seq<u16>>, b: Seq<Seq<u16>>, w: nat) -> bool {
    forall|i: int| 0 <= i < b.len() ==> some_subsumes(a, #[trigger] b[i], w)
}

/// What covers a list covers what the list covers.
pub proof fn lemma_covers_transitive(a: Seq<Seq<u16>>, b: Seq<Seq<u16>>, c: Seq<Seq<u16>>, w: nat)
    requires
        w <= 15,
        covers(a, b, w),
        covers(b, c, w),
    ensures
        covers(a, c, w),
{
    reveal(covers);
    assert forall|i: int| 0 <= i < c.len() implies some_subsumes(a, #[trigger] c[i], w) by {
        let j = choose|j: int| 0 <= j < b.len() && subsumes_under_permutation(#[trigger] b[j], c[i], w);
        assert(some_subsumes(a, b[j], w));
        lemma_some_subsumes_through(a, b[j], c[i], w);
    }
}

/// What covers a list is covered by every list that holds its sets.
pub proof fn lemma_covers_among(a: Seq<Seq<u16>>, b: Seq<Seq<u16>>, c: Seq<Seq<u16>>, w: nat)
    requires
        covers(a, c, w),
        all_among(a, b),
    ensures
        covers(b, c, w),
{
    reveal(covers);
    assert forall|i: int| 0 <= i < c.len() implies some_subsumes(b, #[trigger] c[i], w) by {
        lemma_some_subsumes_among(a, b, c[i], w);
    }
}

/// What covers two lists covers them joined.
pub proof fn lemma_covers_both(a: Seq<Seq<u16>>, b: Seq<Seq<u16>>, c: Seq<Seq<u16>>, w: nat)
    requires
        covers(a, b, w),
        covers(a, c, w),
    ensures
        covers(a, b + c, w),
{
    reveal(covers);
    assert forall|i: int| 0 <= i < (b + c).len() implies some_subsumes(
        a,
        #[trigger] (b + c)[i],
        w,
    ) by {
        if i < b.len() {
            assert((b + c)[i] == b[i]);
        } else {
            assert((b + c)[i] == c[i - b.len()]);
        }
    }
}

/// The sets of two lists that are among those of a third are among them
/// when joined.
pub proof fn lemma_among_both(a: Seq<Seq<u16>>, b: Seq<Seq<u16>>, c: Seq<Seq<u16>>)
    requires
        all_among(a, c),
        all_among(b, c),
    ensures
        all_among(a + b, c),
{
    reveal(all_among);
    assert forall|i: int| 0 <= i < (a + b).len() implies c.contains(#[trigger] (a + b)[i]) by {
        if i < a.len() {
            assert((a + b)[i] == a[i]);
        } else {
            assert((a + b)[i] == b[i - a.len()]);
        }
    }
}

/// The sets of a list are among those of the list with more before or
/// behind.
pub proof fn lemma_among_part(a: Seq<Seq<u16>>, b: Seq<Seq<u16>>)
    ensures
        all_among(a, a + b),
        all_among(b, a + b),
        all_among(a, a),
{
    reveal(all_among);
    assert forall|i: int| 0 <= i < a.len() implies (a + b).contains(#[trigger] a[i]) by {
        assert((a + b)[i] == a[i]);
    }
    assert forall|i: int| 0 <= i < b.len() implies (a + b).contains(#[trigger] b[i]) by {
        assert((a + b)[a.len() + i] == b[i]);
    }
    assert forall|i: int| 0 <= i < a.len() implies a.contains(#[trigger] a[i]) by {}
}

/// Sets among sets that are among others are among those.
pub proof fn lemma_among_transitive(a: Seq<Seq<u16>>, b: Seq<Seq<u16>>, c: Seq<Seq<u16>>)
    requires
        all_among(a, b),
        all_among(b, c),
    ensures
        all_among(a, c),
{
    reveal(all_among);
    assert forall|i: int| 0 <= i < a.len() implies c.contains(#[trigger] a[i]) by {
        assert(b.contains(a[i]));
        let j = choose|j: int| 0 <= j < b.len() && b[j] == a[i];
        assert(c.contains(b[j]));
    }
}

/// What subsumes no set of two lists subsumes no set among theirs.
pub proof fn lemma_none_subsumed_among(
    a: Seq<Seq<u16>>,
    b: Seq<Seq<u16>>,
    c: Seq<Seq<u16>>,
    d: Seq<Seq<u16>>,
    w: nat,
)
    requires
        none_subsumed(a, b, w),
        none_subsumed(a, c, w),
        all_among(d, b + c),
    ensures
        none_subsumed(a, d, w),
{
    reveal(all_among);
    assert forall|k: int| 0 <= k < d.len() implies !some_subsumes(a, #[trigger] d[k], w) by {
        assert((b + c).contains(d[k]));
        let l = choose|l: int| 0 <= l < (b + c).len() && (b + c)[l] == d[k];
        if l < b.len() {
            assert(b[l] == d[k]);
        } else {
            assert(c[l - b.len()] == d[k]);
        }
    }
}

/// Behind a list that covers itself, sets among those of another list that
/// cover it make a list among, and covering, the two lists joined.
pub proof fn lemma_joined(base: Seq<Seq<u16>>, a: Seq<Seq<u16>>, b: Seq<Seq<u16>>, w: nat)
    requires
        covers(base, base, w),
        all_among(a, b),
        covers(a, b, w),
    ensures
        all_among(base + a, base + b),
        covers(base + a, base + b, w),
{
    reveal(all_among);
    reveal(covers);
    let x = base + a;
    let y = base + b;
    assert forall|i: int| 0 <= i < x.len() implies y.contains(#[trigger] x[i]) by {
        if i < base.len() {
            assert(y[i] == x[i]);
        } else {
            assert(b.contains(a[i - base.len()]));
            let l = choose|l: int| 0 <= l < b.len() && b[l] == x[i];
            assert(y[base.len() + l] == x[i]);
        }
    }
    assert forall|i: int| 0 <= i < y.len() implies some_subsumes(x, #[trigger] y[i], w) by {
        if i < base.len() {
            assert(some_subsumes(base, base[i], w));
            let l = choose|l: int|
                0 <= l < base.len() && subsumes_under_permutation(#[trigger] base[l], y[i], w);
            assert(x[l] == base[l]);
        } else {
            assert(some_subsumes(a, b[i - base.len()], w));
            let l = choose|l: int|
                0 <= l < a.len() && subsumes_under_permutation(#[trigger] a[l], y[i], w);
            assert(x[base.len() + l] == a[l]);
        }
    }
}

/// Every list covers the list without a set.
pub proof fn lemma_covers_nothing(a: Seq<Seq<u16>>, w: nat)
    ensures
        covers(a, Seq::empty(), w),
        all_among(Seq::empty(), a),
{
    reveal(covers);
    reveal(all_among);
}

/// With one more output set at the end of both, a list still holds only sets
/// of the other and still covers it.
pub proof fn lemma_pushed(a: Seq<Seq<u16>>, g: Seq<Seq<u16>>, x: Seq<u16>, w: nat)
    requires
        w <= 15,
        is_value_seq(x, w),
        all_among(a, g),
        covers(a, g, w),
    ensures
        all_among(a.push(x), g.push(x)),
        covers(a.push(x), g.push(x), w),
{
    reveal(all_among);
    reveal(covers);
    let ax = a.push(x);
    let gx = g.push(x);
    assert forall|i: int| 0 <= i < ax.len() implies gx.contains(#[trigger] ax[i]) by {
        if i < a.len() {
            assert(g.contains(a[i]));
            let k = choose|k: int| 0 <= k < g.len() && g[k] == a[i];
            assert(gx[k] == ax[i]);
        } else {
            assert(gx[g.len() as int] == x);
        }
    }
    assert forall|i: int| 0 <= i < gx.len() implies some_subsumes(ax, #[trigger] gx[i], w) by {
        if i < g.len() {
            assert(some_subsumes(a, g[i], w));
            let k = choose|k: int|
                0 <= k < a.len() && subsumes_under_permutation(#[trigger] a[k], g[i], w);
            assert(subsumes_under_permutation(ax[k], gx[i], w));
        } else {
            lemma_subsumption_reflexive(x, w);
            assert(subsumes_under_permutation(ax[a.len() as int], gx[i], w));
        }
    }
}

/// A list of output sets covers itself.
pub proof fn lemma_covers_reflexive(a: Seq<Seq<u16>>, w: nat)
    requires
        w <= 15,
        all_value_seqs(a, w),
    ensures
        covers(a, a, w),
{
    reveal(covers);
    assert forall|i: int| 0 <= i < a.len() implies some_subsumes(a, #[trigger] a[i], w) by {
        lemma_subsumption_reflexive(a[i], w);
    }
}

/// Every output set subsumes itself.
pub proof fn lemma_subsumption_reflexive(a: Seq<u16>, w: nat)
    requires
        w <= 15,
        is_value_seq(a, w),
    ensures
        subsumes_under_permutation(a, a, w),
{
    assert(is_subset(a, a)) by {
        assert forall|i: int| 0 <= i < a.len() implies a.contains(#[trigger] a[i]) by {}
    }
    lemma_subsumes_by_identity(a, a, w as u16);
}

/// If `a` subsumes `b` and `b` subsumes `c`, each under a permutation, then
/// `a` subsumes `c` under a permutation.
pub proof fn lemma_subsumption_transitive(a: Seq<u16>, b: Seq<u16>, c: Seq<u16>, w: nat)
    requires
        w <= 15,
        subsumes_under_permutation(a, b, w),
        subsumes_under_permutation(b, c, w),
    ensures
        subsumes_under_permutation(a, c, w),
{
    let p = choose|p: Seq<usize>| is_permutation(p, w) && #[trigger] subsumes_permuted(a, b, p);
    let q = choose|q: Seq<usize>| is_permutation(q, w) && #[trigger] subsumes_permuted(b, c, q);
    let r = composed(q, p);
    lemma_permuted_twice(0, q, p, w as u16);
    assert forall|i: int| 0 <= i < a.len() implies is_image_of_some(
        #[trigger] a[i],
        c,
        |v: u16| permuted_value(v, r),
    ) by {
        assert(is_image_of_some(a[i], b, |v: u16| permuted_value(v, p)));
        let j = choose|j: int| 0 <= j < b.len() && a[i] == permuted_value(#[trigger] b[j], p);
        assert(is_image_of_some(b[j], c, |v: u16| permuted_value(v, q)));
        let k = choose|k: int| 0 <= k < c.len() && b[j] == permuted_value(#[trigger] c[k], q);
        lemma_permuted_twice(c[k], q, p, w as u16);
        assert(a[i] == permuted_value(c[k], r));
    }
    assert(subsumes_permuted(a, c, r));
}

/// What subsumes a set subsumes what that set subsumes.
pub proof fn lemma_some_subsumes_through(v: Seq<Seq<u16>>, x: Seq<u16>, y: Seq<u16>, w: nat)
    requires
        w <= 15,
        some_subsumes(v, x, w),
        subsumes_under_permutation(x, y, w),
    ensures
        some_subsumes(v, y, w),
{
    let i = choose|i: int| 0 <= i < v.len() && subsumes_under_permutation(#[trigger] v[i], x, w);
    lemma_subsumption_transitive(v[i], x, y, w);
}

/// What a set of `a` subsumes, a set of `b` subsumes, if the sets of `a`
/// are among those of `b`.
pub proof fn lemma_some_subsumes_among(a: Seq<Seq<u16>>, b: Seq<Seq<u16>>, x: Seq<u16>, w: nat)
    requires
        all_among(a, b),
        some_subsumes(a, x, w),
    ensures
        some_subsumes(b, x, w),
{
    reveal(all_among);
    let i = choose|i: int| 0 <= i < a.len() && subsumes_under_permutation(#[trigger] a[i], x, w);
    assert(b.contains(a[i]));
    let j = choose|j: int| 0 <= j < b.len() && b[j] == a[i];
    assert(subsumes_under_permutation(b[j], x, w));
}

/// A list that holds the sets of an antichain and no others, and is no
/// longer, is an antichain of the same length.
pub proof fn lemma_antichain_rebuilt(items: Seq<Seq<u16>>, built: Seq<Seq<u16>>, w: nat)
    requires
        w <= 15,
        is_antichain(items, w),
        all_value_seqs(items, w),
        all_among(items, built),
        all_among(built, items),
        built.len() <= items.len(),
    ensures
        is_antichain(built, w),
        built.len() == items.len(),
{
    reveal(all_among);
    assert forall|i: int, j: int| 0 <= i < items.len() && 0 <= j < items.len() && i
        != j implies items[i] != items[j] by {
        lemma_subsumption_reflexive(items[i], w);
    }
    assert(items.no_duplicates());
    items.unique_seq_to_set();
    assert(items.to_set() =~= built.to_set()) by {
        assert forall|x: Seq<u16>| items.to_set().contains(x) == built.to_set().contains(x) by {
            if items.contains(x) {
                let i = choose|i: int| 0 <= i < items.len() && items[i] == x;
                assert(built.contains(items[i]));
            }
            if built.contains(x) {
                let i = choose|i: int| 0 <= i < built.len() && built[i] == x;
                assert(items.contains(built[i]));
            }
        }
    }
    built.lemma_cardinality_of_set();
    built.lemma_no_dup_set_cardinality();
    assert forall|i: int, j: int|
        0 <= i < built.len() && 0 <= j < built.len() && i != j implies !subsumes_under_permutation(
        #[trigger] built[i],
        #[trigger] built[j],
        w,
    ) by {
        assert(items.contains(built[i]));
        assert(items.contains(built[j]));
        let k = choose|k: int| 0 <= k < items.len() && items[k] == built[i];
        let l = choose|l: int| 0 <= l < items.len() && items[l] == built[j];
        assert(built[i] != built[j]);
    }
}

/// Filtering the list with one more set at its end filters the list and
/// keeps the set if it passes.
pub proof fn lemma_filter_push(v: Seq<Seq<u16>>, x: Seq<u16>, keep: spec_fn(Seq<u16>) -> bool)
    ensures
        v.push(x).filter(keep) == if keep(x) {
            v.filter(keep).push(x)
        } else {
            v.filter(keep)
        },
        Seq::<Seq<u16>>::empty().filter(keep) == Seq::<Seq<u16>>::empty(),
{
    reveal(Seq::filter);
    assert(v.push(x).drop_last() =~= v);
}

/// What filtering keeps: sets of the list that pass, all of them, and no
/// more than the list has.
pub proof fn lemma_filter_facts(v: Seq<Seq<u16>>, keep: spec_fn(Seq<u16>) -> bool)
    ensures
        v.filter(keep).len() <= v.len(),
        all_among(v.filter(keep), v),
        forall|i: int| 0 <= i < v.filter(keep).len() ==> v.contains(#[trigger] v.filter(keep)[i]),
        forall|i: int| 0 <= i < v.filter(keep).len() ==> keep(#[trigger] v.filter(keep)[i]),
        forall|i: int| 0 <= i < v.len() && keep(#[trigger] v[i]) ==> v.filter(keep).contains(v[i]),
    decreases v.len(),
{
    reveal(all_among);
    reveal(Seq::filter);
    if v.len() > 0 {
        let rest = v.drop_last();
        let kept = rest.filter(keep);
        lemma_filter_facts(rest, keep);
        assert forall|i: int| 0 <= i < v.filter(keep).len() implies v.contains(
            #[trigger] v.filter(keep)[i],
        ) && keep(v.filter(keep)[i]) by {
            if i < kept.len() {
                assert(rest.contains(kept[i]));
                let j = choose|j: int| 0 <= j < rest.len() && rest[j] == kept[i];
                assert(v[j] == kept[i]);
            } else {
                assert(v[v.len() - 1] == v.filter(keep)[i]);
            }
        }
        assert forall|i: int| 0 <= i < v.len() && keep(#[trigger] v[i]) implies v.filter(
            keep,
        ).contains(v[i]) by {
            if i < rest.len() {
                assert(rest[i] == v[i]);
                assert(kept.contains(rest[i]));
                let j = choose|j: int| 0 <= j < kept.len() && kept[j] == v[i];
                assert(v.filter(keep)[j] == v[i]);
            } else {
                assert(v.filter(keep)[kept.len() as int] == v[i]);
            }
        }
    }
}

/// What is left of an antichain after filtering is an antichain.
pub proof fn lemma_antichain_filter(v: Seq<Seq<u16>>, keep: spec_fn(Seq<u16>) -> bool, w: nat)
    requires
        is_antichain(v, w),
    ensures
        is_antichain(v.filter(keep), w),
    decreases v.len(),
{
    reveal(Seq::filter);
    if v.len() > 0 {
        let rest = v.drop_last();
        let kept = rest.filter(keep);
        assert(is_antichain(rest, w)) by {
            assert forall|i: int, j: int|
                0 <= i < rest.len() && 0 <= j < rest.len() && i
                    != j implies !subsumes_under_permutation(
                #[trigger] rest[i],
                #[trigger] rest[j],
                w,
            ) by {
                assert(rest[i] == v[i] && rest[j] == v[j]);
            }
        }
        lemma_antichain_filter(rest, keep, w);
        lemma_filter_facts(rest, keep);
        if keep(v.last()) {
            let out = kept.push(v.last());
            assert forall|i: int, j: int|
                0 <= i < out.len() && 0 <= j < out.len() && i
                    != j implies !subsumes_under_permutation(
                #[trigger] out[i],
                #[trigger] out[j],
                w,
            ) by {
                let last = v.len() - 1;
                if i < kept.len() && j < kept.len() {
                    assert(out[i] == kept[i] && out[j] == kept[j]);
                } else if i < kept.len() {
                    assert(rest.contains(kept[i]));
                    let k = choose|k: int| 0 <= k < rest.len() && rest[k] == kept[i];
                    assert(v[k] == out[i] && v[last] == out[j]);
                } else {
                    assert(rest.contains(kept[j]));
                    let k = choose|k: int| 0 <= k < rest.len() && rest[k] == kept[j];
                    assert(v[k] == out[j] && v[last] == out[i]);
                }
            }
        }
    }
}

/// Two antichains no set of which subsumes a set of the other make an
/// antichain together.
pub proof fn lemma_antichain_concat(a: Seq<Seq<u16>>, b: Seq<Seq<u16>>, w: nat)
    requires
        is_antichain(a, w),
        is_antichain(b, w),
        none_subsumed(b, a, w),
        none_subsumed(a, b, w),
    ensures
        is_antichain(a + b, w),
{
    let v = a + b;
    assert forall|i: int, j: int|
        0 <= i < v.len() && 0 <= j < v.len() && i != j implies !subsumes_under_permutation(
        #[trigger] v[i],
        #[trigger] v[j],
        w,
    ) by {
        if i < a.len() && j < a.len() {
            assert(v[i] == a[i] && v[j] == a[j]);
        } else if i >= a.len() && j >= a.len() {
            assert(v[i] == b[i - a.len()] && v[j] == b[j - a.len()]);
        } else if i < a.len() {
            assert(v[i] == a[i] && v[j] == b[j - a.len()]);
            assert(!some_subsumes(a, b[j - a.len()], w));
        } else {
            assert(v[i] == b[i - a.len()] && v[j] == a[j]);
            assert(!some_subsumes(b, a[j], w));
        }
    }
}

/// Sets among output sets are output sets.
pub proof fn lemma_value_seqs_among(a: Seq<Seq<u16>>, b: Seq<Seq<u16>>, w: nat)
    requires
        all_among(a, b),
        all_value_seqs(b, w),
    ensures
        all_value_seqs(a, w),
{
    reveal(all_among);
    assert forall|i: int| 0 <= i < a.len() implies is_value_seq(#[trigger] a[i], w) by {
        assert(b.contains(a[i]));
        let j = choose|j: int| 0 <= j < b.len() && b[j] == a[i];
        assert(is_value_seq(b[j], w));
    }
}

/// What covers a list and subsumes one more set covers the list with that
/// set at its end.
pub proof fn lemma_covers_push(a: Seq<Seq<u16>>, b: Seq<Seq<u16>>, x: Seq<u16>, w: nat)
    requires
        covers(a, b, w),
        some_subsumes(a, x, w),
    ensures
        covers(a, b.push(x), w),
{
    reveal(covers);
    assert forall|i: int| 0 <= i < b.push(x).len() implies some_subsumes(
        a,
        #[trigger] b.push(x)[i],
        w,
    ) by {
        if i < b.len() {
            assert(b.push(x)[i] == b[i]);
        }
    }
}

/// What the first round leaves covers what the round brought.
pub proof fn lemma_first_round(
    given: Seq<Seq<u16>>,
    fresh: Seq<Seq<u16>>,
    least: Seq<Seq<u16>>,
    merged: Seq<Seq<u16>>,
    w: nat,
)
    requires
        w <= 15,
        all_value_seqs(least, w),
        all_among(given, fresh),
        covers(least, fresh, w),
        all_among(least, merged),
    ensures
        covers(merged, given, w),
{
    reveal(all_among);
    reveal(covers);
    lemma_covers_reflexive(least, w);
    lemma_covers_among(least, merged, least, w);
    lemma_covers_among(least, merged, fresh, w);
    assert forall|i: int| 0 <= i < given.len() implies some_subsumes(
        merged,
        #[trigger] given[i],
        w,
    ) by {
        assert(fresh.contains(given[i]));
        let j = choose|j: int| 0 <= j < fresh.len() && fresh[j] == given[i];
        assert(some_subsumes(merged, fresh[j], w));
    }
}

/// The accepted sets that no set brought by a round subsumes, and the sets
/// of the round that no other set of the round subsumes, make an antichain
/// together.
pub proof fn lemma_round_antichain(
    held: Seq<Seq<u16>>,
    given: Seq<Seq<u16>>,
    fresh: Seq<Seq<u16>>,
    least: Seq<Seq<u16>>,
    w: nat,
)
    requires
        is_antichain(held, w),
        none_subsumed(held, given, w),
        all_among(fresh, given),
        is_antichain(least, w),
        all_among(least, fresh),
    ensures
        is_antichain(held.filter(not_subsumed_by(fresh, w)) + least, w),
{
    reveal(all_among);
    let keep = not_subsumed_by(fresh, w);
    let kept = held.filter(keep);
    lemma_filter_facts(held, keep);
    lemma_antichain_filter(held, keep, w);
    lemma_among_transitive(least, fresh, given);
    assert(none_subsumed(least, kept, w)) by {
        assert forall|k: int| 0 <= k < kept.len() implies !some_subsumes(
            least,
            #[trigger] kept[k],
            w,
        ) by {
            assert(keep(kept[k]));
            if some_subsumes(least, kept[k], w) {
                lemma_some_subsumes_among(least, fresh, kept[k], w);
            }
        }
    }
    assert(none_subsumed(kept, least, w)) by {
        assert forall|k: int| 0 <= k < least.len() implies !some_subsumes(
            kept,
            #[trigger] least[k],
            w,
        ) by {
            assert(given.contains(least[k]));
            let g = choose|g: int| 0 <= g < given.len() && given[g] == least[k];
            assert(!some_subsumes(held, given[g], w));
            if some_subsumes(kept, least[k], w) {
                lemma_some_subsumes_among(kept, held, least[k], w);
            }
        }
    }
    lemma_antichain_concat(kept, least, w);
}

/// The accepted sets that no set brought by a round subsumes, and sets that
/// cover the round, cover the accepted sets and the round.
pub proof fn lemma_round_covers(
    held: Seq<Seq<u16>>,
    given: Seq<Seq<u16>>,
    fresh: Seq<Seq<u16>>,
    least: Seq<Seq<u16>>,
    w: nat,
)
    requires
        w <= 15,
        all_value_seqs(held, w),
        all_among(given, fresh),
        covers(least, fresh, w),
    ensures
        covers(held.filter(not_subsumed_by(fresh, w)) + least, held + given, w),
{
    reveal(all_among);
    reveal(covers);
    let keep = not_subsumed_by(fresh, w);
    let kept = held.filter(keep);
    let both = kept + least;
    lemma_filter_facts(held, keep);
    lemma_among_part(kept, least);
    lemma_covers_among(least, both, fresh, w);
    assert(covers(both, given, w)) by {
        assert forall|i: int| 0 <= i < given.len() implies some_subsumes(
            both,
            #[trigger] given[i],
            w,
        ) by {
            assert(fresh.contains(given[i]));
            let j = choose|j: int| 0 <= j < fresh.len() && fresh[j] == given[i];
            assert(some_subsumes(both, fresh[j], w));
        }
    }
    assert(covers(both, held, w)) by {
        assert forall|i: int| 0 <= i < held.len() implies some_subsumes(
            both,
            #[trigger] held[i],
            w,
        ) by {
            let x = held[i];
            if keep(x) {
                assert(kept.contains(held[i]));
                let l = choose|l: int| 0 <= l < kept.len() && kept[l] == x;
                assert(both[l] == x);
                assert(is_value_seq(held[i], w));
                lemma_subsumption_reflexive(x, w);
            } else {
                let f = choose|f: int|
                    0 <= f < fresh.len() && subsumes_under_permutation(#[trigger] fresh[f], x, w);
                assert(some_subsumes(both, fresh[f], w));
                lemma_some_subsumes_through(both, fresh[f], x, w);
            }
        }
    }
    lemma_covers_both(both, held, given, w);
}

/// What a later round leaves: with the sets `kept` of the accepted ones
/// `held` that no set brought by the round subsumes, and the sets `least`
/// of the round that no other set of the round subsumes, in one list
/// `merged`, no set of the list subsumes another, every set of the list was
/// held or brought, and every set that was held or brought is subsumed by
/// one of the list.
pub proof fn lemma_round_merged(
    held: Seq<Seq<u16>>,
    given: Seq<Seq<u16>>,
    fresh: Seq<Seq<u16>>,
    kept: Seq<Seq<u16>>,
    least: Seq<Seq<u16>>,
    merged: Seq<Seq<u16>>,
    w: nat,
)
    requires
        w <= 15,
        all_value_seqs(held, w),
        all_value_seqs(given, w),
        is_antichain(held, w),
        none_subsumed(held, given, w),
        all_among(given, fresh),
        all_among(fresh, given),
        kept == held.filter(not_subsumed_by(fresh, w)),
        is_antichain(least, w),
        all_among(least, fresh),
        covers(least, fresh, w),
        all_among(merged, kept + least),
        all_among(kept + least, merged),
        merged.len() <= (kept + least).len(),
    ensures
        is_antichain(merged, w),
        all_among(merged, held + given),
        covers(merged, held + given, w),
{
    let both = kept + least;
    lemma_round_antichain(held, given, fresh, least, w);
    lemma_round_covers(held, given, fresh, least, w);
    lemma_round_among(held, given, fresh, least, w);
    lemma_value_seqs_both(held, given, w);
    lemma_value_seqs_among(both, held + given, w);
    lemma_antichain_rebuilt(both, merged, w);
    lemma_among_transitive(merged, both, held + given);
    lemma_covers_reflexive(both, w);
    lemma_covers_among(both, merged, both, w);
    lemma_covers_transitive(merged, both, held + given, w);
}

/// Two lists of output sets make a list of output sets.
pub proof fn lemma_value_seqs_both(a: Seq<Seq<u16>>, b: Seq<Seq<u16>>, w: nat)
    requires
        all_value_seqs(a, w),
        all_value_seqs(b, w),
    ensures
        all_value_seqs(a + b, w),
{
    assert forall|i: int| 0 <= i < (a + b).len() implies is_value_seq(#[trigger] (a + b)[i], w) by {
        if i < a.len() {
            assert((a + b)[i] == a[i]);
        } else {
            assert((a + b)[i] == b[i - a.len()]);
        }
    }
}

/// The accepted sets that are left, and sets of the round, are among the
/// accepted sets and the sets brought by the round.
pub proof fn lemma_round_among(
    held: Seq<Seq<u16>>,
    given: Seq<Seq<u16>>,
    fresh: Seq<Seq<u16>>,
    least: Seq<Seq<u16>>,
    w: nat,
)
    requires
        all_among(fresh, given),
        all_among(least, fresh),
    ensures
        all_among(held.filter(not_subsumed_by(fresh, w)) + least, held + given),
{
    let kept = held.filter(not_subsumed_by(fresh, w));
    lemma_filter_facts(held, not_subsumed_by(fresh, w));
    lemma_among_transitive(least, fresh, given);
    lemma_among_part(held, given);
    lemma_among_transitive(kept, held, held + given);
    lemma_among_transitive(least, given, held + given);
    lemma_among_both(kept, least, held + given);
}

/// The set of `b` by which `a[i]` is found to be subsumed.
pub open spec fn subsumer_in(a: Seq<Seq<u16>>, b: Seq<Seq<u16>>, i: int, w: nat) -> int {
    choose|j: int| 0 <= j < b.len() && subsumes_under_permutation(#[trigger] b[j], a[i], w)
}

/// An antichain has at most as many sets as a list that covers it and that
/// it covers.
pub proof fn lemma_antichain_not_longer(a: Seq<Seq<u16>>, b: Seq<Seq<u16>>, w: nat)
    requires
        w <= 15,
        is_antichain(a, w),
        covers(a, b, w),
        covers(b, a, w),
    ensures
        a.len() <= b.len(),
{
    reveal(covers);
    let to = Seq::new(a.len(), |i: int| subsumer_in(a, b, i, w));
    assert forall|i: int| 0 <= i < a.len() implies 0 <= #[trigger] to[i] < b.len()
        && subsumes_under_permutation(b[to[i]], a[i], w) by {
        assert(some_subsumes(b, a[i], w));
    }
    assert forall|i: int, k: int| 0 <= i < a.len() && 0 <= k < a.len() && i != k implies to[i]
        != to[k] by {
        if to[i] == to[k] {
            let j = to[i];
            assert(some_subsumes(a, b[j], w));
            let back = choose|back: int|
                0 <= back < a.len() && subsumes_under_permutation(#[trigger] a[back], b[j], w);
            lemma_subsumption_transitive(a[back], b[j], a[i], w);
            lemma_subsumption_transitive(a[back], b[j], a[k], w);
        }
    }
    assert(to.no_duplicates());
    to.unique_seq_to_set();
    vstd::set_lib::lemma_int_range(0, b.len() as int);
    assert(to.to_set().subset_of(vstd::set_lib::set_int_range(0, b.len() as int))) by {
        assert forall|x: int| to.to_set().contains(x) implies vstd::set_lib::set_int_range(
            0,
            b.len() as int,
        ).contains(x) by {
            let i = choose|i: int| 0 <= i < to.len() && to[i] == x;
            assert(0 <= to[i] < b.len());
        }
    }
    vstd::set_lib::lemma_len_subset(to.to_set(), vstd::set_lib::set_int_range(0, b.len() as int));
}

/// However the output sets of a batch are taken in, as many are kept: two
/// antichains of output sets of the batch that both cover the batch have the
/// same number of sets.
pub proof fn lemma_kept_counts_agree(
    batch: Seq<Seq<u16>>,
    one: Seq<Seq<u16>>,
    other: Seq<Seq<u16>>,
    w: nat,
)
    requires
        w <= 15,
        is_antichain(one, w),
        is_antichain(other, w),
        all_among(one, batch),
        all_among(other, batch),
        covers(one, batch, w),
        covers(other, batch, w),
    ensures
        one.len() == other.len(),
{
    lemma_covers_part(one, batch, other, w);
    lemma_covers_part(other, batch, one, w);
    lemma_antichain_not_longer(one, other, w);
    lemma_antichain_not_longer(other, one, w);
}

/// What covers a list covers every list of sets of that list.
pub proof fn lemma_covers_part(a: Seq<Seq<u16>>, b: Seq<Seq<u16>>, c: Seq<Seq<u16>>, w: nat)
    requires
        covers(a, b, w),
        all_among(c, b),
    ensures
        covers(a, c, w),
{
    reveal(covers);
    reveal(all_among);
    assert forall|i: int| 0 <= i < c.len() implies some_subsumes(a, #[trigger] c[i], w) by {
        assert(b.contains(c[i]));
        let k = choose|k: int| 0 <= k < b.len() && b[k] == c[i];
        assert(some_subsumes(a, b[k], w));
    }
}

} // verus!
