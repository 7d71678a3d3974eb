//! Facts about strictly ascending sequences of values.

use vstd::prelude::*;

verus! {

/// Whether `s` is strictly ascending.
pub open spec fn strictly_ascending(s: Seq<u16>) -> bool {
    forall|i: int, j: int| 0 <= i < j < s.len() ==> s[i] < s[j]
}

/// Whether every value of `a` is a value of `b`.
pub open spec fn is_subset(a: Seq<u16>, b: Seq<u16>) -> bool {
    forall|i: int| 0 <= i < a.len() ==> b.contains(#[trigger] a[i])
}

/// Whether the values of `out` are exactly the images under `f` of the values
/// of `src`.
pub open spec fn is_image(out: Seq<u16>, src: Seq<u16>, f: spec_fn(u16) -> u16) -> bool {
    &&& forall|i: int| 0 <= i < src.len() ==> out.contains(f(#[trigger] src[i]))
    &&& forall|k: int|
        0 <= k < out.len() ==> exists|i: int| 0 <= i < src.len() && f(src[i]) == #[trigger] out[k]
}

/// How many values of `s` satisfy `p`.
pub open spec fn count_where(s: Seq<u16>, p: spec_fn(u16) -> bool) -> nat
    decreases s.len(),
{
    if s.len() == 0 {
        0
    } else {
        count_where(s.drop_last(), p) + if p(s.last()) {
            1nat
        } else {
            0nat
        }
    }
}

/// No more values of `s` satisfy `p` than `s` has.
pub proof fn lemma_count_where_bound(s: Seq<u16>, p: spec_fn(u16) -> bool)
    ensures
        count_where(s, p) <= s.len(),
    decreases s.len(),
{
    if s.len() > 0 {
        lemma_count_where_bound(s.drop_last(), p);
    }
}

/// Two predicates that agree on every value are satisfied by equally many
/// values of `s`.
pub proof fn lemma_count_where_same(s: Seq<u16>, p: spec_fn(u16) -> bool, q: spec_fn(u16) -> bool)
    requires
        forall|x: u16| #[trigger] p(x) == q(x),
    ensures
        count_where(s, p) == count_where(s, q),
    decreases s.len(),
{
    if s.len() > 0 {
        lemma_count_where_same(s.drop_last(), p, q);
    }
}

/// Taking one value out lowers the count by one exactly if the value
/// satisfies `p`.
pub proof fn lemma_count_where_remove(s: Seq<u16>, j: int, p: spec_fn(u16) -> bool)
    requires
        0 <= j < s.len(),
    ensures
        count_where(s.remove(j), p) + (if p(s[j]) {
            1nat
        } else {
            0nat
        }) == count_where(s, p),
    decreases s.len(),
{
    let t = s.remove(j);
    if j == s.len() - 1 {
        assert(t =~= s.drop_last());
    } else {
        lemma_count_where_remove(s.drop_last(), j, p);
        assert(t.drop_last() =~= s.drop_last().remove(j));
        assert(t.last() == s.last());
    }
}

/// Whether `x` is the image under `f` of a value of `b`.
pub open spec fn is_image_of_some(x: u16, b: Seq<u16>, f: spec_fn(u16) -> u16) -> bool {
    exists|j: int| 0 <= j < b.len() && x == f(#[trigger] b[j])
}

/// If the values of `a` are all different and each is the image under `f` of
/// a value of `b`, and every value of `b` whose image satisfies `p` itself
/// satisfies `q`, then no more values of `a` satisfy `p` than values of `b`
/// satisfy `q`.
pub proof fn lemma_count_through(
    a: Seq<u16>,
    b: Seq<u16>,
    f: spec_fn(u16) -> u16,
    p: spec_fn(u16) -> bool,
    q: spec_fn(u16) -> bool,
)
    requires
        a.no_duplicates(),
        forall|i: int| 0 <= i < a.len() ==> is_image_of_some(#[trigger] a[i], b, f),
        forall|j: int| 0 <= j < b.len() && p(f(#[trigger] b[j])) ==> q(b[j]),
    ensures
        count_where(a, p) <= count_where(b, q),
    decreases a.len(),
{
    if a.len() > 0 {
        let a0 = a.drop_last();
        let x = a.last();
        assert(is_image_of_some(a[a.len() - 1], b, f));
        let j = choose|j: int| 0 <= j < b.len() && a[a.len() - 1] == f(#[trigger] b[j]);
        let b0 = b.remove(j);
        assert forall|i: int| 0 <= i < a0.len() implies is_image_of_some(
            #[trigger] a0[i],
            b0,
            f,
        ) by {
            assert(is_image_of_some(a[i], b, f));
            let m = choose|m: int| 0 <= m < b.len() && a[i] == f(#[trigger] b[m]);
            assert(a[i] != a[a.len() - 1]);
            if m < j {
                assert(b0[m] == b[m]);
            } else {
                assert(b0[m - 1] == b[m]);
            }
        }
        assert forall|k: int| 0 <= k < b0.len() && p(f(#[trigger] b0[k])) implies q(b0[k]) by {
            if k < j {
                assert(b0[k] == b[k]);
            } else {
                assert(b0[k] == b[k + 1]);
            }
        }
        lemma_count_through(a0, b0, f, p, q);
        lemma_count_where_remove(b, j, q);
    }
}

/// Every value satisfies a predicate or not.
pub proof fn lemma_count_where_split(s: Seq<u16>, p: spec_fn(u16) -> bool)
    ensures
        count_where(s, p) + count_where(s, |x: u16| !p(x)) == s.len(),
    decreases s.len(),
{
    if s.len() > 0 {
        lemma_count_where_split(s.drop_last(), p);
    }
}

/// If the values of `a` are all different and as many as those of `b`, each
/// is the image under `f` of a value of `b`, and the image of a value of `b`
/// satisfies `p` exactly if the value satisfies `q`, then as many values of
/// `a` satisfy `p` as values of `b` satisfy `q`.
pub proof fn lemma_count_matched(
    a: Seq<u16>,
    b: Seq<u16>,
    f: spec_fn(u16) -> u16,
    p: spec_fn(u16) -> bool,
    q: spec_fn(u16) -> bool,
)
    requires
        a.no_duplicates(),
        a.len() == b.len(),
        forall|i: int| 0 <= i < a.len() ==> is_image_of_some(#[trigger] a[i], b, f),
        forall|j: int| 0 <= j < b.len() ==> p(f(#[trigger] b[j])) == q(b[j]),
    ensures
        count_where(a, p) == count_where(b, q),
{
    let np = |x: u16| !p(x);
    let nq = |x: u16| !q(x);
    lemma_count_through(a, b, f, p, q);
    lemma_count_through(a, b, f, np, nq);
    lemma_count_where_split(a, p);
    lemma_count_where_split(b, q);
}

/// The values of a strictly ascending sequence are all different.
pub proof fn lemma_ascending_no_duplicates(s: Seq<u16>)
    requires
        strictly_ascending(s),
    ensures
        s.no_duplicates(),
{
    assert forall|i: int, j: int| 0 <= i < s.len() && 0 <= j < s.len() && i != j implies s[i]
        != s[j] by {
        if i < j {
            assert(s[i] < s[j]);
        } else {
            assert(s[j] < s[i]);
        }
    }
}

/// In a strictly ascending sequence the value at a position is at least the
/// position, and as far below the last value as the position is below the
/// last position.
pub proof fn lemma_ascending_bounds(s: Seq<u16>, i: int)
    requires
        strictly_ascending(s),
        0 <= i < s.len(),
    ensures
        i <= s[i],
        s[i] + (s.len() - 1 - i) <= s[s.len() - 1],
{
    lemma_ascending_from(s, 0, i);
    lemma_ascending_from(s, i, s.len() - 1);
}

/// Between two positions of a strictly ascending sequence the values grow by
/// at least the distance.
pub proof fn lemma_ascending_from(s: Seq<u16>, i: int, j: int)
    requires
        strictly_ascending(s),
        0 <= i <= j < s.len(),
    ensures
        s[i] + (j - i) <= s[j],
    decreases j - i,
{
    if i < j {
        lemma_ascending_from(s, i, j - 1);
    }
}

/// A strictly ascending sequence whose values all occur in another one is no
/// longer than that one.
pub proof fn lemma_subset_len(a: Seq<u16>, b: Seq<u16>)
    requires
        strictly_ascending(a),
        strictly_ascending(b),
        is_subset(a, b),
    ensures
        a.len() <= b.len(),
    decreases a.len(),
{
    if a.len() > 0 {
        let la = a.len() - 1;
        assert(b.contains(a[la]));
        let j = choose|j: int| 0 <= j < b.len() && b[j] == a[la];
        let a0 = a.drop_last();
        let b0 = b.take(j);
        assert forall|i: int| 0 <= i < a0.len() implies b0.contains(#[trigger] a0[i]) by {
            assert(b.contains(a[i]));
            let k = choose|k: int| 0 <= k < b.len() && b[k] == a[i];
            assert(k < j);
            assert(b0[k] == a0[i]);
        }
        lemma_subset_len(a0, b0);
    }
}

/// Two strictly ascending sequences with the same values are the same
/// sequence.
pub proof fn lemma_ascending_unique(a: Seq<u16>, b: Seq<u16>)
    requires
        strictly_ascending(a),
        strictly_ascending(b),
        is_subset(a, b),
        is_subset(b, a),
    ensures
        a == b,
    decreases a.len(),
{
    if a.len() == 0 {
        if b.len() > 0 {
            assert(a.contains(b[0]));
        }
        assert(a =~= b);
    } else {
        let la = a.len() - 1;
        assert(b.contains(a[la]));
        let lb = b.len() - 1;
        // the last values agree: each is the largest of the common values
        let k = choose|k: int| 0 <= k < b.len() && b[k] == a[la];
        assert(a.contains(b[lb]));
        let m = choose|m: int| 0 <= m < a.len() && a[m] == b[lb];
        assert(a[la] == b[lb]);
        let a0 = a.drop_last();
        let b0 = b.drop_last();
        assert forall|i: int| 0 <= i < a0.len() implies b0.contains(#[trigger] a0[i]) by {
            assert(b.contains(a[i]));
            let j = choose|j: int| 0 <= j < b.len() && b[j] == a[i];
            assert(j < lb);
            assert(b0[j] == a0[i]);
        }
        assert forall|i: int| 0 <= i < b0.len() implies a0.contains(#[trigger] b0[i]) by {
            assert(a.contains(b[i]));
            let j = choose|j: int| 0 <= j < a.len() && a[j] == b[i];
            assert(j < la);
            assert(a0[j] == b0[i]);
        }
        lemma_ascending_unique(a0, b0);
        assert(a =~= a0.push(a[la]));
        assert(b =~= b0.push(b[lb]));
    }
}

/// Two strictly ascending sequences of the images of the same values are the
/// same.
pub proof fn lemma_same_image(a: Seq<u16>, b: Seq<u16>, src: Seq<u16>, f: spec_fn(u16) -> u16)
    requires
        strictly_ascending(a),
        strictly_ascending(b),
        is_image(a, src, f),
        is_image(b, src, f),
    ensures
        a == b,
{
    assert forall|k: int| 0 <= k < a.len() implies b.contains(#[trigger] a[k]) by {
        let i = choose|i: int| 0 <= i < src.len() && f(src[i]) == a[k];
        assert(b.contains(f(src[i])));
    }
    assert forall|k: int| 0 <= k < b.len() implies a.contains(#[trigger] b[k]) by {
        let i = choose|i: int| 0 <= i < src.len() && f(src[i]) == b[k];
        assert(a.contains(f(src[i])));
    }
    lemma_ascending_unique(a, b);
}

/// If `f` undoes itself on the values of `s`, every value of `s` is among
/// the images of the images of the values of `s`.
pub proof fn lemma_back_among(s: Seq<u16>, once: Seq<u16>, twice: Seq<u16>, f: spec_fn(u16) -> u16)
    requires
        forall|i: int| 0 <= i < s.len() ==> once.contains(f(#[trigger] s[i])),
        forall|i: int| 0 <= i < once.len() ==> twice.contains(f(#[trigger] once[i])),
        forall|i: int| 0 <= i < s.len() ==> f(f(#[trigger] s[i])) == s[i],
    ensures
        is_subset(s, twice),
{
    assert forall|k: int| 0 <= k < s.len() implies twice.contains(#[trigger] s[k]) by {
        assert(once.contains(f(s[k])));
        let i = choose|i: int| 0 <= i < once.len() && once[i] == f(s[k]);
        assert(twice.contains(f(once[i])));
    }
}

/// If `f` undoes itself on the values of `s`, every image of an image of a
/// value of `s` is a value of `s`.
pub proof fn lemma_among_back(s: Seq<u16>, once: Seq<u16>, twice: Seq<u16>, f: spec_fn(u16) -> u16)
    requires
        forall|k: int| 0 <= k < once.len() ==> is_image_of_some(#[trigger] once[k], s, f),
        forall|k: int| 0 <= k < twice.len() ==> is_image_of_some(#[trigger] twice[k], once, f),
        forall|i: int| 0 <= i < s.len() ==> f(f(#[trigger] s[i])) == s[i],
    ensures
        is_subset(twice, s),
{
    assert forall|k: int| 0 <= k < twice.len() implies s.contains(#[trigger] twice[k]) by {
        assert(is_image_of_some(twice[k], once, f));
        let i = choose|i: int| 0 <= i < once.len() && twice[k] == f(#[trigger] once[i]);
        assert(is_image_of_some(once[i], s, f));
        let j = choose|j: int| 0 <= j < s.len() && once[i] == f(#[trigger] s[j]);
        assert(s[j] == twice[k]);
    }
}

/// The values of `out`, which are the images under `f` of the values of
/// `src`, are each the image of some value of `src`.
pub proof fn lemma_image_of_some(out: Seq<u16>, src: Seq<u16>, f: spec_fn(u16) -> u16)
    requires
        is_image(out, src, f),
    ensures
        forall|k: int| 0 <= k < out.len() ==> is_image_of_some(#[trigger] out[k], src, f),
{
    assert forall|k: int| 0 <= k < out.len() implies is_image_of_some(#[trigger] out[k], src, f) by {
        let i = choose|i: int| 0 <= i < src.len() && f(src[i]) == out[k];
        assert(out[k] == f(src[i]));
    }
}

} // verus!
