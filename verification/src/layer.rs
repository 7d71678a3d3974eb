//! From one layer of a search to the next: the output sets that one more
//! comparator leads to, and those of a layer that no other subsumes.

use vstd::prelude::*;
use crate::antichain::{all_among, covers, is_antichain, lemma_among_transitive, lemma_covers_nothing, lemma_covers_transitive, lemma_pushed};
use crate::bits::comparator_image;
use crate::subsume_index::{reversed, sets_of, views, AbstractedPair, SubsumeIndex};
use crate::implications::associated;
use crate::output_set::{is_value_seq, ordered_by_weight, precedes, OutputSet};
use crate::permutation::{is_permutation, permuted_value, lemma_permutation_onto};
use crate::value_seq::{is_image, lemma_same_image};

verus! {

/// Whether `a` and `b` agree before position `k` and differ at it, or one of
/// them ends there.
pub open spec fn first_difference(a: Seq<u16>, b: Seq<u16>, k: int) -> bool {
    &&& 0 <= k <= a.len()
    &&& k <= b.len()
    &&& forall|m: int| 0 <= m < k ==> a[m] == b[m]
    &&& k == a.len() || k == b.len() || a[k] != b[k]
}

/// Whether `a` comes before `b` when sequences of values are put in order by
/// the first value in which they differ, a sequence before its extensions.
pub open spec fn comes_before(a: Seq<u16>, b: Seq<u16>) -> bool {
    exists|k: int| #[trigger] first_difference(a, b, k) && k < b.len() && (k == a.len() || a[k] < b[k])
}

/// Whether the sequences of `v` are in order, each before the next.
pub open spec fn in_order(v: Seq<Seq<u16>>) -> bool {
    forall|i: int, j: int| 0 <= i < j < v.len() ==> comes_before(#[trigger] v[i], #[trigger] v[j])
}

/// What comes before a sequence comes before what that sequence comes
/// before.
pub proof fn lemma_comes_before_transitive(a: Seq<u16>, b: Seq<u16>, c: Seq<u16>)
    requires
        comes_before(a, b),
        comes_before(b, c),
    ensures
        comes_before(a, c),
{
    let k1 = choose|k: int| #[trigger] first_difference(a, b, k) && k < b.len() && (k == a.len() || a[k] < b[k]);
    let k2 = choose|k: int| #[trigger] first_difference(b, c, k) && k < c.len() && (k == b.len() || b[k] < c[k]);
    let k = if k1 < k2 {
        k1
    } else {
        k2
    };
    assert(first_difference(a, c, k));
}

/// Where two sequences stand to each other.
#[derive(Clone, Copy, PartialEq, Eq, Debug)]
pub enum Place {
    Before,
    Same,
    After,
}

/// Where `a` stands to `b` in the order of sequences.
pub fn place_of(a: &[u16], b: &[u16]) -> (r: Place)
    ensures
        (r == Place::Before) == comes_before(a@, b@),
        (r == Place::Same) == (a@ == b@),
        (r == Place::After) == comes_before(b@, a@),
{
    let mut at: usize = 0;
    while at < a.len() && at < b.len()
        invariant
            at <= a@.len(),
            at <= b@.len(),
            forall|m: int| 0 <= m < at ==> a@[m] == b@[m],
        decreases a@.len() - at,
    {
        if a[at] < b[at] {
            proof {
                assert(first_difference(a@, b@, at as int));
                lemma_places_exclude(a@, b@);
            }
            return Place::Before;
        }
        if a[at] > b[at] {
            proof {
                assert(first_difference(b@, a@, at as int));
                lemma_places_exclude(b@, a@);
            }
            return Place::After;
        }
        at += 1;
    }
    if at < b.len() {
        proof {
            assert(first_difference(a@, b@, at as int));
            lemma_places_exclude(a@, b@);
        }
        Place::Before
    } else if at < a.len() {
        proof {
            assert(first_difference(b@, a@, at as int));
            lemma_places_exclude(b@, a@);
        }
        Place::After
    } else {
        proof {
            assert(a@ =~= b@);
            if comes_before(a@, b@) {
                lemma_places_exclude(a@, b@);
            }
            if comes_before(b@, a@) {
                lemma_places_exclude(b@, a@);
            }
        }
        Place::Same
    }
}

/// A sequence that comes before another is not the same and does not come
/// behind it.
pub proof fn lemma_places_exclude(a: Seq<u16>, b: Seq<u16>)
    requires
        comes_before(a, b),
    ensures
        a != b,
        !comes_before(b, a),
{
    let k1 = choose|k: int| #[trigger] first_difference(a, b, k) && k < b.len() && (k == a.len() || a[k] < b[k]);
    if comes_before(b, a) {
        let k2 = choose|k: int| #[trigger] first_difference(b, a, k) && k < a.len() && (k == b.len() || b[k] < a[k]);
        if k1 < k2 {
            assert(b[k1] == a[k1]);
        } else if k2 < k1 {
            assert(a[k2] == b[k2]);
        }
    }
}

/// Whether the comparator on `(i, j)` leads from `s` to `mid`, and putting
/// the channels of `mid` in order of weight by `p` from there to `x`.
pub open spec fn leads_to(
    s: Seq<u16>,
    mid: Seq<u16>,
    p: Seq<usize>,
    x: Seq<u16>,
    i: usize,
    j: usize,
    w: nat,
) -> bool {
    &&& is_value_seq(mid, w)
    &&& is_image(mid, s, |v: u16| comparator_image(v, i as u16, j as u16))
    &&& is_permutation(p, w)
    &&& ordered_by_weight(mid, p)
    &&& is_value_seq(x, w)
    &&& is_image(x, mid, |v: u16| permuted_value(v, p))
}

/// Whether `x` is what the comparator on `(i, j)` makes of `s`, with the
/// channels put in order of weight.
#[verifier::opaque]
pub open spec fn is_successor_by(s: Seq<u16>, x: Seq<u16>, i: usize, j: usize, w: nat) -> bool {
    exists|mid: Seq<u16>, p: Seq<usize>| #[trigger] leads_to(s, mid, p, x, i, j, w)
}

/// Whether `x` is a successor of `s` that is worth a look: what a comparator
/// on two channels makes of `s`, neither of which carries a one wherever the
/// other does, with the channels put in order of weight.
pub open spec fn is_successor(s: Seq<u16>, x: Seq<u16>, w: nat) -> bool {
    exists|i: usize, j: usize|
        i < j < w && !associated(s, i, j) && #[trigger] is_successor_by(s, x, i, j, w)
}

/// Two permutations that put the channels of `s` in order of weight agree up
/// to position `i`.
proof fn lemma_order_agrees(s: Seq<u16>, p: Seq<usize>, q: Seq<usize>, w: nat, i: int)
    requires
        is_permutation(p, w),
        is_permutation(q, w),
        ordered_by_weight(s, p),
        ordered_by_weight(s, q),
        0 <= i < w,
    ensures
        forall|k: int| 0 <= k <= i ==> (#[trigger] p[k]) == q[k],
    decreases i,
{
    if i > 0 {
        lemma_order_agrees(s, p, q, w, i - 1);
    }
    if p[i] != q[i] {
        lemma_permutation_onto(p, w, q[i] as int);
        let m = choose|m: int| 0 <= m < w && p[m] == q[i] as int;
        assert(m > i) by {
            if m < i {
                assert(p[m] == q[m]);
                assert(q[m] != q[i]);
            }
        }
        lemma_permutation_onto(q, w, p[i] as int);
        let n = choose|n: int| 0 <= n < w && q[n] == p[i] as int;
        assert(n > i) by {
            if n < i {
                assert(p[n] == q[n]);
                assert(p[n] != p[i]);
            }
        }
        assert(precedes(s, p[i], p[m]));
        assert(precedes(s, q[i], q[n]));
    }
}

/// There is one way to put the channels of an output set in order of weight.
pub proof fn lemma_order_unique(s: Seq<u16>, p: Seq<usize>, q: Seq<usize>, w: nat)
    requires
        is_permutation(p, w),
        is_permutation(q, w),
        ordered_by_weight(s, p),
        ordered_by_weight(s, q),
    ensures
        p == q,
{
    if w > 0 {
        lemma_order_agrees(s, p, q, w, w - 1);
    }
    assert(p =~= q);
}

/// A comparator leads from an output set to one successor.
pub proof fn lemma_successor_unique(s: Seq<u16>, x: Seq<u16>, y: Seq<u16>, i: usize, j: usize, w: nat)
    requires
        is_successor_by(s, x, i, j, w),
        is_successor_by(s, y, i, j, w),
    ensures
        x == y,
{
    reveal(is_successor_by);
    let (m1, p1) = choose|mid: Seq<u16>, p: Seq<usize>| #[trigger] leads_to(s, mid, p, x, i, j, w);
    let (m2, p2) = choose|mid: Seq<u16>, p: Seq<usize>| #[trigger] leads_to(s, mid, p, y, i, j, w);
    lemma_same_image(m1, m2, s, |v: u16| comparator_image(v, i as u16, j as u16));
    lemma_order_unique(m1, p1, p2, w);
    lemma_same_image(x, y, m1, |v: u16| permuted_value(v, p1));
}

/// The values of the output sets, in order.
pub open spec fn values_of(sets: Seq<OutputSet>) -> Seq<Seq<u16>> {
    Seq::new(sets.len(), |k: int| sets[k]@)
}

/// Whether `sets` are output sets on `w` channels.
pub open spec fn all_sets_ok(sets: Seq<OutputSet>, w: nat) -> bool {
    forall|k: int| 0 <= k < sets.len() ==> (#[trigger] sets[k]).wf() && sets[k].width() == w
}

/// Puts `set` in its place among `sets`, unless it is there already.
fn insert_in_order(sets: &mut Vec<OutputSet>, set: OutputSet)
    requires
        in_order(values_of(old(sets)@)),
        all_sets_ok(old(sets)@, set.width()),
        set.wf(),
    ensures
        in_order(values_of(final(sets)@)),
        all_sets_ok(final(sets)@, set.width()),
        values_of(final(sets)@).contains(set@),
        forall|x: Seq<u16>|
            values_of(final(sets)@).contains(x) <==> values_of(old(sets)@).contains(x) || x == set@,
{
    let ghost before = sets@;
    let ghost held = values_of(before);
    let ghost w = set.width();
    let mut at: usize = 0;
    while at < sets.len()
        invariant
            at <= sets@.len(),
            sets@ == before,
            held == values_of(before),
            in_order(held),
            all_sets_ok(before, w),
            w == set.width(),
            forall|m: int| 0 <= m < at ==> comes_before(#[trigger] held[m], set@),
        ensures
            at <= sets@.len(),
            sets@ == before,
            at < sets@.len() ==> comes_before(set@, held[at as int]),
            forall|m: int| 0 <= m < at ==> comes_before(#[trigger] held[m], set@),
        decreases sets@.len() - at,
    {
        match place_of(sets[at].values(), set.values()) {
            Place::Before => {
                assert(held[at as int] == before[at as int]@);
            },
            Place::Same => {
                proof {
                    assert(held[at as int] == set@);
                    assert(held.contains(set@));
                }
                return ;
            },
            Place::After => {
                assert(held[at as int] == before[at as int]@);
                break ;
            },
        }
        at += 1;
    }
    proof {
        // the set stands before what is left, so it is not held
        assert forall|m: int| at <= m < held.len() implies comes_before(set@, #[trigger] held[m]) by {
            if m > at {
                lemma_comes_before_transitive(set@, held[at as int], held[m]);
            }
        }
    }
    sets.insert(at, set);
    proof {
        let now = values_of(sets@);
        assert(now =~= held.insert(at as int, set@));
        assert forall|i: int, j: int| 0 <= i < j < now.len() implies comes_before(
            #[trigger] now[i],
            #[trigger] now[j],
        ) by {
            let oi = if i < at {
                i
            } else {
                i - 1
            };
            let oj = if j < at {
                j
            } else {
                j - 1
            };
            if i != at && j != at {
                assert(now[i] == held[oi] && now[j] == held[oj]);
            } else if i == at {
                assert(now[j] == held[oj]);
            } else {
                assert(now[i] == held[oi]);
            }
        }
        assert(now[at as int] == set@);
        assert forall|x: Seq<u16>| now.contains(x) <==> held.contains(x) || x == set@ by {
            if now.contains(x) {
                let k = choose|k: int| 0 <= k < now.len() && now[k] == x;
                if k < at {
                    assert(held[k] == x);
                } else if k > at {
                    assert(held[k - 1] == x);
                }
            }
            if held.contains(x) {
                let k = choose|k: int| 0 <= k < held.len() && held[k] == x;
                if k < at {
                    assert(now[k] == x);
                } else {
                    assert(now[k + 1] == x);
                }
            }
        }
        assert forall|k: int| 0 <= k < sets@.len() implies (#[trigger] sets@[k]).wf() && sets@[k].width()
            == w by {
            if k < at {
                assert(sets@[k] == before[k]);
            } else if k > at {
                assert(sets@[k] == before[k - 1]);
            }
        }
    }
}

/// Whether `x` is what a comparator that has been tried makes of `s`, with
/// the channels put in order of weight, when the comparators `(a, b)` with
/// `a < b < j`, and with `a < i` and `b == j`, have been tried.
pub open spec fn found_by(s: Seq<u16>, x: Seq<u16>, w: nat, j: usize, i: usize) -> bool {
    exists|a: usize, b: usize|
        (a < b < j || (a < i && b == j)) && b < w && !associated(s, a, b)
            && #[trigger] is_successor_by(s, x, a, b, w)
}

/// What one more comparator adds to what has been found.
proof fn lemma_found_step(s: Seq<u16>, x: Seq<u16>, w: nat, j: usize, i: usize)
    requires
        i < j < w <= 15,
    ensures
        found_by(s, x, w, j, (i + 1) as usize) <==> found_by(s, x, w, j, i) || (!associated(s, i, j)
            && is_successor_by(s, x, i, j, w)),
{
    if found_by(s, x, w, j, (i + 1) as usize) {
        let (a, b) = choose|a: usize, b: usize|
            (a < b < j || (a < i + 1 && b == j)) && b < w && !associated(s, a, b)
                && #[trigger] is_successor_by(s, x, a, b, w);
        if !(a == i && b == j) {
            assert((a < b < j || (a < i && b == j)) && b < w && !associated(s, a, b)
                && is_successor_by(s, x, a, b, w));
        }
    }
    if found_by(s, x, w, j, i) {
        let (a, b) = choose|a: usize, b: usize|
            (a < b < j || (a < i && b == j)) && b < w && !associated(s, a, b)
                && #[trigger] is_successor_by(s, x, a, b, w);
        assert((a < b < j || (a < i + 1 && b == j)) && b < w && !associated(s, a, b)
            && is_successor_by(s, x, a, b, w));
    }
    if !associated(s, i, j) && is_successor_by(s, x, i, j, w) {
        assert((i < j < j || (i < i + 1 && j == j)) && j < w && !associated(s, i, j)
            && is_successor_by(s, x, i, j, w));
    }
}

/// With the comparators up to `(j - 1, j)` tried, those with `b <= j` have
/// been; with none tried nothing has been found; and with all tried, the
/// successors that are worth a look have been.
proof fn lemma_found_row(s: Seq<u16>, x: Seq<u16>, w: nat, j: usize)
    requires
        j < w <= 15,
    ensures
        found_by(s, x, w, (j + 1) as usize, 0) <==> found_by(s, x, w, j, j),
        !found_by(s, x, w, 0, 0),
        found_by(s, x, w, w as usize, 0) <==> is_successor(s, x, w),
{
    if found_by(s, x, w, (j + 1) as usize, 0) {
        let (a, b) = choose|a: usize, b: usize|
            (a < b < j + 1 || (a < 0 && b == j + 1)) && b < w && !associated(s, a, b)
                && #[trigger] is_successor_by(s, x, a, b, w);
        assert((a < b < j || (a < j && b == j)) && b < w && !associated(s, a, b)
            && is_successor_by(s, x, a, b, w));
    }
    if found_by(s, x, w, j, j) {
        let (a, b) = choose|a: usize, b: usize|
            (a < b < j || (a < j && b == j)) && b < w && !associated(s, a, b)
                && #[trigger] is_successor_by(s, x, a, b, w);
        assert((a < b < j + 1 || (a < 0 && b == j + 1)) && b < w && !associated(s, a, b)
            && is_successor_by(s, x, a, b, w));
    }
    if found_by(s, x, w, w as usize, 0) {
        let (a, b) = choose|a: usize, b: usize|
            (a < b < w || (a < 0 && b == w)) && b < w && !associated(s, a, b)
                && #[trigger] is_successor_by(s, x, a, b, w);
        assert(a < b < w && !associated(s, a, b) && is_successor_by(s, x, a, b, w));
    }
    if is_successor(s, x, w) {
        let (a, b) = choose|a: usize, b: usize|
            a < b < w && !associated(s, a, b) && #[trigger] is_successor_by(s, x, a, b, w);
        assert((a < b < w || (a < 0 && b == w)) && b < w && !associated(s, a, b)
            && is_successor_by(s, x, a, b, w));
    }
}

/// What the comparator on `(i, j)` makes of `output_set`, with the channels
/// put in order of weight.
pub fn successor_by(output_set: &OutputSet, i: usize, j: usize) -> (r: OutputSet)
    requires
        output_set.wf(),
        i != j,
        i < output_set.width(),
        j < output_set.width(),
    ensures
        r.wf(),
        r.width() == output_set.width(),
        is_successor_by(output_set@, r@, i, j, output_set.width()),
{
    let mut set = output_set.apply_comparator(i, j);
    let ghost mid = set@;
    let perm = set.order_channels_by_weight();
    proof {
        reveal(is_successor_by);
        assert(leads_to(
            output_set@,
            mid,
            crate::fixed_vec::indices(perm),
            set@,
            i,
            j,
            output_set.width(),
        ));
    }
    set
}

/// The successors of `output_set` that are worth a look, in order and each
/// once: for every two channels neither of which carries a one wherever the
/// other does, what the comparator on the two makes of the output set, with
/// the channels put in order of weight.
pub fn expand(output_set: &OutputSet) -> (r: Vec<OutputSet>)
    requires
        output_set.wf(),
    ensures
        all_sets_ok(r@, output_set.width()),
        in_order(values_of(r@)),
        forall|x: Seq<u16>|
            values_of(r@).contains(x) <==> is_successor(output_set@, x, output_set.width()),
{
    let ghost s = output_set@;
    let ghost w = output_set.width();
    let channels = output_set.channels();
    let implications = output_set.implications();
    let mut next: Vec<OutputSet> = Vec::new();
    if channels == 0 {
        proof {
            assert forall|x: Seq<u16>| values_of(next@).contains(x) <==> is_successor(s, x, w) by {
                if is_successor(s, x, w) {
                    let (a, b) = choose|a: usize, b: usize|
                        a < b < w && !associated(s, a, b) && #[trigger] is_successor_by(s, x, a, b, w);
                }
            }
        }
        return next;
    }
    proof {
        assert forall|x: Seq<u16>| values_of(next@).contains(x) <==> found_by(s, x, w, 0, 0) by {
            lemma_found_row(s, x, w, 0);
        }
    }
    let mut j: usize = 0;
    while j < channels
        invariant
            j <= channels == w <= 15,
            w == output_set.width(),
            channels > 0,
            s == output_set@,
            output_set.wf(),
            implications.describes(s, w),
            all_sets_ok(next@, w),
            in_order(values_of(next@)),
            forall|x: Seq<u16>| values_of(next@).contains(x) <==> found_by(s, x, w, j, 0),
        decreases channels - j,
    {
        let mut i: usize = 0;
        while i < j
            invariant
                i <= j < channels == w <= 15,
                w == output_set.width(),
                s == output_set@,
                output_set.wf(),
                implications.describes(s, w),
                all_sets_ok(next@, w),
                in_order(values_of(next@)),
                forall|x: Seq<u16>| values_of(next@).contains(x) <==> found_by(s, x, w, j, i),
            decreases j - i,
        {
            let ghost held = values_of(next@);
            if !implications.is_associated(i, j) {
                let set = successor_by(output_set, i, j);
                insert_in_order(&mut next, set);
                proof {
                    let now = values_of(next@);
                    assert forall|x: Seq<u16>| now.contains(x) <==> found_by(
                        s,
                        x,
                        w,
                        j,
                        (i + 1) as usize,
                    ) by {
                        lemma_found_step(s, x, w, j, i);
                        if is_successor_by(s, x, i, j, w) {
                            lemma_successor_unique(s, x, set@, i, j, w);
                        }
                    }
                }
            } else {
                proof {
                    assert forall|x: Seq<u16>| held.contains(x) <==> found_by(
                        s,
                        x,
                        w,
                        j,
                        (i + 1) as usize,
                    ) by {
                        lemma_found_step(s, x, w, j, i);
                    }
                }
            }
            i += 1;
        }
        proof {
            assert forall|x: Seq<u16>| values_of(next@).contains(x) <==> found_by(
                s,
                x,
                w,
                (j + 1) as usize,
                0,
            ) by {
                lemma_found_row(s, x, w, j);
            }
        }
        j += 1;
    }
    proof {
        assert forall|x: Seq<u16>| values_of(next@).contains(x) <==> is_successor(s, x, w) by {
            lemma_found_row(s, x, w, 0);
        }
    }
    next
}

/// The number of channels of the output sets of a layer; none for none.
pub open spec fn width_of(sets: Seq<OutputSet>) -> nat {
    if sets.len() > 0 {
        sets[0].width()
    } else {
        0
    }
}

/// The output sets of `layer` that no other output set of it subsumes under
/// a permutation of the channels: none of them subsumes another, and every
/// output set of the layer is subsumed by one of them.
pub fn prune(layer: Vec<OutputSet>) -> (r: Vec<OutputSet>)
    requires
        all_sets_ok(layer@, width_of(layer@)),
    ensures
        all_sets_ok(r@, width_of(layer@)),
        is_antichain(values_of(r@), width_of(layer@)),
        all_among(values_of(r@), values_of(layer@)),
        covers(values_of(r@), values_of(layer@), width_of(layer@)),
        r@.len() <= layer@.len(),
{
    let ghost w = width_of(layer@);
    let ghost given = values_of(layer@);
    let ghost sets = layer@;
    let ghost count = layer@.len();
    let size = layer.len();
    let mut stack = reversed(layer);
    let mut index: SubsumeIndex<()> = SubsumeIndex::default();
    proof {
        assert(given.take(0) =~= Seq::<Seq<u16>>::empty());
        lemma_covers_nothing(index.sets(), w);
        assert(index.sets() =~= Seq::<Seq<u16>>::empty());
        lemma_covers_nothing(Seq::<Seq<u16>>::empty(), w);
    }
    while stack.len() > 0
        invariant
            sets.len() == count == size,
            given == values_of(sets),
            all_sets_ok(sets, w),
            stack@.len() <= count,
            forall|k: int| 0 <= k < stack@.len() ==> stack@[k] == sets[count - 1 - k],
            index.wf(),
            index.sets().len() > 0 ==> index.width() == w,
            index.sets().len() <= count - stack@.len(),
            all_among(index.sets(), given.take(count - stack@.len())),
            covers(index.sets(), given.take(count - stack@.len()), w),
        decreases stack@.len(),
    {
        let ghost done = count - stack@.len();
        let ghost held = index.sets();
        let set = stack.pop().unwrap();
        proof {
            assert(set == sets[done]);
            assert(sets[done].wf());
            assert(given.take(done + 1) =~= given.take(done).push(set@));
        }
        index.insert(AbstractedPair::new(set, ()));
        proof {
            lemma_pushed(held, given.take(done), set@, w);
            lemma_among_transitive(index.sets(), held.push(set@), given.take(done + 1));
            lemma_covers_transitive(index.sets(), held.push(set@), given.take(done + 1), w);
        }
    }
    proof {
        assert(given.take(count as int) =~= given);
    }
    let ghost before = index.sets();
    let ghost width = index.width();
    index.subsume_all();
    proof {
        if before.len() > 0 {
            lemma_among_transitive(index.sets(), before, given);
            lemma_covers_transitive(index.sets(), before, given, w);
        } else {
            assert(index.sets() =~= Seq::<Seq<u16>>::empty());
            lemma_covers_nothing(given, w);
            index.lemma_sets();
            assert(given =~= Seq::<Seq<u16>>::empty()) by {
                reveal(covers);
                if given.len() > 0 {
                    assert(crate::antichain::some_subsumes(before, given[0], w));
                }
            }
            lemma_covers_nothing(index.sets(), w);
            assert(is_antichain(index.sets(), w));
        }
    }
    let ghost kept = index.sets();
    let in_order = index.into_pairs();
    let ghost listed = in_order@;
    let mut pairs = reversed(in_order);
    let ghost all = pairs@;
    proof {
        assert forall|k: int| 0 <= k < all.len() implies (#[trigger] all[k]).wf() && all[k].width() == w
            && all[k]@.set == kept[all.len() - 1 - k] by {
            let from = all.len() - 1 - k;
            assert(all[k] == listed[from]);
            assert(listed[from].wf());
            assert(sets_of(views(listed))[from] == listed[from]@.set);
        }
    }
    let mut out: Vec<OutputSet> = Vec::new();
    while pairs.len() > 0
        invariant
            pairs@.len() <= all.len() == kept.len(),
            forall|k: int| 0 <= k < pairs@.len() ==> pairs@[k] == all[k],
            forall|k: int| 0 <= k < all.len() ==> (#[trigger] all[k]).wf() && all[k].width() == w
                && all[k]@.set == kept[all.len() - 1 - k],
            out@.len() + pairs@.len() == all.len(),
            all_sets_ok(out@, w),
            forall|k: int| 0 <= k < out@.len() ==> (#[trigger] out@[k])@ == kept[k],
        decreases pairs@.len(),
    {
        let ghost at = pairs@.len() - 1;
        let ghost done = out@;
        let pair = pairs.pop().unwrap();
        out.push(pair.output_set);
        proof {
            assert(pair == all[at]);
            assert(all[at].wf());
            assert forall|k: int| 0 <= k < out@.len() implies (#[trigger] out@[k]).wf() && out@[k].width()
                == w && out@[k]@ == kept[k] by {
                if k < done.len() {
                    assert(out@[k] == done[k]);
                }
            }
        }
    }
    proof {
        assert(values_of(out@) =~= kept);
    }
    out
}

} // verus!
