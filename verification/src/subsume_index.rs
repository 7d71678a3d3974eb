//! An index of output sets that keeps, of the sets it is given, those that
//! no other subsumes under a permutation of the channels.

use parking_lot::Mutex;
use vstd::prelude::*;
pub use crate::rounds::{admit_pair, merge_round, incremental_minimal_elements};
use crate::abstraction::{Abstraction, channel_le_spec};
use crate::antichain::{lemma_covers_nothing, lemma_covers_push, lemma_value_seqs_among, lemma_round_merged, lemma_among_transitive, lemma_none_subsumed_among, lemma_joined, none_subsumed, covers, lemma_covers_among, lemma_covers_both, lemma_among_both, lemma_among_part, lemma_covers_transitive, lemma_covers_reflexive, all_among, some_subsumes, is_antichain, all_value_seqs, not_subsumed_by, lemma_subsumption_reflexive, lemma_some_subsumes_among, lemma_antichain_rebuilt, lemma_antichain_filter, lemma_antichain_concat, lemma_filter_push, lemma_filter_facts};
use crate::bits::{has_bit, exchange_image, lemma_limit, lemma_ones_of_open_word, lemma_ones_of_single, lemma_small_value_bits, lemma_exchange_image};
use crate::fixed_vec::{CVec, indices, indices_clone, indices_swap};
use crate::matching::{Matching, Pairs, single, allowed_on, lemma_singles_differ, lemma_exchange_of_single};
use crate::output_set::{is_value_seq, OutputSet};
use crate::permutation::{identity, identity_seq, is_permutation};
use crate::solution::{admits, solves, solvable, graph, renamed_on_b, lemma_graph, lemma_renaming_keeps_solution, lemma_exchange_keeps_subsumption, lemma_subsumes_by_identity, lemma_diagonal_admits_identity, lemma_exchange_ones, lemma_total_ones_same};
use crate::subsumption::{is_abstraction_of, subsumes_permuted, subsumes_under_permutation, renamed, exchanged, arranged, lemma_arranged_exchanged, lemma_arranged_subsumes, lemma_arranged_by_identity, lemma_subsumption_bounds_counts};

verus! {

/// `parking_lot::RawMutex`, which `parking_lot::Mutex` is made with. Nothing
/// is known of what is inside.
#[verifier::external_type_specification]
#[verifier::external_body]
pub struct ExRawMutex(parking_lot::RawMutex);

/// `lock_api::Mutex`, of which `parking_lot::Mutex` is a case. Nothing is
/// known of what a mutex holds at any time.
#[verifier::external_type_specification]
#[verifier::external_body]
#[verifier::reject_recursive_types(R)]
#[verifier::reject_recursive_types(T)]
pub struct ExMutex<R, T: ?Sized>(parking_lot::lock_api::Mutex<R, T>);

/// What is kept with an output set in the index. When a set is found to be
/// subsumed by a set of the index, what was kept with it is handed to what
/// is kept with that set, together with the permutation of the channels
/// under which it is subsumed.
pub trait SubsumeIndexItem: Send + Sized {
    fn combine(&mut self, perm: CVec<usize>, other: Self);
}

impl SubsumeIndexItem for usize {
    /// Adds up, wrapping around at the largest value.
    fn combine(&mut self, perm: CVec<usize>, other: usize)
        ensures
            *final(self) == old(self).wrapping_add(other),
    {
        *self = self.wrapping_add(other);
    }
}

impl SubsumeIndexItem for () {
    fn combine(&mut self, perm: CVec<usize>, other: ()) {
    }
}

/// `parking_lot::Mutex::new`: a cell that holds `item`.
#[verifier::external_body]
fn cell_new<T>(item: T) -> (r: Mutex<T>) {
    Mutex::new(item)
}

/// `parking_lot::Mutex::into_inner`: what the cell holds.
#[verifier::external_body]
fn cell_into_inner<T>(cell: Mutex<T>) -> (r: T) {
    cell.into_inner()
}

/// The guard that `parking_lot::Mutex::lock` returns: while it lives, the
/// cell is locked. Verus refuses to have `lock_api::MutexGuard` declared, so
/// the guard is kept here, out of its sight.
#[verifier::external_body]
#[verifier::reject_recursive_types(T)]
struct CellGuard<'a, T> {
    guard: parking_lot::MutexGuard<'a, T>,
}

/// `parking_lot::Mutex::lock`: waits until the cell is free and locks it.
#[verifier::external_body]
fn cell_lock<T>(cell: &Mutex<T>) -> (r: CellGuard<'_, T>) {
    CellGuard { guard: cell.lock() }
}

/// `DerefMut::deref_mut` of the guard: what the locked cell holds. Nothing
/// is known of it.
#[verifier::external_body]
fn guard_mut<'a, 'b, T>(guard: &'a mut CellGuard<'b, T>) -> (r: &'a mut T) {
    &mut *guard.guard
}

/// What the index looks at in a pair: the values of the output set and the
/// counts of its abstraction.
pub struct PairView {
    pub set: Seq<u16>,
    pub counts: Seq<u16>,
}

impl PairView {
    /// Whether `set` is the values of an output set on `w` channels and
    /// `counts` its abstraction.
    pub open spec fn wf(self, w: nat) -> bool {
        &&& w <= 15
        &&& is_value_seq(self.set, w)
        &&& is_abstraction_of(self.counts, self.set, w)
    }
}

/// Whether every count of `a` is at most the count of `b` in the same place.
pub open spec fn counts_le(a: Seq<u16>, b: Seq<u16>) -> bool {
    &&& a.len() == b.len()
    &&& forall|i: int| 0 <= i < a.len() ==> a[i] <= b[i]
}

/// Whether some pair of `v` has the count `c` at position `p`.
pub open spec fn reached(v: Seq<PairView>, p: int, c: u16) -> bool {
    exists|i: int| 0 <= i < v.len() && (#[trigger] v[i]).counts[p] == c
}

/// Whether `lo` holds at every position the smallest, and `hi` the largest,
/// of the counts that the pairs of `v` have there.
#[verifier::opaque]
pub open spec fn spans(lo: Seq<u16>, hi: Seq<u16>, v: Seq<PairView>) -> bool {
    &&& lo.len() == hi.len()
    &&& forall|i: int|
        0 <= i < v.len() ==> counts_le(lo, (#[trigger] v[i]).counts) && counts_le(v[i].counts, hi)
    &&& forall|p: int| 0 <= p < lo.len() ==> #[trigger] reached(v, p, lo[p])
    &&& forall|p: int| 0 <= p < lo.len() ==> #[trigger] reached(v, p, hi[p])
}

/// How far apart the smallest and the largest count are at position `p`.
pub open spec fn spread(lo: Seq<u16>, hi: Seq<u16>, p: int) -> int {
    hi[p] - lo[p]
}

/// Whether `d` is the position at which the counts are furthest apart, the
/// last one if there are several, and the first position if they are the
/// same everywhere.
#[verifier::opaque]
pub open spec fn is_widest(lo: Seq<u16>, hi: Seq<u16>, d: int) -> bool {
    &&& 0 <= d < lo.len()
    &&& forall|p: int| 0 <= p < lo.len() ==> #[trigger] spread(lo, hi, p) <= spread(lo, hi, d)
    &&& forall|p: int| d < p < lo.len() ==> #[trigger] spread(lo, hi, p) < spread(lo, hi, d)
        || spread(lo, hi, d) == 0
    &&& spread(lo, hi, d) == 0 ==> d == 0
}

/// Whether the pairs `left` and `right`, whose smallest counts are `lo` and
/// whose largest are `hi`, are divided by their count at position `d`: no
/// pair of `left` has a larger one than a pair of `right`.
pub open spec fn splits(
    lo: Seq<u16>,
    hi: Seq<u16>,
    d: int,
    left: Seq<PairView>,
    right: Seq<PairView>,
) -> bool {
    &&& spans(lo, hi, left + right)
    &&& is_widest(lo, hi, d)
    &&& forall|i: int, j: int|
        0 <= i < left.len() && 0 <= j < right.len() ==> (#[trigger] left[i]).counts[d] <= (
        #[trigger] right[j]).counts[d]
}

/// Whether `lo` holds the smallest counts of the pairs `left` and `right`,
/// and the two are divided by their count at the position at which the
/// counts of all of them are furthest apart.
#[verifier::opaque]
pub open spec fn divided(lo: Seq<u16>, left: Seq<PairView>, right: Seq<PairView>) -> bool {
    exists|hi: Seq<u16>, d: int| #[trigger] splits(lo, hi, d, left, right)
}

/// Pairs whose output sets are among those of other pairs are among those
/// pairs.
pub proof fn lemma_views_among(a: Seq<PairView>, b: Seq<PairView>, w: nat)
    requires
        forall|i: int| 0 <= i < a.len() ==> (#[trigger] a[i]).wf(w),
        forall|j: int| 0 <= j < b.len() ==> (#[trigger] b[j]).wf(w),
        all_among(sets_of(a), sets_of(b)),
    ensures
        forall|i: int| 0 <= i < a.len() ==> b.contains(#[trigger] a[i]),
{
    reveal(all_among);
    assert forall|i: int| 0 <= i < a.len() implies b.contains(#[trigger] a[i]) by {
        assert(sets_of(b).contains(sets_of(a)[i]));
        let j = choose|j: int| 0 <= j < sets_of(b).len() && sets_of(b)[j] == sets_of(a)[i];
        lemma_counts_of_same_set(a[i], b[j], w);
        assert(b[j] == a[i]);
    }
}

/// The smallest and largest counts of some pairs, made smaller and larger
/// where one more pair asks for it, are those of the pairs with that pair.
pub proof fn lemma_spans_more(
    lo: Seq<u16>,
    hi: Seq<u16>,
    lower: Seq<u16>,
    higher: Seq<u16>,
    v: Seq<PairView>,
    x: PairView,
)
    requires
        spans(lo, hi, v),
        x.counts.len() == lo.len(),
        crate::abstraction::is_pointwise_min(lower, lo, x.counts),
        crate::abstraction::is_pointwise_max(higher, hi, x.counts),
    ensures
        spans(lower, higher, v.push(x)),
{
    reveal(spans);
    let more = v.push(x);
    assert forall|i: int| 0 <= i < more.len() implies counts_le(lower, (#[trigger] more[i]).counts)
        && counts_le(more[i].counts, higher) by {
        if i < v.len() {
            assert(more[i] == v[i]);
            assert(counts_le(lo, v[i].counts) && counts_le(v[i].counts, hi));
        }
    }
    assert forall|p: int| 0 <= p < lower.len() implies #[trigger] reached(more, p, lower[p]) by {
        if lower[p] == lo[p] {
            assert(reached(v, p, lo[p]));
            let i = choose|i: int| 0 <= i < v.len() && (#[trigger] v[i]).counts[p] == lo[p];
            assert(more[i].counts[p] == lower[p]);
        } else {
            assert(more[v.len() as int].counts[p] == lower[p]);
        }
    }
    assert forall|p: int| 0 <= p < lower.len() implies #[trigger] reached(more, p, higher[p]) by {
        if higher[p] == hi[p] {
            assert(reached(v, p, hi[p]));
            let i = choose|i: int| 0 <= i < v.len() && (#[trigger] v[i]).counts[p] == hi[p];
            assert(more[i].counts[p] == higher[p]);
        } else {
            assert(more[v.len() as int].counts[p] == higher[p]);
        }
    }
}

/// The counts of one pair are the smallest and the largest of that pair.
pub proof fn lemma_spans_one(x: PairView)
    ensures
        spans(x.counts, x.counts, seq![x]),
{
    reveal(spans);
    let one = seq![x];
    assert forall|p: int| 0 <= p < x.counts.len() implies #[trigger] reached(one, p, x.counts[p]) by {
        assert(one[0].counts[p] == x.counts[p]);
    }
}

/// The position that `Abstraction::largest_range` finds for the smallest and
/// the largest counts of some pairs, or the first position if it finds
/// none, is the position at which the counts are furthest apart.
pub proof fn lemma_widest(lo: Seq<u16>, hi: Seq<u16>, v: Seq<PairView>, found: Option<usize>)
    requires
        spans(lo, hi, v),
        v.len() > 0,
        lo.len() > 0,
        match found {
            Some(at) => {
                &&& at < lo.len()
                &&& crate::abstraction::range_at(lo, hi, at as int) > 0
                &&& forall|i: int|
                    0 <= i < lo.len() && i < hi.len() ==> crate::abstraction::range_at(lo, hi, i)
                        <= crate::abstraction::range_at(lo, hi, at as int)
                &&& forall|i: int|
                    at < i < lo.len() && i < hi.len() ==> crate::abstraction::range_at(lo, hi, i)
                        < crate::abstraction::range_at(lo, hi, at as int)
            },
            None => forall|i: int|
                0 <= i < lo.len() && i < hi.len() ==> crate::abstraction::range_at(lo, hi, i) == 0,
        },
    ensures
        is_widest(
            lo,
            hi,
            match found {
                Some(at) => at as int,
                None => 0,
            },
        ),
{
    reveal(spans);
    reveal(is_widest);
    assert(counts_le(lo, v[0].counts) && counts_le(v[0].counts, hi));
    assert forall|p: int| 0 <= p < lo.len() implies #[trigger] spread(lo, hi, p)
        == crate::abstraction::range_at(lo, hi, p) by {}
}

/// The smallest and largest counts of some pairs are those of every list
/// that holds the same pairs.
pub proof fn lemma_spans_same(lo: Seq<u16>, hi: Seq<u16>, v: Seq<PairView>, u: Seq<PairView>)
    requires
        spans(lo, hi, v),
        forall|i: int| 0 <= i < v.len() ==> u.contains(#[trigger] v[i]),
        forall|i: int| 0 <= i < u.len() ==> v.contains(#[trigger] u[i]),
    ensures
        spans(lo, hi, u),
{
    reveal(spans);
    assert forall|i: int| 0 <= i < u.len() implies counts_le(lo, (#[trigger] u[i]).counts)
        && counts_le(u[i].counts, hi) by {
        assert(v.contains(u[i]));
        let k = choose|k: int| 0 <= k < v.len() && v[k] == u[i];
        assert(counts_le(lo, v[k].counts));
    }
    assert forall|p: int| 0 <= p < lo.len() implies #[trigger] reached(u, p, lo[p]) by {
        assert(reached(v, p, lo[p]));
        let i = choose|i: int| 0 <= i < v.len() && (#[trigger] v[i]).counts[p] == lo[p];
        assert(u.contains(v[i]));
        let k = choose|k: int| 0 <= k < u.len() && u[k] == v[i];
        assert(u[k].counts[p] == lo[p]);
    }
    assert forall|p: int| 0 <= p < lo.len() implies #[trigger] reached(u, p, hi[p]) by {
        assert(reached(v, p, hi[p]));
        let i = choose|i: int| 0 <= i < v.len() && (#[trigger] v[i]).counts[p] == hi[p];
        assert(u.contains(v[i]));
        let k = choose|k: int| 0 <= k < u.len() && u[k] == v[i];
        assert(u[k].counts[p] == hi[p]);
    }
}

/// Pairs put in order of their count at the position at which their counts
/// are furthest apart, then cut in two, and each part made a tree, are
/// divided as the two halves of a tree are.
pub proof fn lemma_divided(
    lo: Seq<u16>,
    hi: Seq<u16>,
    d: int,
    kept: Seq<PairView>,
    lower: Seq<PairView>,
    upper: Seq<PairView>,
    left: Seq<PairView>,
    right: Seq<PairView>,
    w: nat,
)
    requires
        spans(lo, hi, kept),
        is_widest(lo, hi, d),
        forall|k: int| 0 <= k < kept.len() ==> (lower + upper).contains(#[trigger] kept[k]),
        forall|k: int| 0 <= k < (lower + upper).len() ==> kept.contains(#[trigger] (lower + upper)[k]),
        forall|i: int, j: int|
            0 <= i < lower.len() && 0 <= j < upper.len() ==> (#[trigger] lower[i]).counts[d] <= (
            #[trigger] upper[j]).counts[d],
        forall|i: int| 0 <= i < lower.len() ==> (#[trigger] lower[i]).wf(w),
        forall|i: int| 0 <= i < upper.len() ==> (#[trigger] upper[i]).wf(w),
        forall|i: int| 0 <= i < left.len() ==> (#[trigger] left[i]).wf(w),
        forall|i: int| 0 <= i < right.len() ==> (#[trigger] right[i]).wf(w),
        all_among(sets_of(left), sets_of(lower)),
        all_among(sets_of(lower), sets_of(left)),
        all_among(sets_of(right), sets_of(upper)),
        all_among(sets_of(upper), sets_of(right)),
    ensures
        divided(lo, left, right),
{
    reveal(divided);
    reveal(is_widest);
    let sorted = lower + upper;
    let leaves = left + right;
    lemma_views_among(left, lower, w);
    lemma_views_among(lower, left, w);
    lemma_views_among(right, upper, w);
    lemma_views_among(upper, right, w);
    lemma_spans_same(lo, hi, kept, sorted);
    assert forall|i: int| 0 <= i < sorted.len() implies leaves.contains(#[trigger] sorted[i]) by {
        if i < lower.len() {
            assert(left.contains(lower[i]));
            let k = choose|k: int| 0 <= k < left.len() && left[k] == lower[i];
            assert(leaves[k] == sorted[i]);
        } else {
            assert(right.contains(upper[i - lower.len()]));
            let k = choose|k: int| 0 <= k < right.len() && right[k] == upper[i - lower.len()];
            assert(leaves[left.len() + k] == sorted[i]);
        }
    }
    assert forall|i: int| 0 <= i < leaves.len() implies sorted.contains(#[trigger] leaves[i]) by {
        if i < left.len() {
            assert(lower.contains(left[i]));
            let k = choose|k: int| 0 <= k < lower.len() && lower[k] == left[i];
            assert(sorted[k] == leaves[i]);
        } else {
            assert(upper.contains(right[i - left.len()]));
            let k = choose|k: int| 0 <= k < upper.len() && upper[k] == right[i - left.len()];
            assert(sorted[lower.len() + k] == leaves[i]);
        }
    }
    lemma_spans_same(lo, hi, sorted, leaves);
    assert forall|i: int, j: int| 0 <= i < left.len() && 0 <= j < right.len() implies (
    #[trigger] left[i]).counts[d] <= (#[trigger] right[j]).counts[d] by {
        assert(lower.contains(left[i]));
        let a = choose|a: int| 0 <= a < lower.len() && lower[a] == left[i];
        assert(upper.contains(right[j]));
        let b = choose|b: int| 0 <= b < upper.len() && upper[b] == right[j];
        assert(lower[a].counts[d] <= upper[b].counts[d]);
    }
    assert(splits(lo, hi, d, left, right));
}

/// The output sets of `v`, in order.
pub open spec fn sets_of(v: Seq<PairView>) -> Seq<Seq<u16>> {
    Seq::new(v.len(), |i: int| v[i].set)
}

/// An output set with its abstraction and what is kept with it.
#[derive(Clone, Debug)]
pub struct AbstractedPair<T> {
    pub abstraction: Abstraction,
    pub output_set: OutputSet,
    pub item: T,
}

impl<T> View for AbstractedPair<T> {
    type V = PairView;

    open spec fn view(&self) -> PairView {
        PairView { set: self.output_set@, counts: self.abstraction@ }
    }
}

/// The views of `items`, in order.
pub open spec fn views<T>(items: Seq<AbstractedPair<T>>) -> Seq<PairView> {
    Seq::new(items.len(), |i: int| items[i]@)
}

impl<T> AbstractedPair<T> {
    /// The number of channels.
    pub open spec fn width(&self) -> nat {
        self.output_set.width()
    }

    /// The invariant of a pair: the abstraction is that of the output set.
    pub open spec fn wf(&self) -> bool {
        &&& self.output_set.wf()
        &&& self.abstraction.wf()
        &&& self.abstraction.width() == self.output_set.width()
        &&& self@.wf(self.width())
    }

    /// The pair of `output_set`, its abstraction and `item`.
    pub fn new(output_set: OutputSet, item: T) -> (r: Self)
        requires
            output_set.wf(),
        ensures
            r.wf(),
            r.output_set == output_set,
            r.item == item,
    {
        let abstraction = output_set.abstraction();
        AbstractedPair { abstraction, output_set, item }
    }

    fn mutex_wrap(self) -> (r: AbstractedPair<Mutex<T>>)
        ensures
            r.abstraction == self.abstraction,
            r.output_set == self.output_set,
    {
        let AbstractedPair { abstraction, output_set, item } = self;
        AbstractedPair { abstraction, output_set, item: cell_new(item) }
    }
}

impl<T> AbstractedPair<Mutex<T>> {
    fn mutex_unwrap(self) -> (r: AbstractedPair<T>)
        ensures
            r.abstraction == self.abstraction,
            r.output_set == self.output_set,
    {
        let AbstractedPair { abstraction, output_set, item } = self;
        AbstractedPair { abstraction, output_set, item: cell_into_inner(item) }
    }
}

/// A tree of pairs. An inner node has as its abstraction the smallest counts
/// of the pairs below it, place by place, and its two halves are divided by
/// the count at the place where the counts of those pairs are furthest
/// apart: no pair of the left half has a larger one than a pair of the
/// right half.
#[verifier::reject_recursive_types(T)]
pub enum Node<T> {
    Leaf(AbstractedPair<Mutex<T>>),
    Inner { abstraction: Abstraction, left: Box<Node<T>>, right: Box<Node<T>>, len: usize },
}

impl<T> Node<T> {
    /// The pairs at the leaves, left to right.
    pub open spec fn leaves(self) -> Seq<PairView>
        decreases self,
    {
        match self {
            Node::Leaf(pair) => seq![pair@],
            Node::Inner { left, right, .. } => left.leaves() + right.leaves(),
        }
    }

    /// The output sets at the leaves, left to right.
    pub open spec fn sets(self) -> Seq<Seq<u16>> {
        sets_of(self.leaves())
    }

    /// The number of channels.
    pub open spec fn width(self) -> nat {
        match self {
            Node::Leaf(pair) => pair.width(),
            Node::Inner { abstraction, .. } => abstraction.width(),
        }
    }

    /// The counts of the node: those of the pair at a leaf, the lower bounds
    /// at an inner node.
    pub open spec fn counts(self) -> Seq<u16> {
        match self {
            Node::Leaf(pair) => pair.abstraction@,
            Node::Inner { abstraction, .. } => abstraction@,
        }
    }

    /// The invariant of a tree.
    pub open spec fn wf(self) -> bool
        decreases self,
    {
        match self {
            Node::Leaf(pair) => pair.wf(),
            Node::Inner { abstraction, left, right, len } => {
                &&& left.wf()
                &&& right.wf()
                &&& abstraction.wf()
                &&& left.width() == abstraction.width()
                &&& right.width() == abstraction.width()
                &&& len == left.leaves().len() + right.leaves().len()
                &&& forall|i: int|
                    0 <= i < self.leaves().len() ==> counts_le(
                        abstraction@,
                        (#[trigger] self.leaves()[i]).counts,
                    )
                &&& divided(abstraction@, left.leaves(), right.leaves())
            },
        }
    }

    /// In a tree every leaf holds a pair on the channels of the tree, the
    /// counts of the root are lower bounds for it, and there is a leaf.
    pub proof fn lemma_leaves(self)
        requires
            self.wf(),
        ensures
            self.leaves().len() >= 1,
            self.width() <= 15,
            self.counts().len() == 2 * self.width() * self.width(),
            forall|i: int|
                0 <= i < self.leaves().len() ==> (#[trigger] self.leaves()[i]).wf(self.width())
                    && counts_le(self.counts(), self.leaves()[i].counts),
        decreases self,
    {
        match self {
            Node::Leaf(pair) => {},
            Node::Inner { abstraction, left, right, len } => {
                left.lemma_leaves();
                right.lemma_leaves();
                assert forall|i: int| 0 <= i < self.leaves().len() implies (
                #[trigger] self.leaves()[i]).wf(self.width()) && counts_le(
                    self.counts(),
                    self.leaves()[i].counts,
                ) by {
                    if i < left.leaves().len() {
                        assert(self.leaves()[i] == left.leaves()[i]);
                    } else {
                        assert(self.leaves()[i] == right.leaves()[i - left.leaves().len()]);
                    }
                }
            },
        }
    }
}

/// Whether `items` are pairs on `w` channels.
pub open spec fn all_pairs<T>(items: Seq<AbstractedPair<T>>, w: nat) -> bool {
    forall|i: int| 0 <= i < items.len() ==> (#[trigger] items[i]).wf() && items[i].width() == w
}

/// The output sets of pairs on `w` channels are value sequences on `w`
/// channels.
pub proof fn lemma_sets_of_pairs<T>(items: Seq<AbstractedPair<T>>, w: nat)
    requires
        all_pairs(items, w),
    ensures
        all_value_seqs(sets_of(views(items)), w),
        w <= 15 || items.len() == 0,
{
    assert forall|i: int| 0 <= i < sets_of(views(items)).len() implies is_value_seq(
        #[trigger] sets_of(views(items))[i],
        w,
    ) by {
        assert(items[i].wf());
    }
    if items.len() > 0 {
        assert(items[0].wf());
    }
}

/// `items` in the opposite order.
pub(crate) fn reversed<X>(items: Vec<X>) -> (r: Vec<X>)
    ensures
        r@.len() == items@.len(),
        forall|i: int| 0 <= i < r@.len() ==> r@[i] == items@[items@.len() - 1 - i],
{
    let mut items = items;
    let ghost given = items@;
    let mut out: Vec<X> = Vec::new();
    while items.len() > 0
        invariant
            items@.len() + out@.len() == given.len(),
            forall|i: int| 0 <= i < items@.len() ==> items@[i] == given[i],
            forall|i: int| 0 <= i < out@.len() ==> out@[i] == given[given.len() - 1 - i],
        decreases items@.len(),
    {
        let item = items.pop().unwrap();
        out.push(item);
    }
    out
}

/// Whether a tree can be built from `items`: there is one, and all are pairs
/// on the same channels.
pub open spec fn buildable<T>(items: Seq<AbstractedPair<T>>) -> bool {
    &&& items.len() > 0
    &&& forall|i: int|
        0 <= i < items.len() ==> (#[trigger] items[i]).wf() && items[i].width() == items[0].width()
}

/// Whether `node` is a tree of the output sets of `items`: it has each of
/// them at a leaf and no other, and no more leaves than there are items.
pub open spec fn built_from<T>(node: Node<T>, items: Seq<AbstractedPair<T>>) -> bool {
    &&& node.wf()
    &&& node.width() == items[0].width()
    &&& node.leaves().len() <= items.len()
    &&& all_among(node.sets(), sets_of(views(items)))
    &&& all_among(sets_of(views(items)), node.sets())
}

/// `<[AbstractedPair<T>]>::sort_unstable_by_key` with the count at position
/// `index` as the key: puts the pairs in ascending order of that count; the
/// vector holds the same pairs as before, each as often as before.
#[verifier::external_body]
fn sort_by_count<T>(items: &mut Vec<AbstractedPair<T>>, index: usize)
    requires
        forall|i: int| 0 <= i < old(items)@.len() ==> index < (#[trigger] old(items)@[i]).abstraction@.len(),
    ensures
        final(items)@.to_multiset() == old(items)@.to_multiset(),
        forall|i: int, j: int|
            0 <= i < j < final(items)@.len() ==> final(items)@[i].abstraction@[index as int]
                <= final(items)@[j].abstraction@[index as int],
{
    items.sort_unstable_by_key(|pair| pair.abstraction.values()[index])
}

/// `rayon::join` on the building of two trees: runs both, possibly at the
/// same time, and returns what the two return.
#[verifier::external_body]
fn build_both<T: SubsumeIndexItem>(left: Vec<AbstractedPair<T>>, right: Vec<AbstractedPair<T>>) -> (r:
    (Node<T>, Node<T>))
    requires
        buildable(left@),
        buildable(right@),
    ensures
        built_from(r.0, left@),
        built_from(r.1, right@),
{
    rayon::join(|| Node::new(left), || Node::new(right))
}

/// On no channels there is one output set.
proof fn lemma_single_value_seq(s: Seq<u16>, t: Seq<u16>)
    requires
        is_value_seq(s, 0),
        is_value_seq(t, 0),
    ensures
        s == t,
{
    vstd::arithmetic::power2::lemma2_to64();
    if s.len() > 1 {
        assert(s[0] < s[1]);
    }
    if t.len() > 1 {
        assert(t[0] < t[1]);
    }
    assert(s =~= t);
}

/// Combines `other`, which was kept with the output set `query`, into what
/// is kept with `node_pair`, whose output set subsumes `query` under `perm`:
/// every value of it is a value of `query` with channel `k` carrying what
/// channel `perm[k]` carried.
fn combine_into<T: SubsumeIndexItem>(
    node_pair: &AbstractedPair<Mutex<T>>,
    perm: CVec<usize>,
    other: T,
    Ghost(query): Ghost<Seq<u16>>,
)
    requires
        is_permutation(indices(perm), node_pair.output_set.width()),
        subsumes_permuted(node_pair.output_set@, query, indices(perm)),
{
    let mut guard = cell_lock(&node_pair.item);
    let item = guard_mut(&mut guard);
    item.combine(perm, other);
}

impl<T: SubsumeIndexItem> Node<T> {
    /// A tree of the output sets of `items`. Where the last items have the
    /// same output set, what is kept with them is combined into the first
    /// of them.
    pub fn new(items: Vec<AbstractedPair<T>>) -> (r: Self)
        requires
            buildable(items@),
        ensures
            built_from(r, items@),
    {
        let mut items = items;
        let ghost given = items@;
        let channels = items[0].output_set.channels();
        proof {
            reveal(all_among);
        }
        loop
            invariant
                buildable(items@),
                buildable(given),
                items@.len() <= given.len(),
                items@[0].width() == given[0].width() == channels,
                all_among(sets_of(views(items@)), sets_of(views(given))),
                all_among(sets_of(views(given)), sets_of(views(items@))),
            ensures
                items@.len() >= 2 ==> items@[items@.len() - 1].output_set@ != items@[items@.len()
                    - 2].output_set@,
            decreases items@.len(),
        {
            let count = items.len();
            if count < 2 {
                break ;
            }
            if !items[count - 1].output_set.same_as(&items[count - 2].output_set) {
                break ;
            }
            let ghost before = items@;
            let last = items.pop().unwrap();
            let mut first = items.pop().unwrap();
            first.item.combine(identity(channels), last.item);
            items.push(first);
            proof {
                reveal(all_among);
                let now = items@;
                assert forall|i: int| 0 <= i < now.len() implies (#[trigger] now[i]).wf()
                    && now[i].width() == now[0].width() && now[i]@ == before[i]@ by {
                    assert(before[i].wf());
                }
                assert forall|i: int| 0 <= i < sets_of(views(now)).len() implies sets_of(
                    views(given),
                ).contains(#[trigger] sets_of(views(now))[i]) by {
                    assert(sets_of(views(now))[i] == sets_of(views(before))[i]);
                }
                assert forall|i: int| 0 <= i < sets_of(views(given)).len() implies sets_of(
                    views(now),
                ).contains(#[trigger] sets_of(views(given))[i]) by {
                    let x = sets_of(views(given))[i];
                    assert(sets_of(views(before)).contains(x));
                    let j = choose|j: int|
                        0 <= j < sets_of(views(before)).len() && sets_of(views(before))[j] == x;
                    let k = if j == count - 1 {
                        count - 2
                    } else {
                        j
                    };
                    assert(sets_of(views(now))[k] == x);
                }
            }
        }
        let count = items.len();
        if count == 1 {
            let ghost only = items@;
            let pair = items.pop().unwrap();
            let node = Node::Leaf(pair.mutex_wrap());
            proof {
                assert(only[0].wf());
                assert(node.sets() =~= sets_of(views(only)));
            }
            return node;
        }
        let ghost kept = items@;
        proof {
            // two different output sets need a channel
            if channels == 0 {
                lemma_single_value_seq(kept[count - 1].output_set@, kept[count - 2].output_set@);
            }
            assert(kept[0].wf());
            assert(2 * (channels as nat) * (channels as nat) > 0) by (nonlinear_arith)
                requires
                    channels >= 1,
            ;
        }
        let mut min_abstraction = items[0].abstraction.clone();
        let mut max_abstraction = items[0].abstraction.clone();
        let mut at: usize = 1;
        proof {
            lemma_spans_one(kept[0]@);
            assert(views(kept).take(1) =~= seq![kept[0]@]);
        }
        while at < count
            invariant
                1 <= at <= count == items@.len(),
                items@ == kept,
                buildable(kept),
                kept[0].width() == channels,
                min_abstraction.wf(),
                max_abstraction.wf(),
                min_abstraction.width() == channels,
                max_abstraction.width() == channels,
                forall|i: int| 0 <= i < at ==> counts_le(min_abstraction@, (#[trigger] kept[i])@.counts),
                spans(min_abstraction@, max_abstraction@, views(kept).take(at as int)),
            decreases count - at,
        {
            let ghost low = min_abstraction@;
            let ghost high = max_abstraction@;
            assert(kept[at as int].wf());
            min_abstraction.update_min(&items[at].abstraction);
            max_abstraction.update_max(&items[at].abstraction);
            proof {
                assert(views(kept).take(at + 1) =~= views(kept).take(at as int).push(
                    kept[at as int]@,
                ));
                lemma_spans_more(
                    low,
                    high,
                    min_abstraction@,
                    max_abstraction@,
                    views(kept).take(at as int),
                    kept[at as int]@,
                );
            }
            proof {
                assert forall|i: int| 0 <= i < at + 1 implies counts_le(
                    min_abstraction@,
                    (#[trigger] kept[i])@.counts,
                ) by {
                    if i < at {
                        assert(counts_le(low, kept[i]@.counts));
                    }
                }
            }
            at += 1;
        }
        let found = min_abstraction.largest_range(&max_abstraction);
        let index = match found {
            Some(index) => index,
            None => 0,
        };
        let ghost lo = min_abstraction@;
        let ghost hi = max_abstraction@;
        proof {
            assert(views(kept).take(count as int) =~= views(kept));
            lemma_widest(lo, hi, views(kept), found);
        }
        proof {
            assert forall|i: int| 0 <= i < kept.len() implies index < (
            #[trigger] kept[i]).abstraction@.len() by {
                assert(kept[i].wf());
            }
        }
        sort_by_count(&mut items, index);
        let ghost sorted = items@;
        proof {
            vstd::seq_lib::to_multiset_len(kept);
            vstd::seq_lib::to_multiset_len(sorted);
            assert forall|x: AbstractedPair<T>| sorted.contains(x) == kept.contains(x) by {
                vstd::seq_lib::to_multiset_contains(kept, x);
                vstd::seq_lib::to_multiset_contains(sorted, x);
            }
            assert forall|i: int| 0 <= i < sorted.len() implies (#[trigger] sorted[i]).wf()
                && sorted[i].width() == channels && counts_le(
                min_abstraction@,
                sorted[i]@.counts,
            ) && sets_of(views(kept)).contains(sorted[i]@.set) by {
                assert(sorted.contains(sorted[i]));
                let j = choose|j: int| 0 <= j < kept.len() && kept[j] == sorted[i];
                assert(kept[j].wf());
                assert(sets_of(views(kept))[j] == sorted[i]@.set);
            }
        }
        let upper = items.split_off(count / 2);
        let lower = items;
        proof {
            assert(lower@ =~= sorted.subrange(0, (count / 2) as int));
            assert(upper@ =~= sorted.subrange((count / 2) as int, count as int));
            assert forall|i: int| 0 <= i < lower@.len() implies (#[trigger] lower@[i]).wf()
                && lower@[i].width() == lower@[0].width() by {
                assert(lower@[i] == sorted[i]);
                assert(lower@[0] == sorted[0]);
            }
            assert forall|i: int| 0 <= i < upper@.len() implies (#[trigger] upper@[i]).wf()
                && upper@[i].width() == upper@[0].width() by {
                assert(upper@[i] == sorted[i + count / 2]);
                assert(upper@[0] == sorted[(count / 2) as int]);
            }
        }
        let (left, right) = build_both(lower, upper);
        let len = left.len() + right.len();
        let node = Node::Inner {
            abstraction: min_abstraction,
            left: Box::new(left),
            right: Box::new(right),
            len,
        };
        proof {
            left.lemma_leaves();
            right.lemma_leaves();
            assert(views(sorted) =~= views(lower@) + views(upper@));
            assert forall|k: int| 0 <= k < kept.len() implies views(sorted).contains(
                #[trigger] views(kept)[k],
            ) by {
                assert(sorted.contains(kept[k]));
                let j = choose|j: int| 0 <= j < sorted.len() && sorted[j] == kept[k];
                assert(views(sorted)[j] == views(kept)[k]);
            }
            assert forall|k: int| 0 <= k < sorted.len() implies views(kept).contains(
                #[trigger] views(sorted)[k],
            ) by {
                assert(sorted.contains(sorted[k]));
                let j = choose|j: int| 0 <= j < kept.len() && kept[j] == sorted[k];
                assert(views(kept)[j] == views(sorted)[k]);
            }
            assert forall|i: int, j: int|
                0 <= i < lower@.len() && 0 <= j < upper@.len() implies (#[trigger] views(
                lower@,
            )[i]).counts[index as int] <= (#[trigger] views(upper@)[j]).counts[index as int] by {
                assert(lower@[i] == sorted[i]);
                assert(upper@[j] == sorted[j + count / 2]);
            }
            assert forall|i: int| 0 <= i < lower@.len() implies (#[trigger] views(lower@)[i]).wf(
                channels as nat,
            ) by {
                assert(lower@[i].wf());
            }
            assert forall|i: int| 0 <= i < upper@.len() implies (#[trigger] views(upper@)[i]).wf(
                channels as nat,
            ) by {
                assert(upper@[i].wf());
            }
            lemma_divided(
                lo,
                hi,
                index as int,
                views(kept),
                views(lower@),
                views(upper@),
                left.leaves(),
                right.leaves(),
                channels as nat,
            );
        }
        proof {
            let all = node.leaves();
            assert(node.sets() =~= left.sets() + right.sets());
            assert forall|i: int| 0 <= i < all.len() implies counts_le(
                min_abstraction@,
                (#[trigger] all[i]).counts,
            ) && sets_of(views(given)).contains(sets_of(all)[i]) by {
                left.lemma_leaves();
                right.lemma_leaves();
                let v = all[i];
                let on_left = i < left.leaves().len();
                if on_left {
                    assert(v == left.leaves()[i]);
                    assert(left.sets()[i] == v.set);
                    assert(sets_of(views(lower@)).contains(left.sets()[i]));
                    let j = choose|j: int|
                        0 <= j < sets_of(views(lower@)).len() && sets_of(views(lower@))[j]
                            == v.set;
                    assert(lower@[j] == sorted[j]);
                    lemma_counts_of_same_set(v, sorted[j]@, channels as nat);
                } else {
                    let k = i - left.leaves().len();
                    assert(v == right.leaves()[k]);
                    assert(right.sets()[k] == v.set);
                    assert(sets_of(views(upper@)).contains(right.sets()[k]));
                    let j = choose|j: int|
                        0 <= j < sets_of(views(upper@)).len() && sets_of(views(upper@))[j]
                            == v.set;
                    assert(upper@[j] == sorted[j + count / 2]);
                    lemma_counts_of_same_set(v, sorted[j + count / 2]@, channels as nat);
                }
                assert(sets_of(views(kept)).contains(v.set));
                let m = choose|m: int|
                    0 <= m < sets_of(views(kept)).len() && sets_of(views(kept))[m] == v.set;
                assert(sets_of(views(given)).contains(sets_of(views(kept))[m]));
            }
            assert forall|i: int| 0 <= i < sets_of(views(given)).len() implies node.sets().contains(
                #[trigger] sets_of(views(given))[i],
            ) by {
                let x = sets_of(views(given))[i];
                assert(sets_of(views(kept)).contains(x));
                let j = choose|j: int|
                    0 <= j < sets_of(views(kept)).len() && sets_of(views(kept))[j] == x;
                assert(sorted.contains(kept[j]));
                let k = choose|k: int| 0 <= k < sorted.len() && sorted[k] == kept[j];
                if k < count / 2 {
                    assert(lower@[k] == sorted[k]);
                    assert(sets_of(views(lower@))[k] == x);
                    assert(left.sets().contains(sets_of(views(lower@))[k]));
                    let l = choose|l: int| 0 <= l < left.sets().len() && left.sets()[l] == x;
                    assert(node.sets()[l] == x);
                } else {
                    assert(upper@[k - count / 2] == sorted[k]);
                    assert(sets_of(views(upper@))[k - count / 2] == x);
                    assert(right.sets().contains(sets_of(views(upper@))[k - count / 2]));
                    let l = choose|l: int| 0 <= l < right.sets().len() && right.sets()[l] == x;
                    assert(node.sets()[l + left.sets().len()] == x);
                }
            }
        }
        node
    }

    /// Looks for a pair of the tree that subsumes `pair` under a permutation
    /// of the channels. If there is one, what is kept with `pair` is
    /// combined into what is kept with the first that is found; if there is
    /// none, `pair` is handed back.
    pub fn combine_with_subsuming(&self, pair: AbstractedPair<T>) -> (r: Result<
        (),
        AbstractedPair<T>,
    >)
        requires
            self.wf(),
            pair.wf(),
            pair.width() == self.width(),
        ensures
            r is Ok <==> some_subsumes(self.sets(), pair@.set, self.width()),
            r is Err ==> r->Err_0@ == pair@ && r->Err_0.item == pair.item && r->Err_0.wf()
                && r->Err_0.width() == pair.width(),
    {
        let channels = pair.output_set.channels();
        let matching = Matching::new(channels);
        let r = self.combine_with_subsuming_rec(pair, matching);
        proof {
            if r is Err && some_subsumes(self.sets(), pair@.set, self.width()) {
                let i = choose|i: int|
                    0 <= i < self.sets().len() && subsumes_under_permutation(
                        #[trigger] self.sets()[i],
                        pair@.set,
                        self.width(),
                    );
                let p = choose|p: Seq<usize>|
                    is_permutation(p, self.width()) && #[trigger] subsumes_permuted(
                        self.sets()[i],
                        pair@.set,
                        p,
                    );
                assert(admits(matching@, p));
                assert(solves(self.sets()[i], pair@.set, matching@, p));
            }
        }
        r
    }

    /// As `combine_with_subsuming`, for the permutations that `matching`
    /// admits.
    fn combine_with_subsuming_rec(&self, pair: AbstractedPair<T>, matching: Matching) -> (r: Result<
        (),
        AbstractedPair<T>,
    >)
        requires
            self.wf(),
            pair.wf(),
            pair.width() == self.width(),
            matching.wf(),
            !matching.failed(),
            matching@.settled(),
            matching.width() == self.width(),
        ensures
            r is Ok ==> some_subsumes(self.sets(), pair@.set, self.width()),
            r is Err ==> r->Err_0@ == pair@ && r->Err_0.item == pair.item && r->Err_0.wf()
                && r->Err_0.width() == pair.width(),
            r is Err ==> forall|i: int|
                0 <= i < self.sets().len() ==> !solvable(
                    #[trigger] self.sets()[i],
                    pair@.set,
                    matching@,
                ),
        decreases self,
    {
        let mut matching = matching;
        let ghost given = matching@;
        let ghost w = self.width();
        let node_abstraction = self.abstraction();
        let pair_abstraction = &pair.abstraction;
        let test = |node_channel: usize, pair_channel: usize| -> (keep: bool)
            requires
                node_channel < w,
                pair_channel < w,
                node_abstraction.wf(),
                pair_abstraction.wf(),
                node_abstraction.width() == w,
                pair_abstraction.width() == w,
            ensures
                keep == channel_le_spec(
                    node_abstraction@,
                    node_channel as nat,
                    pair_abstraction@,
                    pair_channel as nat,
                    w,
                ),
            { node_abstraction.channel_le(node_channel, pair_abstraction, pair_channel) };
        let failed = matching.filter(test);
        proof {
            self.lemma_leaves();
            // a solution for a leaf passes the test wherever it relates channels
            assert forall|i: int, p: Seq<usize>|
                0 <= i < self.sets().len() && #[trigger] solves(
                    self.sets()[i],
                    pair@.set,
                    given,
                    p,
                ) implies !failed && solves(self.sets()[i], pair@.set, matching@, p) by {
                let leaf = self.leaves()[i];
                assert(self.sets()[i] == leaf.set);
                lemma_graph(p, w);
                let g = graph(p);
                assert forall|x: usize, y: usize|
                    x < g.width() && y < g.width() && #[trigger] g.has(
                        x as int,
                        y as int,
                    ) implies !call_ensures(test, (x, y), false) by {
                    assert(g.row_is(x as int, p[x as int] as int));
                    lemma_singles_differ(p[x as int] as int, y as int);
                    lemma_subsumption_bounds_counts(
                        leaf.set,
                        leaf.counts,
                        pair@.set,
                        pair@.counts,
                        p,
                        w as u16,
                        x as int,
                    );
                    lemma_channel_le_through(
                        self.counts(),
                        leaf.counts,
                        pair@.counts,
                        x as nat,
                        y as nat,
                        w,
                    );
                }
                assert(allowed_on(g, test));
                assert(g.within(given));
                assert(g.within(matching@));
            }
        }
        if failed {
            proof {
                assert forall|i: int| 0 <= i < self.sets().len() implies !solvable(
                    #[trigger] self.sets()[i],
                    pair@.set,
                    given,
                ) by {
                    if solvable(self.sets()[i], pair@.set, given) {
                        let p = choose|p: Seq<usize>|
                            #[trigger] solves(self.sets()[i], pair@.set, given, p);
                    }
                }
            }
            return Err(pair);
        }
        let ghost filtered = matching@;
        match self {
            Node::Leaf(node_pair) => {
                let perm = identity(node_pair.output_set.channels());
                proof {
                    assert(node_pair.wf());
                    lemma_arranged_by_identity(pair@.set, w as u16);
                }
                let r = Self::combine_permuted(
                    node_pair,
                    pair,
                    perm,
                    matching,
                    Ghost(pair@.set),
                );
                proof {
                    assert(self.sets() =~= seq![node_pair.output_set@]);
                    if r is Ok {
                        assert(subsumes_under_permutation(self.sets()[0], pair@.set, w));
                    } else {
                        assert forall|i: int| 0 <= i < self.sets().len() implies !solvable(
                            #[trigger] self.sets()[i],
                            pair@.set,
                            given,
                        ) by {
                            if solvable(self.sets()[i], pair@.set, given) {
                                let p = choose|p: Seq<usize>|
                                    #[trigger] solves(self.sets()[i], pair@.set, given, p);
                                assert(solves(self.sets()[i], pair@.set, filtered, p));
                            }
                        }
                    }
                }
                r
            },
            Node::Inner { left, right, .. } => {
                proof {
                    assert(self.sets() =~= left.sets() + right.sets());
                }
                match left.combine_with_subsuming_rec(pair, matching.clone()) {
                    Ok(()) => {
                        proof {
                            let i = choose|i: int|
                                0 <= i < left.sets().len() && subsumes_under_permutation(
                                    #[trigger] left.sets()[i],
                                    pair@.set,
                                    w,
                                );
                            assert(self.sets()[i] == left.sets()[i]);
                        }
                        Ok(())
                    },
                    Err(pair_back) => {
                        let r = right.combine_with_subsuming_rec(pair_back, matching);
                        proof {
                            if r is Ok {
                                let i = choose|i: int|
                                    0 <= i < right.sets().len() && subsumes_under_permutation(
                                        #[trigger] right.sets()[i],
                                        pair@.set,
                                        w,
                                    );
                                assert(self.sets()[i + left.sets().len()] == right.sets()[i]);
                            } else {
                                assert forall|i: int| 0 <= i < self.sets().len() implies !solvable(
                                    #[trigger] self.sets()[i],
                                    pair@.set,
                                    given,
                                ) by {
                                    if solvable(self.sets()[i], pair@.set, given) {
                                        let p = choose|p: Seq<usize>|
                                            #[trigger] solves(self.sets()[i], pair@.set, given, p);
                                        assert(solves(self.sets()[i], pair@.set, filtered, p));
                                        if i < left.sets().len() {
                                            assert(self.sets()[i] == left.sets()[i]);
                                        } else {
                                            assert(self.sets()[i] == right.sets()[i
                                                - left.sets().len()]);
                                        }
                                    }
                                }
                            }
                        }
                        r
                    },
                }
            },
        }
    }

    /// Looks for a permutation that `matching` admits and under which the
    /// output set of `node_pair` subsumes that of `pair`. If there is one,
    /// what is kept with `pair` is combined into what is kept with
    /// `node_pair`; if there is none, `pair` is handed back as it came.
    ///
    /// The output set of `pair` is `start` with its channels rearranged by
    /// `perm`; the permutation that is handed on with what is kept is one
    /// under which the output set of `node_pair` subsumes `start`.
    fn combine_permuted(
        node_pair: &AbstractedPair<Mutex<T>>,
        pair: AbstractedPair<T>,
        perm: CVec<usize>,
        matching: Matching,
        Ghost(start): Ghost<Seq<u16>>,
    ) -> (r: Result<(), AbstractedPair<T>>)
        requires
            arranged(pair.output_set@, start, indices(perm)),
            node_pair.output_set.wf(),
            pair.output_set.wf(),
            pair.abstraction.wf(),
            pair.output_set.width() == node_pair.output_set.width(),
            pair.abstraction.width() == node_pair.output_set.width(),
            matching.width() == node_pair.output_set.width(),
            matching.wf(),
            !matching.failed(),
            matching@.settled(),
            is_permutation(indices(perm), node_pair.output_set.width()),
        ensures
            r is Ok ==> subsumes_under_permutation(
                node_pair.output_set@,
                pair.output_set@,
                node_pair.output_set.width(),
            ),
            r is Err ==> r->Err_0@ == pair@ && r->Err_0.item == pair.item
                && r->Err_0.output_set.width() == pair.output_set.width()
                && r->Err_0.abstraction.width() == pair.abstraction.width()
                && r->Err_0.output_set.wf() && r->Err_0.abstraction.wf(),
            r is Err ==> !solvable(node_pair.output_set@, pair.output_set@, matching@),
        decreases matching@.size(),
    {
        let mut query = pair;
        let mut order = perm;
        let mut rows = matching;
        let ghost n = node_pair.output_set@;
        let ghost q0 = query.output_set@;
        let ghost m0 = rows@;
        let ghost w = node_pair.output_set.width();
        let ghost item = query.item;
        let channels = node_pair.output_set.channels();
        let orig_abstraction = query.abstraction.clone();
        let orig_output_set = query.output_set.clone();
        let mut unique_matched: usize = 0;
        let ghost mut open_row: int = 0;
        let mut channel_a: usize = 0;
        proof {
            lemma_limit(w as u16);
        }
        while channel_a < channels
            invariant
                channel_a <= channels == w <= 15,
                n == node_pair.output_set@,
                q0 == pair.output_set@,
                m0 == matching@,
                item == pair.item,
                node_pair.output_set.wf(),
                node_pair.output_set.width() == w,
                query.output_set.wf(),
                query.abstraction.wf(),
                query.output_set.width() == w,
                query.abstraction.width() == w,
                query.item == item,
                rows.width() == w,
                rows.wf(),
                !rows.failed(),
                rows@.settled(),
                rows@.size() == m0.size(),
                is_permutation(indices(order), w),
                arranged(query.output_set@, start, indices(order)),
                unique_matched <= channel_a,
                unique_matched == channel_a ==> forall|x: int|
                    0 <= x < channel_a ==> #[trigger] rows@.row_is(x, x),
                unique_matched < channel_a ==> 0 <= open_row < channel_a && forall|t: int|
                    0 <= t < 16 ==> !#[trigger] rows@.row_is(open_row, t),
                subsumes_under_permutation(n, query.output_set@, w) ==> subsumes_under_permutation(
                    n,
                    q0,
                    w,
                ),
                solvable(n, q0, m0) ==> solvable(n, query.output_set@, rows@),
            decreases channels - channel_a,
        {
            match rows.unique_match_a(channel_a) {
                Some(channel_b) => {
                    proof {
                        if channel_b >= channels {
                            lemma_small_value_bits(
                                rows@.a[channel_a as int],
                                channels as u16,
                                channel_b as u16,
                            );
                            lemma_singles_differ(channel_b as int, channel_b as int);
                        }
                    }
                    if channel_b != channel_a {
                        let ghost m = rows@;
                        let ghost q = query.output_set@;
                        let ghost p = indices(order);
                        rows.swap_channels_b(channel_b, channel_a);
                        indices_swap(&mut order, channel_b, channel_a);
                        query.abstraction.swap_channels(channel_b, channel_a);
                        query.output_set.swap_channels(channel_b, channel_a);
                        proof {
                            let now = rows@;
                            let after_q = query.output_set@;
                            lemma_arranged_exchanged(
                                start,
                                q,
                                after_q,
                                p,
                                channel_b,
                                channel_a,
                                w as u16,
                            );
                            assert(indices(order) =~= exchanged(
                                p,
                                channel_b as int,
                                channel_a as int,
                            ));
                            assert(renamed_on_b(m, now, channel_b as int, channel_a as int));
                            // rows that were settled on the diagonal stay there
                            assert forall|x: int| 0 <= x < channel_a + 1 && unique_matched
                                == channel_a implies #[trigger] now.row_is(x, x) by {
                                if x < channel_a {
                                    assert(m.row_is(x, x));
                                    assert(m.col_is(x, x));
                                    assert(m.row_is(channel_a as int, channel_b as int));
                                    assert(m.col_is(channel_b as int, channel_a as int));
                                    lemma_singles_differ(x, channel_a as int);
                                    assert(x != channel_b);
                                }
                                lemma_exchange_of_single(
                                    if x < channel_a {
                                        x
                                    } else {
                                        channel_b as int
                                    },
                                    channel_b as int,
                                    channel_a as int,
                                );
                            }
                            if unique_matched < channel_a {
                                assert forall|t: int| 0 <= t < 16 implies !#[trigger] now.row_is(
                                    open_row,
                                    t,
                                ) by {
                                    let back = if t == channel_a {
                                        channel_b as int
                                    } else if t == channel_b {
                                        channel_a as int
                                    } else {
                                        t
                                    };
                                    assert(!m.row_is(open_row, back));
                                    lemma_exchange_of_single(
                                        t,
                                        channel_b as int,
                                        channel_a as int,
                                    );
                                    lemma_exchange_image(
                                        m.a[open_row],
                                        channel_b as u16,
                                        channel_a as u16,
                                        w as u16,
                                    );
                                }
                            }
                            assert(now.size() == m.size()) by {
                                assert forall|x: int| 0 <= x < m.a.len() implies crate::bits::ones(
                                    #[trigger] now.a[x],
                                ) == crate::bits::ones(m.a[x]) by {
                                    lemma_exchange_ones(
                                        m.a[x],
                                        channel_b as u16,
                                        channel_a as u16,
                                        w as u16,
                                    );
                                }
                                lemma_total_ones_same(now.a, m.a);
                            }
                            if subsumes_under_permutation(n, after_q, w) {
                                lemma_exchange_keeps_subsumption(
                                    n,
                                    q,
                                    after_q,
                                    channel_b,
                                    channel_a,
                                    w as u16,
                                );
                            }
                            if solvable(n, q0, m0) {
                                let p = choose|p: Seq<usize>| #[trigger] solves(n, q, m, p);
                                lemma_renaming_keeps_solution(
                                    n,
                                    q,
                                    after_q,
                                    m,
                                    now,
                                    p,
                                    channel_b,
                                    channel_a,
                                );
                            }
                        }
                    }
                    unique_matched += 1;
                },
                None => {
                    proof {
                        open_row = channel_a as int;
                    }
                },
            }
            channel_a += 1;
        }
        let ghost q = query.output_set@;
        let ghost m = rows@;
        if unique_matched == channels {
            if node_pair.output_set.subsumes(&query.output_set) {
                proof {
                    lemma_subsumes_by_identity(n, q, w as u16);
                    assert(subsumes_permuted(n, q, identity_seq(w)));
                }
                proof {
                    lemma_arranged_subsumes(n, q, start, indices(order));
                }
                combine_into(node_pair, order, query.item, Ghost(start));
                return Ok(());
            }
            proof {
                if solvable(n, q, m) {
                    let p = choose|p: Seq<usize>| #[trigger] solves(n, q, m, p);
                    lemma_diagonal_admits_identity(m, p);
                    lemma_subsumes_by_identity(n, q, w as u16);
                }
            }
        } else {
            // the channel with the fewest candidates among those with several
            let mut best: usize = channels;
            let mut best_count: u32 = 0;
            let mut at: usize = 0;
            while at < channels
                invariant
                    at <= channels == w == rows.width(),
                    m == rows@,
                    best <= channels,
                    best < channels ==> best_count > 1 && best_count == crate::bits::ones(
                        m.a[best as int],
                    ),
                    best == channels ==> forall|x: int|
                        0 <= x < at ==> crate::bits::ones(#[trigger] m.a[x]) <= 1,
                decreases channels - at,
            {
                let count = rows.matches_a(at).count_ones();
                if count > 1 && (best == channels || count < best_count) {
                    best = at;
                    best_count = count;
                }
                at += 1;
            }
            proof {
                assert(m.a[open_row] != 0);
                assert forall|t: u16| t < 16 implies m.a[open_row] != 1u16 << t by {
                    assert(!m.row_is(open_row, t as int));
                }
                lemma_ones_of_open_word(m.a[open_row]);
            }
            let mut channel_b: usize = 0;
            while channel_b < channels
                invariant
                    channel_b <= channels == w <= 15,
                    q0 == pair.output_set@,
                    m0 == matching@,
                    item == pair.item,
                    best < channels,
                    crate::bits::ones(m.a[best as int]) > 1,
                    n == node_pair.output_set@,
                    q == query.output_set@,
                    m == rows@,
                    m.size() == m0.size(),
                    node_pair.output_set.wf(),
                    node_pair.output_set.width() == w,
                    query.output_set.wf(),
                    query.abstraction.wf(),
                    query.output_set.width() == w,
                    query.abstraction.width() == w,
                    query.item == item,
                    rows.width() == w,
                    rows.wf(),
                    !rows.failed(),
                    rows@.settled(),
                    is_permutation(indices(order), w),
                    arranged(q, start, indices(order)),
                    subsumes_under_permutation(n, q, w) ==> subsumes_under_permutation(n, q0, w),
                    forall|p: Seq<usize>| #[trigger]
                        solves(n, q, m, p) ==> p[best as int] >= channel_b,
                decreases channels - channel_b,
            {
                let mut next_matching = rows.clone();
                let failed = next_matching.select(best, channel_b);
                proof {
                    assert forall|p: Seq<usize>| #[trigger]
                        solves(n, q, m, p) && p[best as int] == channel_b implies !failed && solves(
                        n,
                        q,
                        next_matching@,
                        p,
                    ) by {
                        lemma_graph(p, w);
                        assert(graph(p).row_is(best as int, p[best as int] as int));
                        assert(graph(p).within(m));
                        assert(graph(p).within(next_matching@));
                    }
                }
                if !failed {
                    proof {
                        if next_matching@ == m {
                            lemma_ones_of_single(channel_b as u16, 16);
                        }
                    }
                    match Self::combine_permuted(
                        node_pair,
                        query,
                        indices_clone(&order),
                        next_matching,
                        Ghost(start),
                    ) {
                        Ok(()) => {
                            return Ok(());
                        },
                        Err(returned) => {
                            query = returned;
                        },
                    }
                }
                channel_b += 1;
            }
            proof {
                if solvable(n, q, m) {
                    let p = choose|p: Seq<usize>| #[trigger] solves(n, q, m, p);
                    assert(p[best as int] < channels);
                }
            }
        }
        query.abstraction = orig_abstraction;
        query.output_set = orig_output_set;
        Err(query)
    }

    /// The pairs at the leaves, left to right.
    pub fn into_pairs_in_order(self) -> (r: Vec<AbstractedPair<T>>)
        requires
            self.wf(),
        ensures
            views(r@) == self.leaves(),
            all_pairs(r@, self.width()),
    {
        self.drain()
    }

    /// The pairs at the leaves, left to right.
    pub(crate) fn drain(self) -> (r: Vec<AbstractedPair<T>>)
        requires
            self.wf(),
        ensures
            views(r@) == self.leaves(),
            all_pairs(r@, self.width()),
    {
        let mut out: Vec<AbstractedPair<T>> = Vec::new();
        self.drain_into(&mut out);
        proof {
            assert(views(out@) =~= self.leaves());
        }
        out
    }

    /// Of `pairs`, in order, those that no pair of the tree subsumes under a
    /// permutation of the channels. What is kept with the others is combined
    /// into what is kept with the pairs of the tree that subsume them.
    pub(crate) fn reject_subsumed(&self, pairs: Vec<AbstractedPair<T>>) -> (r: Vec<AbstractedPair<T>>)
        requires
            self.wf(),
            all_pairs(pairs@, self.width()),
        ensures
            all_pairs(r@, self.width()),
            sets_of(views(r@)) == sets_of(views(pairs@)).filter(
                not_subsumed_by(self.sets(), self.width()),
            ),
    {
        let ghost w = self.width();
        let ghost given = sets_of(views(pairs@));
        let ghost keep = not_subsumed_by(self.sets(), w);
        let ghost total = pairs@.len();
        let ghost old_pairs = pairs@;
        let mut stack = reversed(pairs);
        let mut out: Vec<AbstractedPair<T>> = Vec::new();
        proof {
            lemma_filter_push(Seq::empty(), Seq::empty(), keep);
            assert(given.take(0) =~= Seq::<Seq<u16>>::empty());
            assert(sets_of(views(out@)) =~= Seq::<Seq<u16>>::empty());
        }
        while stack.len() > 0
            invariant
                self.wf(),
                w == self.width(),
                keep == not_subsumed_by(self.sets(), w),
                given == sets_of(views(old_pairs)),
                total == old_pairs.len(),
                all_pairs(old_pairs, w),
                stack@.len() <= total,
                forall|i: int| 0 <= i < stack@.len() ==> stack@[i] == old_pairs[total - 1 - i],
                all_pairs(out@, w),
                sets_of(views(out@)) == given.take(total - stack@.len()).filter(keep),
            decreases stack@.len(),
        {
            let ghost done = total - stack@.len();
            let ghost before = sets_of(views(out@));
            let pair = stack.pop().unwrap();
            proof {
                assert(pair == old_pairs[done]);
                assert(given.take(done + 1) =~= given.take(done).push(pair@.set));
                lemma_filter_push(given.take(done), pair@.set, keep);
            }
            match self.combine_with_subsuming(pair) {
                Ok(()) => {},
                Err(back) => {
                    out.push(back);
                    proof {
                        assert(sets_of(views(out@)) =~= before.push(pair@.set));
                    }
                },
            }
        }
        proof {
            assert(given.take(total as int) =~= given);
        }
        out
    }

    /// The pairs of the tree that no other pair of the tree subsumes under a
    /// permutation of the channels: none of them subsumes another, and every
    /// pair of the tree is subsumed by one of them. What is kept with the
    /// others is combined into what is kept with pairs that subsume them.
    pub fn minimal_elements(self) -> (r: Vec<AbstractedPair<T>>)
        requires
            self.wf(),
        ensures
            all_pairs(r@, self.width()),
            1 <= r@.len() <= self.leaves().len(),
            all_among(sets_of(views(r@)), self.sets()),
            is_antichain(sets_of(views(r@)), self.width()),
            covers(sets_of(views(r@)), self.sets(), self.width()),
        decreases self.leaves().len(),
    {
        let ghost w = self.width();
        let ghost all = self.sets();
        proof {
            self.lemma_leaves();
            lemma_tree_sets(self);
        }
        match self {
            Node::Leaf(pair) => {
                let pair = pair.mutex_unwrap();
                let mut out: Vec<AbstractedPair<T>> = Vec::new();
                out.push(pair);
                proof {
                    assert(sets_of(views(out@)) =~= all);
                    lemma_covers_reflexive(all, w);
                    lemma_among_part(all, all);
                }
                out
            },
            Node::Inner { left, right, .. } => {
                proof {
                    left.lemma_leaves();
                    right.lemma_leaves();
                    assert(all =~= left.sets() + right.sets());
                }
                let ghost left_sets = left.sets();
                let ghost right_sets = right.sets();
                let ghost left_tree = *left;
                let ghost right_tree = *right;
                let left_minimal = left.minimal_elements();
                let ghost low = sets_of(views(left_minimal@));
                proof {
                    lemma_sets_of_pairs(left_minimal@, w);
                    assert(left_minimal@[0].wf());
                }
                let tree_0 = Node::new(left_minimal);
                let ghost sets_0 = tree_0.sets();
                let right_pairs = right.drain();
                proof {
                    assert(sets_of(views(right_pairs@)) =~= right_sets);
                }
                let right_kept = tree_0.reject_subsumed(right_pairs);
                let ghost kept = sets_of(views(right_kept@));
                proof {
                    tree_0.lemma_leaves();
                    lemma_antichain_rebuilt(low, sets_0, w);
                    lemma_tree_sets(right_tree);
                    lemma_tree_sets(tree_0);
                    lemma_halves_covered(left_sets, right_sets, low, sets_0, kept, w);
                }
                if right_kept.len() == 0 {
                    let out = tree_0.drain();
                    proof {
                        assert(sets_of(views(out@)) =~= sets_0);
                        assert(sets_0 + kept =~= sets_0);
                    }
                    return out;
                }
                proof {
                    assert(right_kept@[0].wf());
                }
                let tree_1 = Node::new(right_kept);
                let ghost sets_1 = tree_1.sets();
                let left_pairs = tree_0.drain();
                proof {
                    assert(sets_of(views(left_pairs@)) =~= sets_0);
                }
                let mut out = tree_1.reject_subsumed(left_pairs);
                let ghost first = sets_of(views(out@));
                let ghost first_pairs = out@;
                proof {
                    tree_1.lemma_leaves();
                    lemma_filter_facts(sets_0, not_subsumed_by(sets_1, w));
                }
                let mut rest = tree_1.minimal_elements();
                let ghost second = sets_of(views(rest@));
                let ghost second_pairs = rest@;
                out.append(&mut rest);
                proof {
                    let got = sets_of(views(out@));
                    assert(out@ =~= first_pairs + second_pairs);
                    assert(got =~= first + second);
                    lemma_among_part(got, got);
                    lemma_tree_sets(left_tree);
                    lemma_filter_facts(right_sets, not_subsumed_by(sets_0, w));
                    lemma_value_seqs_among(kept, right_sets, w);
                    lemma_round_merged(sets_0, kept, sets_1, first, second, got, w);
                    lemma_among_transitive(got, sets_0 + kept, all);
                    lemma_covers_transitive(got, sets_0 + kept, all, w);
                }
                out
            },
        }
    }

    /// The number of leaves.
    pub fn len(&self) -> (r: usize)
        requires
            self.wf(),
        ensures
            r == self.leaves().len(),
    {
        match self {
            Node::Leaf(_) => 1,
            Node::Inner { len, .. } => *len,
        }
    }

    fn abstraction(&self) -> (r: &Abstraction)
        ensures
            r@ == self.counts(),
            self.wf() ==> r.wf() && r.width() == self.width(),
    {
        match self {
            Node::Leaf(pair) => &pair.abstraction,
            Node::Inner { abstraction, .. } => abstraction,
        }
    }

    /// Appends the pairs at the leaves to `out`, left to right.
    fn drain_into(self, out: &mut Vec<AbstractedPair<T>>)
        requires
            self.wf(),
        ensures
            views(final(out)@) == views(old(out)@) + self.leaves(),
            forall|i: int| 0 <= i < old(out)@.len() ==> final(out)@[i] == old(out)@[i],
            forall|i: int|
                old(out)@.len() <= i < final(out)@.len() ==> (#[trigger] final(out)@[i]).wf()
                    && final(out)@[i].width() == self.width(),
        decreases self,
    {
        match self {
            Node::Leaf(pair) => {
                let ghost before = out@;
                let pair = pair.mutex_unwrap();
                out.push(pair);
                assert(views(out@) =~= views(before) + seq![pair@]);
            },
            Node::Inner { left, right, .. } => {
                let ghost before = out@;
                left.drain_into(out);
                let ghost between = out@;
                right.drain_into(out);
                assert(views(out@) =~= views(before) + (left.leaves() + right.leaves()));
            },
        }
    }
}

/// If the counts of `low` are at most those of `mid` in the same places, and
/// the counts of `mid` for one channel at most those of `high` for another,
/// then so are those of `low`.
pub proof fn lemma_channel_le_through(
    low: Seq<u16>,
    mid: Seq<u16>,
    high: Seq<u16>,
    x: nat,
    y: nat,
    w: nat,
)
    requires
        counts_le(low, mid),
        low.len() == 2 * w * w,
        x < w,
        y < w,
        channel_le_spec(mid, x, high, y, w),
    ensures
        channel_le_spec(low, x, high, y, w),
{
    crate::abstraction::lemma_block_bound(w, x);
    assert forall|i: int| 0 <= i < 2 * w implies #[trigger] crate::abstraction::block_at(
        low,
        w,
        x,
        i,
    ) <= crate::abstraction::block_at(high, w, y, i) by {
        assert(crate::abstraction::block_at(mid, w, x, i) <= crate::abstraction::block_at(
            high,
            w,
            y,
            i,
        ));
    }
}

/// The output sets of the trees, tree after tree.
pub open spec fn all_sets<T>(trees: Seq<Node<T>>) -> Seq<Seq<u16>>
    decreases trees.len(),
{
    if trees.len() == 0 {
        Seq::empty()
    } else {
        all_sets(trees.drop_last()) + trees.last().sets()
    }
}

/// How many leaves the trees have together.
pub open spec fn all_leaves<T>(trees: Seq<Node<T>>) -> nat {
    all_sets(trees).len()
}

/// Whether the trees are trees on `w` channels, no set of a tree subsumes
/// another set of the tree, and no set of a tree is subsumed by a set of a
/// tree before it.
pub open spec fn trees_ok<T>(trees: Seq<Node<T>>, w: nat) -> bool {
    &&& forall|i: int| 0 <= i < trees.len() ==> tree_ok(#[trigger] trees[i], w)
    &&& forall|i: int, j: int|
        0 <= i < j < trees.len() ==> #[trigger] none_subsumed(trees[i].sets(), trees[j].sets(), w)
}

/// How many leaves each of the trees has.
pub open spec fn sizes_of<T>(trees: Seq<Node<T>>) -> Seq<nat> {
    Seq::new(trees.len(), |i: int| trees[i].leaves().len())
}

/// The numbers without the last, if there is one.
pub open spec fn all_but_last(sizes: Seq<nat>) -> Seq<nat> {
    if sizes.len() == 0 {
        sizes
    } else {
        sizes.drop_last()
    }
}

/// Whether every number is smaller than the number before it.
pub open spec fn sizes_descend(sizes: Seq<nat>) -> bool {
    forall|i: int| 0 <= i && i + 1 < sizes.len() ==> (#[trigger] sizes[i]) > sizes[i + 1]
}

/// Whether `tree` is a tree on `w` channels no set of which subsumes another.
pub open spec fn tree_ok<T>(tree: Node<T>, w: nat) -> bool {
    &&& tree.wf()
    &&& tree.width() == w
    &&& is_antichain(tree.sets(), w)
}

/// A set is among the sets of the trees exactly if it is a set of one of
/// them.
pub proof fn lemma_all_sets<T>(trees: Seq<Node<T>>, x: Seq<u16>)
    ensures
        all_sets(trees).contains(x) <==> exists|i: int|
            0 <= i < trees.len() && (#[trigger] trees[i]).sets().contains(x),
    decreases trees.len(),
{
    if trees.len() > 0 {
        let rest = trees.drop_last();
        let last = trees.last();
        lemma_all_sets(rest, x);
        if all_sets(trees).contains(x) {
            let k = choose|k: int| 0 <= k < all_sets(trees).len() && all_sets(trees)[k] == x;
            if k < all_sets(rest).len() {
                assert(all_sets(rest)[k] == x);
                let i = choose|i: int| 0 <= i < rest.len() && (#[trigger] rest[i]).sets().contains(x);
                assert(trees[i].sets().contains(x));
            } else {
                assert(last.sets()[k - all_sets(rest).len()] == x);
                assert(trees[trees.len() - 1].sets().contains(x));
            }
        }
        if exists|i: int| 0 <= i < trees.len() && (#[trigger] trees[i]).sets().contains(x) {
            let i = choose|i: int| 0 <= i < trees.len() && (#[trigger] trees[i]).sets().contains(x);
            if i < rest.len() {
                assert(rest[i].sets().contains(x));
                let k = choose|k: int| 0 <= k < all_sets(rest).len() && all_sets(rest)[k] == x;
                assert(all_sets(trees)[k] == x);
            } else {
                let k = choose|k: int| 0 <= k < last.sets().len() && last.sets()[k] == x;
                assert(all_sets(trees)[all_sets(rest).len() + k] == x);
            }
        }
    }
}

/// One tree that is an antichain is a list of trees as an index keeps it.
pub proof fn lemma_single_tree_ok<T>(tree: Node<T>, w: nat)
    requires
        tree.wf(),
        tree.width() == w,
        is_antichain(tree.sets(), w),
    ensures
        trees_ok(seq![tree], w),
        all_sets(seq![tree]) == tree.sets(),
{
    lemma_all_sets_push(Seq::<Node<T>>::empty(), tree);
    assert(Seq::<Node<T>>::empty().push(tree) =~= seq![tree]);
    assert(all_sets(Seq::<Node<T>>::empty()) =~= Seq::<Seq<u16>>::empty());
    assert(all_sets(seq![tree]) =~= tree.sets());
}

/// The sets of the trees with one more tree are the sets of the trees and
/// then those of that tree.
pub proof fn lemma_all_sets_push<T>(trees: Seq<Node<T>>, tree: Node<T>)
    ensures
        all_sets(trees.push(tree)) == all_sets(trees) + tree.sets(),
{
    assert(trees.push(tree).drop_last() =~= trees);
    assert(trees.push(tree).last() == tree);
}

/// What some set of the trees subsumes, a set of one of the trees subsumes.
pub proof fn lemma_some_of_all<T>(trees: Seq<Node<T>>, x: Seq<u16>, w: nat)
    ensures
        some_subsumes(all_sets(trees), x, w) <==> exists|i: int|
            0 <= i < trees.len() && some_subsumes((#[trigger] trees[i]).sets(), x, w),
{
    if some_subsumes(all_sets(trees), x, w) {
        let k = choose|k: int|
            0 <= k < all_sets(trees).len() && subsumes_under_permutation(
                #[trigger] all_sets(trees)[k],
                x,
                w,
            );
        let y = all_sets(trees)[k];
        lemma_all_sets(trees, y);
        let i = choose|i: int| 0 <= i < trees.len() && (#[trigger] trees[i]).sets().contains(y);
        let l = choose|l: int| 0 <= l < trees[i].sets().len() && trees[i].sets()[l] == y;
        assert(subsumes_under_permutation(trees[i].sets()[l], x, w));
    }
    if exists|i: int| 0 <= i < trees.len() && some_subsumes((#[trigger] trees[i]).sets(), x, w) {
        let i = choose|i: int|
            0 <= i < trees.len() && some_subsumes((#[trigger] trees[i]).sets(), x, w);
        let l = choose|l: int|
            0 <= l < trees[i].sets().len() && subsumes_under_permutation(
                #[trigger] trees[i].sets()[l],
                x,
                w,
            );
        let y = trees[i].sets()[l];
        assert(trees[i].sets().contains(y));
        lemma_all_sets(trees, y);
        let k = choose|k: int| 0 <= k < all_sets(trees).len() && all_sets(trees)[k] == y;
        assert(subsumes_under_permutation(all_sets(trees)[k], x, w));
    }
}

/// An index of output sets with what is kept with them. Of the sets it is
/// given it keeps those that no set it already holds subsumes under a
/// permutation of the channels, and it drops sets it holds when it finds
/// that a set given later subsumes them.
#[verifier::reject_recursive_types(T)]
pub struct SubsumeIndex<T> {
    trees: Vec<Node<T>>,
    len: usize,
}

impl<T: SubsumeIndexItem> Default for SubsumeIndex<T> {
    fn default() -> (r: Self)
        ensures
            r.wf(),
            r.sets() == Seq::<Seq<u16>>::empty(),
    {
        SubsumeIndex { trees: Vec::new(), len: 0 }
    }
}

impl<T: SubsumeIndexItem> SubsumeIndex<T> {
    /// The output sets that the index holds.
    pub closed spec fn sets(&self) -> Seq<Seq<u16>> {
        all_sets(self.trees@)
    }

    /// The number of channels of the sets that the index holds.
    pub closed spec fn width(&self) -> nat {
        if self.trees@.len() > 0 {
            self.trees@[0].width()
        } else {
            0
        }
    }

    /// The numbers of leaves of the trees of the index, tree after tree.
    pub closed spec fn tree_sizes(&self) -> Seq<nat> {
        sizes_of(self.trees@)
    }

    /// The invariant of an index: its trees are trees on the same channels,
    /// no set of a tree subsumes another set of the tree, no set of a tree is
    /// subsumed by a set of a tree before it, and every tree has fewer
    /// leaves than the tree before it.
    pub closed spec fn wf(&self) -> bool {
        &&& self.held_ok()
        &&& sizes_descend(self.tree_sizes())
    }

    /// The invariant of an index, but for the last tree, which may have as
    /// many leaves as the tree before it or more.
    closed spec fn held_ok(&self) -> bool {
        &&& trees_ok(self.trees@, self.width())
        &&& self.len == all_leaves(self.trees@)
        &&& sizes_descend(all_but_last(self.tree_sizes()))
    }

    /// In an index every tree has fewer leaves than the tree before it, and
    /// the trees have as many leaves together as the index holds sets.
    pub proof fn lemma_tree_sizes(&self)
        requires
            self.wf(),
        ensures
            sizes_descend(self.tree_sizes()),
            self.merged() <==> self.tree_sizes().len() <= 1,
    {
    }

    /// Whether the index holds a single tree at most, and so an antichain.
    pub closed spec fn merged(&self) -> bool {
        self.trees@.len() <= 1
    }

    /// The sets of an index are output sets on its channels, and those of a
    /// merged index an antichain.
    pub proof fn lemma_sets(&self)
        requires
            self.wf(),
        ensures
            all_value_seqs(self.sets(), self.width()),
            self.sets().len() > 0 ==> self.width() <= 15,
            self.merged() ==> is_antichain(self.sets(), self.width()),
    {
        self.lemma_sets_of(self.trees@, self.width());
    }

    /// The sets of trees as an index keeps them are output sets on their
    /// channels; there are some if there is a tree; and those of a single
    /// tree are an antichain.
    proof fn lemma_sets_of(&self, trees: Seq<Node<T>>, w: nat)
        requires
            trees_ok(trees, w),
        ensures
            all_value_seqs(all_sets(trees), w),
            all_sets(trees).len() > 0 ==> w <= 15,
            trees.len() > 0 ==> all_sets(trees).len() > 0,
            trees.len() <= 1 ==> is_antichain(all_sets(trees), w),
    {
        assert forall|k: int| 0 <= k < all_sets(trees).len() implies is_value_seq(
            #[trigger] all_sets(trees)[k],
            w,
        ) && w <= 15 by {
            let x = all_sets(trees)[k];
            assert(all_sets(trees).contains(x));
            lemma_all_sets(trees, x);
            let i = choose|i: int| 0 <= i < trees.len() && (#[trigger] trees[i]).sets().contains(x);
            assert(tree_ok(trees[i], w));
            trees[i].lemma_leaves();
            let l = choose|l: int| 0 <= l < trees[i].sets().len() && trees[i].sets()[l] == x;
            assert(trees[i].leaves()[l].wf(w));
        }
        if trees.len() > 0 {
            assert(tree_ok(trees[trees.len() - 1], w));
            trees.last().lemma_leaves();
            lemma_all_sets_push(trees.drop_last(), trees.last());
            assert(trees.drop_last().push(trees.last()) =~= trees);
        }
        if trees.len() == 1 {
            assert(tree_ok(trees[0], w));
            lemma_single_tree_ok(trees[0], w);
            assert(trees =~= seq![trees[0]]);
        }
    }

    /// The number of output sets that the index holds.
    pub fn len(&self) -> (r: usize)
        requires
            self.wf(),
        ensures
            r == self.sets().len(),
    {
        self.len
    }

    /// Whether the index holds nothing.
    pub fn is_empty(&self) -> (r: bool)
        requires
            self.wf(),
        ensures
            r == (self.sets().len() == 0),
    {
        proof {
            if self.trees@.len() > 0 {
                self.trees@.last().lemma_leaves();
            }
        }
        self.trees.len() == 0
    }

    /// Gives the index a pair. If a set of the index subsumes the pair's set,
    /// what is kept with the pair is combined into what is kept with that
    /// set and the index holds the sets it held. Otherwise the index holds
    /// the pair's set as well, less the sets that it finds to be subsumed
    /// while it puts its trees together: every set it held and the pair's
    /// set are still subsumed by sets that it holds.
    pub fn insert(&mut self, pair: AbstractedPair<T>)
        requires
            old(self).wf(),
            pair.wf(),
            old(self).sets().len() == 0 || pair.width() == old(self).width(),
            old(self).sets().len() < usize::MAX,
        ensures
            final(self).wf(),
            final(self).width() == pair.width(),
            some_subsumes(old(self).sets(), pair@.set, pair.width()) ==> final(self).sets() == old(
                self,
            ).sets(),
            all_among(final(self).sets(), old(self).sets().push(pair@.set)),
            covers(final(self).sets(), old(self).sets().push(pair@.set), pair.width()),
            final(self).sets().len() <= old(self).sets().len() + 1,
            sizes_descend(final(self).tree_sizes()),
    {
        let ghost w = pair.width();
        let ghost set = pair@.set;
        let ghost before = self.trees@;
        let ghost held = self.sets();
        proof {
            reveal(all_among); reveal(covers);
            self.lemma_sets_of(before, self.width());
        }
        match self.combine_with_subsuming(pair) {
            Ok(()) => {
                proof {
                    reveal(all_among); reveal(covers);
                    lemma_covers_reflexive(held, w);
                    lemma_covers_push(held, held, set, w);
                    assert forall|i: int| 0 <= i < held.len() implies held.push(set).contains(
                        #[trigger] held[i],
                    ) by {
                        assert(held.push(set)[i] == held[i]);
                    }
                }
            },
            Err(back) => {
                self.len += 1;
                let leaf = Node::Leaf(back.mutex_wrap());
                self.trees.push(leaf);
                proof {
                    reveal(all_among); reveal(covers);
                    let now = self.trees@;
                    assert(leaf.sets() =~= seq![set]);
                    lemma_all_sets_push(before, leaf);
                    assert(all_sets(now) =~= held.push(set));
                    assert forall|i: int| 0 <= i < before.len() implies !some_subsumes(
                        (#[trigger] before[i]).sets(),
                        leaf.sets()[0],
                        w,
                    ) by {
                        lemma_some_of_all(before, set, w);
                    }
                    lemma_leaf_added(before, leaf, w);
                    assert(now[0].width() == w);
                    assert(all_but_last(sizes_of(now)) =~= sizes_of(before));
                }
                self.merge_trees(false);
            },
        }
    }

    /// Looks in tree after tree for a pair that subsumes `pair` under a
    /// permutation of the channels, as `Node::combine_with_subsuming` does
    /// in one tree.
    fn combine_with_subsuming(&self, pair: AbstractedPair<T>) -> (r: Result<(), AbstractedPair<T>>)
        requires
            self.wf(),
            pair.wf(),
            self.sets().len() == 0 || pair.width() == self.width(),
        ensures
            r is Ok <==> some_subsumes(self.sets(), pair@.set, pair.width()),
            r is Err ==> r->Err_0@ == pair@ && r->Err_0.item == pair.item && r->Err_0.wf()
                && r->Err_0.width() == pair.width(),
    {
        let ghost w = pair.width();
        let ghost set = pair@.set;
        let ghost item = pair.item;
        let ghost trees = self.trees@;
        proof {
            self.lemma_sets_of(trees, self.width());
        }
        let mut current = pair;
        let mut at: usize = 0;
        while at < self.trees.len()
            invariant
                at <= trees.len(),
                trees == self.trees@,
                forall|i: int| 0 <= i < trees.len() ==> tree_ok(#[trigger] trees[i], w),
                current.wf(),
                current.width() == w,
                current@.set == set,
                current@ == pair@,
                current.item == item,
                item == pair.item,
                w == pair.width(),
                set == pair@.set,
                forall|i: int| 0 <= i < at ==> !some_subsumes((#[trigger] trees[i]).sets(), set, w),
            decreases trees.len() - at,
        {
            assert(tree_ok(trees[at as int], w));
            match self.trees[at].combine_with_subsuming(current) {
                Ok(()) => {
                    proof {
                        lemma_some_of_all(trees, set, w);
                    }
                    return Ok(());
                },
                Err(back) => {
                    current = back;
                },
            }
            at += 1;
        }
        proof {
            lemma_some_of_all(trees, set, w);
        }
        Err(current)
    }

    /// Puts all trees of the index together. Afterwards no set that the
    /// index holds subsumes another under a permutation of the channels, and
    /// every set it held is subsumed by one that it holds.
    pub fn subsume_all(&mut self)
        requires
            old(self).wf(),
        ensures
            final(self).wf(),
            final(self).merged(),
            final(self).width() == old(self).width(),
            is_antichain(final(self).sets(), old(self).width()),
            all_among(final(self).sets(), old(self).sets()),
            covers(final(self).sets(), old(self).sets(), old(self).width()),
            final(self).sets().len() <= old(self).sets().len(),
    {
        proof {
            lemma_sizes_without_last(self.tree_sizes());
        }
        self.merge_trees(true);
        proof {
            self.lemma_sets();
        }
    }

    /// Puts the last two trees together as long as the last is not smaller
    /// than the one before it, or, with `all`, as long as there are two.
    fn merge_trees(&mut self, all: bool)
        requires
            old(self).held_ok(),
        ensures
            final(self).wf(),
            sizes_descend(final(self).tree_sizes()),
            final(self).width() == old(self).width(),
            all ==> final(self).merged(),
            all_among(final(self).sets(), old(self).sets()),
            covers(final(self).sets(), old(self).sets(), old(self).width()),
            final(self).sets().len() <= old(self).sets().len(),
    {
        let ghost w = self.width();
        let ghost held = self.sets();
        proof {
            self.lemma_sets_of(self.trees@, w);
            if held.len() > 0 {
                lemma_covers_reflexive(held, w);
            } else {
                assert(held =~= Seq::<Seq<u16>>::empty());
                lemma_covers_nothing(held, w);
            }
            lemma_among_part(held, held);
        }
        while self.trees.len() >= 2
            invariant
                self.held_ok(),
                self.width() == w,
                held.len() > 0 ==> w <= 15,
                all_among(self.sets(), held),
                covers(self.sets(), held, w),
                self.sets().len() <= held.len(),
            ensures
                self.wf(),
                self.width() == w,
                all ==> self.trees@.len() <= 1,
                all_among(self.sets(), held),
                covers(self.sets(), held, w),
                self.sets().len() <= held.len(),
            decreases self.trees@.len(),
        {
            let ghost cur = self.trees@;
            let ghost cur_sets = self.sets();
            let count = self.trees.len();
            proof {
                cur[count - 1].lemma_leaves();
                cur[count - 2].lemma_leaves();
            }
            if !all && self.trees[count - 2].len() > self.trees[count - 1].len() {
                proof {
                    lemma_sizes_with_last(sizes_of(cur));
                }
                break ;
            }
            let last_tree = self.trees.pop().unwrap();
            let second_last_tree = self.trees.pop().unwrap();
            let ghost rest = self.trees@;
            let ghost older = second_last_tree.sets();
            let ghost newer = last_tree.sets();
            proof {
                assert(cur =~= rest.push(second_last_tree).push(last_tree));
                lemma_all_sets_push(rest, second_last_tree);
                lemma_all_sets_push(rest.push(second_last_tree), last_tree);
                assert(cur_sets =~= all_sets(rest) + older + newer);
                self.lemma_sets_of(cur, w);
            }
            self.len = self.len - last_tree.len();
            self.len = self.len - second_last_tree.len();
            let second_pairs = second_last_tree.drain();
            let mut pairs = last_tree.reject_subsumed(second_pairs);
            let ghost kept = sets_of(views(pairs@));
            let ghost keep = not_subsumed_by(newer, w);
            let ghost kept_pairs = pairs@;
            proof {
                assert(sets_of(views(second_pairs@)) =~= older);
            }
            last_tree.drain_into(&mut pairs);
            let ghost merged = sets_of(views(pairs@));
            proof {
                assert(merged =~= kept + newer);
                assert(all_pairs(pairs@, w)) by {
                    assert forall|i: int| 0 <= i < pairs@.len() implies (#[trigger] pairs@[i]).wf()
                        && pairs@[i].width() == w by {
                        if i < kept_pairs.len() {
                            assert(pairs@[i] == kept_pairs[i]);
                        }
                    }
                }
                assert(pairs@[0].wf());
            }
            let new_tree = Node::new(pairs);
            self.len = self.len + new_tree.len();
            self.trees.push(new_tree);
            proof {
                lemma_trees_merged(rest, second_last_tree, last_tree, new_tree, w);
                lemma_all_sets_push(rest, new_tree);
                assert(self.trees@[0].width() == w);
                assert(all_but_last(sizes_of(self.trees@)) =~= all_but_last(
                    all_but_last(sizes_of(cur)),
                ));
                lemma_sizes_without_last(all_but_last(sizes_of(cur)));
                lemma_among_transitive(self.sets(), cur_sets, held);
                lemma_covers_transitive(self.sets(), cur_sets, held, w);
            }
        }
    }

    /// The pairs that the index holds, tree after tree.
    pub fn into_pairs(self) -> (r: Vec<AbstractedPair<T>>)
        requires
            self.wf(),
        ensures
            sets_of(views(r@)) == self.sets(),
            all_pairs(r@, self.width()),
    {
        let ghost w = self.width();
        let ghost trees = self.trees@;
        let mut stack = reversed(self.trees);
        let mut out: Vec<AbstractedPair<T>> = Vec::new();
        proof {
            assert(trees.take(0) =~= Seq::<Node<T>>::empty());
            assert(sets_of(views(out@)) =~= all_sets(trees.take(0)));
        }
        while stack.len() > 0
            invariant
                stack@.len() <= trees.len(),
                trees_ok(trees, w),
                forall|i: int| 0 <= i < stack@.len() ==> stack@[i] == trees[trees.len() - 1 - i],
                all_pairs(out@, w),
                sets_of(views(out@)) == all_sets(trees.take(trees.len() - stack@.len())),
            decreases stack@.len(),
        {
            let ghost done = trees.len() - stack@.len();
            let ghost before = out@;
            let tree = stack.pop().unwrap();
            proof {
                assert(tree == trees[done]);
                assert(trees.take(done + 1).drop_last() =~= trees.take(done));
                assert(trees.take(done + 1).last() == tree);
            }
            tree.drain_into(&mut out);
            proof {
                assert(sets_of(views(out@)) =~= sets_of(views(before)) + tree.sets());
                assert forall|i: int| 0 <= i < out@.len() implies (#[trigger] out@[i]).wf()
                    && out@[i].width() == w by {
                    if i < before.len() {
                        assert(out@[i] == before[i]);
                    }
                }
            }
        }
        proof {
            assert(trees.take(trees.len() as int) =~= trees);
        }
        out
    }

    /// Hands every pair that the index holds to `target`, tree after tree.
    pub fn drain_using<F: FnMut(AbstractedPair<T>)>(self, target: F)
        requires
            self.wf(),
            forall|pair: AbstractedPair<T>| call_requires(target, (pair,)),
    {
        let mut target = target;
        let mut stack = reversed(self.into_pairs());
        while stack.len() > 0
            invariant
                forall|pair: AbstractedPair<T>| call_requires(target, (pair,)),
            decreases stack@.len(),
        {
            let pair = stack.pop().unwrap();
            target(pair);
        }
    }
}

/// The sets at the leaves of a tree are output sets on its channels.
pub proof fn lemma_tree_sets<T>(tree: Node<T>)
    requires
        tree.wf(),
    ensures
        all_value_seqs(tree.sets(), tree.width()),
        tree.width() <= 15,
{
    tree.lemma_leaves();
    assert forall|i: int| 0 <= i < tree.sets().len() implies is_value_seq(
        #[trigger] tree.sets()[i],
        tree.width(),
    ) by {
        assert(tree.leaves()[i].wf(tree.width()));
    }
}

/// A list and, behind it, the sets of another list that no set of it
/// subsumes cover the other list.
pub proof fn lemma_filtered_covers(a: Seq<Seq<u16>>, b: Seq<Seq<u16>>, w: nat)
    requires
        w <= 15,
        all_value_seqs(b, w),
    ensures
        covers(a + b.filter(not_subsumed_by(a, w)), b, w),
        none_subsumed(a, b.filter(not_subsumed_by(a, w)), w),
{
    reveal(covers);
    let keep = not_subsumed_by(a, w);
    let kept = b.filter(keep);
    let both = a + kept;
    lemma_filter_facts(b, keep);
    assert forall|k: int| 0 <= k < kept.len() implies !some_subsumes(a, #[trigger] kept[k], w) by {
        assert(keep(kept[k]));
    }
    lemma_among_part(a, kept);
    assert forall|i: int| 0 <= i < b.len() implies some_subsumes(both, #[trigger] b[i], w) by {
        let x = b[i];
        if keep(x) {
            assert(kept.contains(b[i]));
            let l = choose|l: int| 0 <= l < kept.len() && kept[l] == x;
            assert(both[a.len() + l] == x);
            assert(is_value_seq(b[i], w));
            lemma_subsumption_reflexive(x, w);
        } else {
            lemma_some_subsumes_among(a, both, x, w);
        }
    }
}

/// With the least sets `low` of the left half in a tree with the sets
/// `sets_0`, and the sets `kept` of the right half that none of them
/// subsumes, the two lists hold sets of the two halves only and cover the
/// two halves.
pub proof fn lemma_halves_covered(
    left_sets: Seq<Seq<u16>>,
    right_sets: Seq<Seq<u16>>,
    low: Seq<Seq<u16>>,
    sets_0: Seq<Seq<u16>>,
    kept: Seq<Seq<u16>>,
    w: nat,
)
    requires
        w <= 15,
        all_value_seqs(right_sets, w),
        all_value_seqs(sets_0, w),
        all_among(low, left_sets),
        covers(low, left_sets, w),
        all_among(low, sets_0),
        all_among(sets_0, low),
        kept == right_sets.filter(not_subsumed_by(sets_0, w)),
    ensures
        none_subsumed(sets_0, kept, w),
        all_among(sets_0 + kept, left_sets + right_sets),
        covers(sets_0 + kept, left_sets + right_sets, w),
{
    let both = sets_0 + kept;
    let all = left_sets + right_sets;
    lemma_filter_facts(right_sets, not_subsumed_by(sets_0, w));
    lemma_filtered_covers(sets_0, right_sets, w);
    lemma_among_part(left_sets, right_sets);
    lemma_among_transitive(sets_0, low, left_sets);
    lemma_among_transitive(sets_0, left_sets, all);
    lemma_among_transitive(kept, right_sets, all);
    lemma_among_both(sets_0, kept, all);
    lemma_among_part(sets_0, kept);
    lemma_covers_among(low, sets_0, left_sets, w);
    lemma_covers_among(sets_0, both, left_sets, w);
    lemma_covers_both(both, left_sets, right_sets, w);
}

/// Numbers that descend still do without the last.
pub proof fn lemma_sizes_without_last(sizes: Seq<nat>)
    requires
        sizes_descend(sizes),
    ensures
        sizes_descend(all_but_last(sizes)),
{
    if sizes.len() > 0 {
        assert forall|i: int| 0 <= i && i + 1 < sizes.drop_last().len() implies (
        #[trigger] sizes.drop_last()[i]) > sizes.drop_last()[i + 1] by {
            assert(sizes[i] > sizes[i + 1]);
        }
    }
}

/// Numbers that descend up to the one before the last, the last of them
/// smaller than the one before it, descend.
pub proof fn lemma_sizes_with_last(sizes: Seq<nat>)
    requires
        sizes.len() >= 2,
        sizes_descend(all_but_last(sizes)),
        sizes[sizes.len() - 2] > sizes[sizes.len() - 1],
    ensures
        sizes_descend(sizes),
{
    assert forall|i: int| 0 <= i && i + 1 < sizes.len() implies (#[trigger] sizes[i]) > sizes[i
        + 1] by {
        if i + 2 < sizes.len() {
            assert(sizes.drop_last()[i] > sizes.drop_last()[i + 1]);
        }
    }
}

/// Trees as an index keeps them, with one more tree that is a leaf whose
/// set no set of the trees subsumes, are trees as an index keeps them.
pub proof fn lemma_leaf_added<T>(trees: Seq<Node<T>>, leaf: Node<T>, w: nat)
    requires
        trees_ok(trees, w),
        leaf.wf(),
        leaf.width() == w,
        leaf.sets().len() == 1,
        forall|i: int|
            0 <= i < trees.len() ==> !some_subsumes((#[trigger] trees[i]).sets(), leaf.sets()[0], w),
    ensures
        trees_ok(trees.push(leaf), w),
{
    let now = trees.push(leaf);
    assert forall|i: int| 0 <= i < now.len() implies tree_ok(#[trigger] now[i], w) by {
        if i < trees.len() {
            assert(tree_ok(trees[i], w));
        }
    }
    assert forall|i: int, j: int| 0 <= i < j < now.len() implies #[trigger] none_subsumed(
        now[i].sets(),
        now[j].sets(),
        w,
    ) by {
        if j < trees.len() {
            assert(none_subsumed(trees[i].sets(), trees[j].sets(), w));
        } else {
            assert(!some_subsumes(trees[i].sets(), leaf.sets()[0], w));
        }
    }
}

/// The sets that putting two trees together leaves: those of `older` that
/// no set of `newer` subsumes, and then those of `newer`.
pub open spec fn merged_sets<T>(older: Node<T>, newer: Node<T>, w: nat) -> Seq<Seq<u16>> {
    older.sets().filter(not_subsumed_by(newer.sets(), w)) + newer.sets()
}

/// Whether `fresh` is a tree of what putting `older` and `newer` together
/// leaves.
pub open spec fn is_merge_of<T>(fresh: Node<T>, older: Node<T>, newer: Node<T>, w: nat) -> bool {
    &&& fresh.wf()
    &&& fresh.width() == w
    &&& all_among(fresh.sets(), merged_sets(older, newer, w))
    &&& all_among(merged_sets(older, newer, w), fresh.sets())
    &&& fresh.sets().len() <= merged_sets(older, newer, w).len()
}

/// A tree of what putting two trees together leaves, the second with no set
/// that a set of the first subsumes, is a tree none of whose sets subsumes
/// another; its sets are sets of the two, and every set of the two is
/// subsumed by one of its sets.
pub proof fn lemma_merge_of<T>(fresh: Node<T>, older: Node<T>, newer: Node<T>, w: nat)
    requires
        w <= 15,
        tree_ok(older, w),
        tree_ok(newer, w),
        none_subsumed(older.sets(), newer.sets(), w),
        is_merge_of(fresh, older, newer, w),
    ensures
        tree_ok(fresh, w),
        all_among(fresh.sets(), older.sets() + newer.sets()),
        covers(fresh.sets(), older.sets() + newer.sets(), w),
{
    reveal(covers);
    let keep = not_subsumed_by(newer.sets(), w);
    let kept = older.sets().filter(keep);
    let merged = kept + newer.sets();
    let both = older.sets() + newer.sets();
    lemma_tree_sets(older);
    lemma_tree_sets(newer);
    lemma_filter_facts(older.sets(), keep);
    lemma_antichain_filter(older.sets(), keep, w);
    assert(none_subsumed(newer.sets(), kept, w)) by {
        assert forall|i: int| 0 <= i < kept.len() implies !some_subsumes(
            newer.sets(),
            #[trigger] kept[i],
            w,
        ) by {
            assert(keep(kept[i]));
        }
    }
    assert(none_subsumed(kept, newer.sets(), w)) by {
        assert forall|j: int| 0 <= j < newer.sets().len() implies !some_subsumes(
            kept,
            #[trigger] newer.sets()[j],
            w,
        ) by {
            if some_subsumes(kept, newer.sets()[j], w) {
                lemma_some_subsumes_among(kept, older.sets(), newer.sets()[j], w);
            }
        }
    }
    lemma_antichain_concat(kept, newer.sets(), w);
    lemma_among_part(older.sets(), newer.sets());
    lemma_among_transitive(kept, older.sets(), both);
    lemma_among_both(kept, newer.sets(), both);
    assert(all_value_seqs(both, w)) by {
        assert forall|i: int| 0 <= i < both.len() implies is_value_seq(#[trigger] both[i], w) by {
            if i < older.sets().len() {
                assert(is_value_seq(older.sets()[i], w));
            } else {
                assert(is_value_seq(newer.sets()[i - older.sets().len()], w));
            }
        }
    }
    lemma_value_seqs_among(merged, both, w);
    lemma_antichain_rebuilt(merged, fresh.sets(), w);
    lemma_among_transitive(fresh.sets(), merged, both);
    assert(covers(merged, both, w)) by {
        assert forall|i: int| 0 <= i < both.len() implies some_subsumes(
            merged,
            #[trigger] both[i],
            w,
        ) by {
            let x = both[i];
            assert(is_value_seq(both[i], w));
            if i < older.sets().len() {
                assert(x == older.sets()[i]);
                if keep(x) {
                    assert(kept.contains(older.sets()[i]));
                    let l = choose|l: int| 0 <= l < kept.len() && kept[l] == x;
                    assert(merged[l] == x);
                    lemma_subsumption_reflexive(x, w);
                } else {
                    let m = choose|m: int|
                        0 <= m < newer.sets().len() && subsumes_under_permutation(
                            #[trigger] newer.sets()[m],
                            x,
                            w,
                        );
                    assert(merged[kept.len() + m] == newer.sets()[m]);
                }
            } else {
                assert(merged[kept.len() + i - older.sets().len()] == x);
                lemma_subsumption_reflexive(x, w);
            }
        }
    }
    lemma_covers_reflexive(merged, w);
    lemma_covers_among(merged, fresh.sets(), merged, w);
    lemma_covers_transitive(fresh.sets(), merged, both, w);
}

/// With the last two trees of an index put together, the trees are again as
/// an index keeps them, hold no set that was not held, and hold for every
/// set that was held a set that subsumes it.
pub proof fn lemma_trees_merged<T>(
    rest: Seq<Node<T>>,
    older: Node<T>,
    newer: Node<T>,
    fresh: Node<T>,
    w: nat,
)
    requires
        w <= 15,
        trees_ok(rest.push(older).push(newer), w),
        is_merge_of(fresh, older, newer, w),
    ensures
        trees_ok(rest.push(fresh), w),
        all_among(all_sets(rest.push(fresh)), all_sets(rest.push(older).push(newer))),
        covers(all_sets(rest.push(fresh)), all_sets(rest.push(older).push(newer)), w),
        all_sets(rest.push(fresh)).len() <= all_sets(rest.push(older).push(newer)).len(),
{
    let cur = rest.push(older).push(newer);
    let now = rest.push(fresh);
    let n = rest.len() as int;
    assert(cur[n] == older && cur[n + 1] == newer);
    assert(tree_ok(cur[n], w) && tree_ok(cur[n + 1], w));
    assert(none_subsumed(cur[n].sets(), cur[n + 1].sets(), w));
    lemma_merge_of(fresh, older, newer, w);
    assert forall|i: int| 0 <= i < now.len() implies tree_ok(#[trigger] now[i], w) by {
        if i < n {
            assert(tree_ok(cur[i], w));
        }
    }
    assert forall|i: int, j: int| 0 <= i < j < now.len() implies #[trigger] none_subsumed(
        now[i].sets(),
        now[j].sets(),
        w,
    ) by {
        if j < n {
            assert(none_subsumed(cur[i].sets(), cur[j].sets(), w));
        } else {
            assert(none_subsumed(cur[i].sets(), cur[n].sets(), w));
            assert(none_subsumed(cur[i].sets(), cur[n + 1].sets(), w));
            lemma_none_subsumed_among(
                cur[i].sets(),
                older.sets(),
                newer.sets(),
                fresh.sets(),
                w,
            );
        }
    }
    lemma_all_sets_push(rest, older);
    lemma_all_sets_push(rest.push(older), newer);
    lemma_all_sets_push(rest, fresh);
    let base = all_sets(rest);
    let both = older.sets() + newer.sets();
    assert(all_sets(cur) =~= base + both);
    assert forall|k: int| 0 <= k < rest.len() implies tree_ok(#[trigger] rest[k], w) by {
        assert(tree_ok(cur[k], w));
    }
    lemma_sets_of_trees(rest, w);
    lemma_covers_reflexive(base, w);
    lemma_joined(base, fresh.sets(), both, w);
    lemma_filter_facts(older.sets(), not_subsumed_by(newer.sets(), w));
}

/// The sets of trees on `w` channels are output sets on `w` channels.
pub proof fn lemma_sets_of_trees<T>(trees: Seq<Node<T>>, w: nat)
    requires
        forall|i: int| 0 <= i < trees.len() ==> tree_ok(#[trigger] trees[i], w),
    ensures
        all_value_seqs(all_sets(trees), w),
{
    assert forall|k: int| 0 <= k < all_sets(trees).len() implies is_value_seq(
        #[trigger] all_sets(trees)[k],
        w,
    ) by {
        let x = all_sets(trees)[k];
        assert(all_sets(trees).contains(x));
        lemma_all_sets(trees, x);
        let i = choose|i: int| 0 <= i < trees.len() && (#[trigger] trees[i]).sets().contains(x);
        assert(tree_ok(trees[i], w));
        lemma_tree_sets(trees[i]);
        let l = choose|l: int| 0 <= l < trees[i].sets().len() && trees[i].sets()[l] == x;
        assert(is_value_seq(trees[i].sets()[l], w));
    }
}

/// The pairs at the leaves of a tree, right to left.
pub open spec fn back_to_front<T>(node: Node<T>) -> Seq<PairView>
    decreases node,
{
    match node {
        Node::Leaf(pair) => seq![pair@],
        Node::Inner { left, right, .. } => back_to_front(*right) + back_to_front(*left),
    }
}

/// The pairs at the leaves of the trees, from the last tree to the first
/// and in each tree right to left.
pub open spec fn yet_to_come<T>(nodes: Seq<Node<T>>) -> Seq<PairView>
    decreases nodes.len(),
{
    if nodes.len() == 0 {
        Seq::empty()
    } else {
        back_to_front(nodes.last()) + yet_to_come(nodes.drop_last())
    }
}

/// How many nodes a tree has.
pub open spec fn node_count<T>(node: Node<T>) -> nat
    decreases node,
{
    match node {
        Node::Leaf(_) => 1,
        Node::Inner { left, right, .. } => 1 + node_count(*left) + node_count(*right),
    }
}

/// How many nodes the trees have together.
pub open spec fn all_node_count<T>(nodes: Seq<Node<T>>) -> nat
    decreases nodes.len(),
{
    if nodes.len() == 0 {
        0
    } else {
        node_count(nodes.last()) + all_node_count(nodes.drop_last())
    }
}

/// With one more tree, the pairs of that tree come first and its nodes
/// count as well.
pub proof fn lemma_one_more_tree<T>(nodes: Seq<Node<T>>, node: Node<T>)
    ensures
        yet_to_come(nodes.push(node)) == back_to_front(node) + yet_to_come(nodes),
        all_node_count(nodes.push(node)) == node_count(node) + all_node_count(nodes),
{
    assert(nodes.push(node).drop_last() =~= nodes);
    assert(nodes.push(node).last() == node);
}

/// The pairs of a tree, one after the other, from the rightmost leaf to the
/// leftmost.
#[verifier::reject_recursive_types(T)]
pub struct NodeIter<T> {
    nodes: Vec<Node<T>>,
}

impl<T: SubsumeIndexItem> NodeIter<T> {
    /// The pairs that are still to come, in the order in which they come.
    pub closed spec fn remaining(&self) -> Seq<PairView> {
        yet_to_come(self.nodes@)
    }

    /// The invariant: what is left of the tree are trees.
    pub closed spec fn wf(&self) -> bool {
        forall|i: int| 0 <= i < self.nodes@.len() ==> (#[trigger] self.nodes@[i]).wf()
    }

    /// The next pair, if there is one.
    pub fn next(&mut self) -> (r: Option<AbstractedPair<T>>)
        requires
            old(self).wf(),
        ensures
            final(self).wf(),
            match r {
                Some(pair) => {
                    &&& old(self).remaining().len() > 0
                    &&& pair@ == old(self).remaining()[0]
                    &&& pair.wf()
                    &&& final(self).remaining() == old(self).remaining().skip(1)
                },
                None => old(self).remaining().len() == 0 && final(self).remaining().len() == 0,
            },
    {
        let ghost coming = self.remaining();
        while self.nodes.len() > 0
            invariant
                self.wf(),
                self.remaining() == coming,
                coming == old(self).remaining(),
            decreases all_node_count(self.nodes@),
        {
            let ghost before = self.nodes@;
            let node = self.nodes.pop().unwrap();
            let ghost rest = self.nodes@;
            proof {
                assert(before =~= rest.push(node));
                lemma_one_more_tree(rest, node);
                assert(before[before.len() - 1].wf());
            }
            match node {
                Node::Leaf(kept) => {
                    let pair = kept.mutex_unwrap();
                    proof {
                        assert(kept.wf());
                        assert(pair@ == kept@);
                        assert(coming =~= seq![pair@] + yet_to_come(rest));
                        assert(coming.skip(1) =~= yet_to_come(rest));
                        assert forall|i: int| 0 <= i < rest.len() implies (#[trigger] rest[i]).wf() by {
                            assert(rest[i] == before[i]);
                        }
                    }
                    return Some(pair);
                },
                Node::Inner { left, right, .. } => {
                    let ghost l = *left;
                    let ghost r = *right;
                    self.nodes.push(*left);
                    self.nodes.push(*right);
                    proof {
                        let now = self.nodes@;
                        lemma_one_more_tree(rest, l);
                        lemma_one_more_tree(rest.push(l), r);
                        assert(yet_to_come(now) =~= back_to_front(r) + (back_to_front(l)
                            + yet_to_come(rest)));
                        assert(yet_to_come(now) =~= coming);
                        assert forall|i: int| 0 <= i < now.len() implies (#[trigger] now[i]).wf() by {
                            if i < rest.len() {
                                assert(now[i] == before[i]);
                            }
                        }
                    }
                },
            }
        }
        proof {
            assert(self.nodes@ =~= Seq::<Node<T>>::empty());
        }
        None
    }
}

impl<T: SubsumeIndexItem> Node<T> {
    /// The pairs of the tree, one after the other.
    pub fn into_iter(self) -> (r: NodeIter<T>)
        requires
            self.wf(),
        ensures
            r.wf(),
            r.remaining() == back_to_front(self),
    {
        let mut nodes: Vec<Node<T>> = Vec::new();
        nodes.push(self);
        let r = NodeIter { nodes };
        proof {
            lemma_one_more_tree(Seq::<Node<T>>::empty(), self);
            assert(r.nodes@ =~= Seq::<Node<T>>::empty().push(self));
            assert(yet_to_come(Seq::<Node<T>>::empty()) =~= Seq::<PairView>::empty());
            assert(yet_to_come(r.nodes@) =~= back_to_front(self));
        }
        r
    }

    /// The two halves of an inner node; a leaf itself.
    pub fn split(self) -> (r: (Self, Option<Self>))
        ensures
            self is Inner <==> r.1 is Some,
            match r.1 {
                Some(right) => self.leaves() == r.0.leaves() + right.leaves() && (self.wf() ==> r.0.wf()
                    && right.wf() && r.0.width() == self.width() && right.width() == self.width()),
                None => r.0 == self,
            },
            self is Inner ==> r.0 == *self->left && r.1 == Some(*self->right),
    {
        match self {
            Node::Inner { left, right, .. } => (*left, Some(*right)),
            node => (node, None),
        }
    }
}

/// The abstraction of an output set is determined by the set.
pub proof fn lemma_counts_of_same_set(a: PairView, b: PairView, w: nat)
    requires
        a.wf(w),
        b.wf(w),
        a.set == b.set,
    ensures
        a.counts == b.counts,
{
    assert forall|i: int| 0 <= i < a.counts.len() implies a.counts[i] == b.counts[i] by {
        crate::abstraction::lemma_slot_of_position(w, i);
        let c = crate::abstraction::channel_of_position(w, i);
        let k = crate::abstraction::weight_of_position(w, i);
        let one = i % 2 == 1;
        assert(i == crate::abstraction::slot_index(w, c, k, one));
    }
    assert(a.counts =~= b.counts);
}

} // verus!
