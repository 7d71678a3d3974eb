//! Taking the pairs that a generator makes of a list of inputs into an
//! antichain, round by round.

use vstd::prelude::*;
use crate::antichain::{lemma_value_seqs_among, lemma_covers_push, all_among, all_value_seqs, covers, is_antichain, none_subsumed, some_subsumes, lemma_among_transitive, lemma_antichain_rebuilt, lemma_first_round, lemma_round_merged, lemma_covers_among, lemma_covers_transitive, lemma_among_part, lemma_some_subsumes_among, lemma_subsumption_reflexive};
use crate::output_set::is_value_seq;
use crate::subsumption::subsumes_under_permutation;
use crate::subsume_index::{AbstractedPair, Node, SubsumeIndexItem, all_pairs, sets_of, views, tree_ok, reversed, lemma_sets_of_pairs};

verus! {

/// The output sets of the tree, if there is one.
pub open spec fn sets_in<T>(node: Option<Node<T>>) -> Seq<Seq<u16>> {
    match node {
        Some(tree) => tree.sets(),
        None => Seq::empty(),
    }
}

/// Whether `node`, if it is a tree, is a tree on `w` channels no set of
/// which subsumes another.
pub open spec fn accepted_ok<T>(node: Option<Node<T>>, w: nat) -> bool {
    match node {
        Some(tree) => tree_ok(tree, w),
        None => true,
    }
}

/// Looks in the tree, if there is one, for a pair that subsumes `pair` under
/// a permutation of the channels. If there is one, what is kept with `pair`
/// is combined into what is kept with it; if there is none, `pair` is handed
/// back.
pub fn admit_pair<T: SubsumeIndexItem>(node: &Option<Node<T>>, pair: AbstractedPair<T>) -> (r:
    Result<(), AbstractedPair<T>>)
    requires
        pair.wf(),
        accepted_ok(*node, pair.width()),
    ensures
        r is Ok <==> some_subsumes(sets_in(*node), pair@.set, pair.width()),
        r is Err ==> r->Err_0@ == pair@ && r->Err_0.item == pair.item && r->Err_0.wf()
            && r->Err_0.width() == pair.width(),
{
    match node {
        Some(tree) => tree.combine_with_subsuming(pair),
        None => Err(pair),
    }
}

/// Takes the pairs of a round into the accepted pairs: of `outputs`, a tree
/// of those that no other of them subsumes, together with the pairs of
/// `node` that none of `outputs` subsumes.
pub fn merge_round<T: SubsumeIndexItem>(node: Option<Node<T>>, outputs: Vec<AbstractedPair<T>>) -> (r:
    Node<T>)
    requires
        outputs@.len() > 0,
        all_pairs(outputs@, outputs@[0].width()),
        accepted_ok(node, outputs@[0].width()),
        none_subsumed(sets_in(node), sets_of(views(outputs@)), outputs@[0].width()),
    ensures
        tree_ok(r, outputs@[0].width()),
        all_among(r.sets(), sets_in(node) + sets_of(views(outputs@))),
        covers(r.sets(), sets_in(node) + sets_of(views(outputs@)), outputs@[0].width()),
{
    let ghost w = outputs@[0].width();
    let ghost given = sets_of(views(outputs@));
    let ghost held = sets_in(node);
    proof {
        assert(outputs@[0].wf());
    }
    let fresh = Node::new(outputs);
    let ghost fresh_sets = fresh.sets();
    match node {
        Some(tree) => {
            let held_pairs = tree.drain();
            proof {
                assert(sets_of(views(held_pairs@)) =~= held);
            }
            let mut pairs = fresh.reject_subsumed(held_pairs);
            let ghost kept = sets_of(views(pairs@));
            let ghost kept_pairs = pairs@;
            let mut rest = fresh.minimal_elements();
            let ghost least = sets_of(views(rest@));
            let ghost least_pairs = rest@;
            pairs.append(&mut rest);
            proof {
                assert(pairs@ =~= kept_pairs + least_pairs);
                assert(sets_of(views(pairs@)) =~= kept + least);
                assert(pairs@[pairs@.len() - 1] == least_pairs[least_pairs.len() - 1]);
                assert(least_pairs[least_pairs.len() - 1].wf());
                assert(least_pairs[0].wf());
                assert(pairs@[0].wf());
            }
            let merged = Node::new(pairs);
            proof {
                tree.lemma_leaves();
                lemma_round_merged(held, given, fresh_sets, kept, least, merged.sets(), w);
            }
            merged
        },
        None => {
            let least_pairs = fresh.minimal_elements();
            let ghost least = sets_of(views(least_pairs@));
            proof {
                assert(least_pairs@[0].wf());
                lemma_sets_of_pairs(least_pairs@, w);
            }
            let merged = Node::new(least_pairs);
            proof {
                lemma_antichain_rebuilt(least, merged.sets(), w);
                assert(held + given =~= given);
                lemma_among_transitive(merged.sets(), least, fresh_sets);
                lemma_among_transitive(merged.sets(), fresh_sets, given);
                lemma_first_round(given, fresh_sets, least, merged.sets(), w);
            }
            merged
        },
    }
}

/// Whether `generator` returns pairs on `w` channels, whatever it is given.
pub open spec fn produces_pairs<T, In, G: Fn(In) -> Vec<AbstractedPair<T>>>(
    generator: G,
    w: nat,
) -> bool {
    &&& w <= 15
    &&& forall|input: In, out: Vec<AbstractedPair<T>>| #[trigger]
        call_ensures(generator, (input,), out) ==> all_pairs(out@, w)
}

/// The number of channels of the pairs that `generator` returns.
pub open spec fn production_width<T, In, G: Fn(In) -> Vec<AbstractedPair<T>>>(generator: G) -> nat {
    choose|w: nat| produces_pairs::<T, In, G>(generator, w)
}

/// Whether `x` is the output set of a pair that `generator` may return for
/// one of `inputs`.
pub open spec fn may_produce<T, In, G: Fn(In) -> Vec<AbstractedPair<T>>>(
    generator: G,
    inputs: Seq<In>,
    x: Seq<u16>,
) -> bool {
    exists|i: int, out: Vec<AbstractedPair<T>>|
        0 <= i < inputs.len() && #[trigger] call_ensures(generator, (inputs[i],), out) && sets_of(
            views(out@),
        ).contains(x)
}

/// Whether `generator` may return for `input` pairs whose output sets are
/// all among `v`.
pub open spec fn production_among<T, In, G: Fn(In) -> Vec<AbstractedPair<T>>>(
    generator: G,
    input: In,
    v: Seq<Seq<u16>>,
) -> bool {
    exists|out: Vec<AbstractedPair<T>>| #[trigger]
        call_ensures(generator, (input,), out) && all_among(sets_of(views(out@)), v)
}

/// Whether `generator` may return for `input` pairs each of whose output
/// sets is subsumed by a set of `v`.
pub open spec fn production_covered<T, In, G: Fn(In) -> Vec<AbstractedPair<T>>>(
    generator: G,
    input: In,
    v: Seq<Seq<u16>>,
    w: nat,
) -> bool {
    exists|out: Vec<AbstractedPair<T>>| #[trigger]
        call_ensures(generator, (input,), out) && covers(v, sets_of(views(out@)), w)
}

/// The sets that wait to be taken in or are taken in: the accepted ones,
/// the spilled ones and those of the round.
pub open spec fn pending(n: Seq<Seq<u16>>, s: Seq<Seq<u16>>, o: Seq<Seq<u16>>) -> Seq<Seq<u16>> {
    n + s + o
}

/// Whether the pending sets are among the sets seen so far and cover them.
#[verifier::opaque]
pub open spec fn keeps_up(p: Seq<Seq<u16>>, seen: Seq<Seq<u16>>, w: nat) -> bool {
    &&& w <= 15
    &&& all_value_seqs(seen, w)
    &&& all_among(p, seen)
    &&& covers(p, seen, w)
}

/// A set is pending exactly if it is accepted, spilled or of the round.
pub proof fn lemma_pending(n: Seq<Seq<u16>>, s: Seq<Seq<u16>>, o: Seq<Seq<u16>>, x: Seq<u16>)
    ensures
        pending(n, s, o).contains(x) <==> n.contains(x) || s.contains(x) || o.contains(x),
{
    let p = pending(n, s, o);
    if p.contains(x) {
        let k = choose|k: int| 0 <= k < p.len() && p[k] == x;
        if k < n.len() {
            assert(n[k] == x);
        } else if k < n.len() + s.len() {
            assert(s[k - n.len()] == x);
        } else {
            assert(o[k - n.len() - s.len()] == x);
        }
    }
    if n.contains(x) {
        let k = choose|k: int| 0 <= k < n.len() && n[k] == x;
        assert(p[k] == x);
    }
    if s.contains(x) {
        let k = choose|k: int| 0 <= k < s.len() && s[k] == x;
        assert(p[n.len() + k] == x);
    }
    if o.contains(x) {
        let k = choose|k: int| 0 <= k < o.len() && o[k] == x;
        assert(p[n.len() + s.len() + k] == x);
    }
}

/// A list with every set of another list, or a set that subsumes it, keeps
/// up with what the other list keeps up with, if its own sets are among
/// those of the other list.
pub proof fn lemma_still_keeps_up(p: Seq<Seq<u16>>, q: Seq<Seq<u16>>, seen: Seq<Seq<u16>>, w: nat)
    requires
        keeps_up(p, seen, w),
        all_among(q, p),
        forall|k: int| 0 <= k < p.len() ==> q.contains(#[trigger] p[k]) || some_subsumes(q, p[k], w),
    ensures
        keeps_up(q, seen, w),
{
    reveal(covers);
    reveal(keeps_up);
    lemma_among_transitive(q, p, seen);
    lemma_value_seqs_among(p, seen, w);
    assert(covers(q, p, w)) by {
        assert forall|k: int| 0 <= k < p.len() implies some_subsumes(q, #[trigger] p[k], w) by {
            if q.contains(p[k]) {
                let l = choose|l: int| 0 <= l < q.len() && q[l] == p[k];
                lemma_subsumption_reflexive(p[k], w);
            }
        }
    }
    lemma_covers_transitive(q, p, seen, w);
}

/// The accepted sets are pending.
pub proof fn lemma_first_part(n: Seq<Seq<u16>>, s: Seq<Seq<u16>>, o: Seq<Seq<u16>>)
    ensures
        all_among(n, pending(n, s, o)),
{
    reveal(all_among);
    assert forall|i: int| 0 <= i < n.len() implies pending(n, s, o).contains(#[trigger] n[i]) by {
        assert(pending(n, s, o)[i] == n[i]);
    }
}

/// A spilled set that an accepted set subsumes can go.
pub proof fn lemma_step_drop(
    n: Seq<Seq<u16>>,
    s: Seq<Seq<u16>>,
    o: Seq<Seq<u16>>,
    seen: Seq<Seq<u16>>,
    w: nat,
)
    requires
        s.len() > 0,
        some_subsumes(n, s.last(), w),
        keeps_up(pending(n, s, o), seen, w),
    ensures
        keeps_up(pending(n, s.drop_last(), o), seen, w),
{
    reveal(all_among);
    let p = pending(n, s, o);
    let q = pending(n, s.drop_last(), o);
    assert forall|k: int| 0 <= k < q.len() implies p.contains(#[trigger] q[k]) by {
        assert(q.contains(q[k]));
        lemma_pending(n, s.drop_last(), o, q[k]);
        lemma_pending(n, s, o, q[k]);
        if s.drop_last().contains(q[k]) {
            let l = choose|l: int| 0 <= l < s.drop_last().len() && s.drop_last()[l] == q[k];
            assert(s[l] == q[k]);
        }
    }
    assert forall|k: int| 0 <= k < p.len() implies q.contains(#[trigger] p[k]) || some_subsumes(
        q,
        p[k],
        w,
    ) by {
        assert(p.contains(p[k]));
        lemma_pending(n, s, o, p[k]);
        lemma_pending(n, s.drop_last(), o, p[k]);
        if s.contains(p[k]) {
            let l = choose|l: int| 0 <= l < s.len() && s[l] == p[k];
            if l < s.len() - 1 {
                assert(s.drop_last()[l] == p[k]);
            } else {
                lemma_first_part(n, s.drop_last(), o);
                lemma_some_subsumes_among(n, q, p[k], w);
            }
        }
    }
    lemma_still_keeps_up(p, q, seen, w);
}

/// A spilled set can become a set of the round.
pub proof fn lemma_step_move(
    n: Seq<Seq<u16>>,
    s: Seq<Seq<u16>>,
    o: Seq<Seq<u16>>,
    seen: Seq<Seq<u16>>,
    w: nat,
)
    requires
        s.len() > 0,
        keeps_up(pending(n, s, o), seen, w),
    ensures
        keeps_up(pending(n, s.drop_last(), o.push(s.last())), seen, w),
{
    reveal(all_among);
    let p = pending(n, s, o);
    let q = pending(n, s.drop_last(), o.push(s.last()));
    assert forall|k: int| 0 <= k < q.len() implies p.contains(#[trigger] q[k]) by {
        assert(q.contains(q[k]));
        lemma_pending(n, s.drop_last(), o.push(s.last()), q[k]);
        lemma_pending(n, s, o, q[k]);
        if s.drop_last().contains(q[k]) {
            let l = choose|l: int| 0 <= l < s.drop_last().len() && s.drop_last()[l] == q[k];
            assert(s[l] == q[k]);
        }
        if o.push(s.last()).contains(q[k]) {
            let l = choose|l: int| 0 <= l < o.push(s.last()).len() && o.push(s.last())[l] == q[k];
            if l < o.len() {
                assert(o[l] == q[k]);
            } else {
                assert(s[s.len() - 1] == q[k]);
            }
        }
    }
    assert forall|k: int| 0 <= k < p.len() implies q.contains(#[trigger] p[k]) || some_subsumes(
        q,
        p[k],
        w,
    ) by {
        assert(p.contains(p[k]));
        lemma_pending(n, s, o, p[k]);
        lemma_pending(n, s.drop_last(), o.push(s.last()), p[k]);
        if s.contains(p[k]) {
            let l = choose|l: int| 0 <= l < s.len() && s[l] == p[k];
            if l < s.len() - 1 {
                assert(s.drop_last()[l] == p[k]);
            } else {
                assert(o.push(s.last())[o.len() as int] == p[k]);
            }
        }
        if o.contains(p[k]) {
            let l = choose|l: int| 0 <= l < o.len() && o[l] == p[k];
            assert(o.push(s.last())[l] == p[k]);
        }
    }
    lemma_still_keeps_up(p, q, seen, w);
}

/// One more set is seen that an accepted set subsumes.
pub proof fn lemma_step_absorbed(
    n: Seq<Seq<u16>>,
    s: Seq<Seq<u16>>,
    o: Seq<Seq<u16>>,
    seen: Seq<Seq<u16>>,
    y: Seq<u16>,
    w: nat,
)
    requires
        is_value_seq(y, w),
        some_subsumes(n, y, w),
        keeps_up(pending(n, s, o), seen, w),
    ensures
        keeps_up(pending(n, s, o), seen.push(y), w),
{
    reveal(keeps_up);
    let p = pending(n, s, o);
    lemma_seen_more(seen, y, w);
    lemma_among_transitive(p, seen, seen.push(y));
    lemma_among_part(n, s);
    lemma_among_part(n + s, o);
    lemma_among_transitive(n, n + s, p);
    lemma_some_subsumes_among(n, p, y, w);
    lemma_covers_push(p, seen, y, w);
}

/// The sets seen with one more output set are output sets and hold the
/// sets seen.
pub proof fn lemma_seen_more(seen: Seq<Seq<u16>>, y: Seq<u16>, w: nat)
    requires
        all_value_seqs(seen, w),
        is_value_seq(y, w),
    ensures
        all_value_seqs(seen.push(y), w),
        all_among(seen, seen.push(y)),
        seen.push(y).contains(y),
{
    reveal(all_among);
    let more = seen.push(y);
    assert forall|i: int| 0 <= i < more.len() implies is_value_seq(#[trigger] more[i], w) by {
        if i < seen.len() {
            assert(more[i] == seen[i]);
        }
    }
    assert forall|i: int| 0 <= i < seen.len() implies more.contains(#[trigger] seen[i]) by {
        assert(more[i] == seen[i]);
    }
    assert(more[seen.len() as int] == y);
}

/// A list that holds the pending sets and one more output set, and no
/// others, keeps up with the sets seen and that set.
pub proof fn lemma_step_kept(p: Seq<Seq<u16>>, q: Seq<Seq<u16>>, seen: Seq<Seq<u16>>, y: Seq<u16>, w: nat)
    requires
        is_value_seq(y, w),
        keeps_up(p, seen, w),
        all_among(p, q),
        q.contains(y),
        forall|k: int| 0 <= k < q.len() ==> p.contains(#[trigger] q[k]) || q[k] == y,
    ensures
        keeps_up(q, seen.push(y), w),
{
    reveal(all_among);
    reveal(keeps_up);
    let more = seen.push(y);
    lemma_seen_more(seen, y, w);
    assert(all_among(q, more)) by {
        assert forall|k: int| 0 <= k < q.len() implies more.contains(#[trigger] q[k]) by {
            if p.contains(q[k]) {
                let l = choose|l: int| 0 <= l < p.len() && p[l] == q[k];
                assert(seen.contains(p[l]));
                let m = choose|m: int| 0 <= m < seen.len() && seen[m] == q[k];
                assert(more[m] == q[k]);
            }
        }
    }
    lemma_covers_among(p, q, seen, w);
    lemma_subsumption_reflexive(y, w);
    let l = choose|l: int| 0 <= l < q.len() && q[l] == y;
    assert(subsumes_under_permutation(q[l], y, w));
    assert(some_subsumes(q, y, w));
    lemma_covers_push(q, seen, y, w);
}

/// One more set is seen and joins the sets of the round.
pub proof fn lemma_step_output(
    n: Seq<Seq<u16>>,
    s: Seq<Seq<u16>>,
    o: Seq<Seq<u16>>,
    seen: Seq<Seq<u16>>,
    y: Seq<u16>,
    w: nat,
)
    requires
        is_value_seq(y, w),
        keeps_up(pending(n, s, o), seen, w),
    ensures
        keeps_up(pending(n, s, o.push(y)), seen.push(y), w),
{
    reveal(all_among);
    let p = pending(n, s, o);
    let q = pending(n, s, o.push(y));
    assert(o.push(y)[o.len() as int] == y);
    lemma_pending(n, s, o.push(y), y);
    assert forall|k: int| 0 <= k < p.len() implies q.contains(#[trigger] p[k]) by {
        assert(p.contains(p[k]));
        lemma_pending(n, s, o, p[k]);
        lemma_pending(n, s, o.push(y), p[k]);
        if o.contains(p[k]) {
            let l = choose|l: int| 0 <= l < o.len() && o[l] == p[k];
            assert(o.push(y)[l] == p[k]);
        }
    }
    assert forall|k: int| 0 <= k < q.len() implies p.contains(#[trigger] q[k]) || q[k] == y by {
        assert(q.contains(q[k]));
        lemma_pending(n, s, o.push(y), q[k]);
        lemma_pending(n, s, o, q[k]);
        if o.push(y).contains(q[k]) {
            let l = choose|l: int| 0 <= l < o.push(y).len() && o.push(y)[l] == q[k];
            if l < o.len() {
                assert(o[l] == q[k]);
            }
        }
    }
    lemma_step_kept(p, q, seen, y, w);
}

/// One more set is seen and is spilled.
pub proof fn lemma_step_spill(
    n: Seq<Seq<u16>>,
    s: Seq<Seq<u16>>,
    o: Seq<Seq<u16>>,
    seen: Seq<Seq<u16>>,
    y: Seq<u16>,
    w: nat,
)
    requires
        is_value_seq(y, w),
        keeps_up(pending(n, s, o), seen, w),
    ensures
        keeps_up(pending(n, s.push(y), o), seen.push(y), w),
{
    reveal(all_among);
    let p = pending(n, s, o);
    let q = pending(n, s.push(y), o);
    assert(s.push(y)[s.len() as int] == y);
    lemma_pending(n, s.push(y), o, y);
    assert forall|k: int| 0 <= k < p.len() implies q.contains(#[trigger] p[k]) by {
        assert(p.contains(p[k]));
        lemma_pending(n, s, o, p[k]);
        lemma_pending(n, s.push(y), o, p[k]);
        if s.contains(p[k]) {
            let l = choose|l: int| 0 <= l < s.len() && s[l] == p[k];
            assert(s.push(y)[l] == p[k]);
        }
    }
    assert forall|k: int| 0 <= k < q.len() implies p.contains(#[trigger] q[k]) || q[k] == y by {
        assert(q.contains(q[k]));
        lemma_pending(n, s.push(y), o, q[k]);
        lemma_pending(n, s, o, q[k]);
        if s.push(y).contains(q[k]) {
            let l = choose|l: int| 0 <= l < s.push(y).len() && s.push(y)[l] == q[k];
            if l < s.len() {
                assert(s[l] == q[k]);
            }
        }
    }
    lemma_step_kept(p, q, seen, y, w);
}

/// The sets of a round are taken in.
pub proof fn lemma_step_merge(
    n: Seq<Seq<u16>>,
    s: Seq<Seq<u16>>,
    o: Seq<Seq<u16>>,
    merged: Seq<Seq<u16>>,
    seen: Seq<Seq<u16>>,
    w: nat,
)
    requires
        keeps_up(pending(n, s, o), seen, w),
        all_among(merged, n + o),
        covers(merged, n + o, w),
    ensures
        keeps_up(pending(merged, s, Seq::empty()), seen, w),
{
    reveal(all_among);
    reveal(covers);
    let p = pending(n, s, o);
    let q = pending(merged, s, Seq::empty());
    assert forall|k: int| 0 <= k < q.len() implies p.contains(#[trigger] q[k]) by {
        assert(q.contains(q[k]));
        lemma_pending(merged, s, Seq::empty(), q[k]);
        lemma_pending(n, s, o, q[k]);
        if merged.contains(q[k]) {
            let l = choose|l: int| 0 <= l < merged.len() && merged[l] == q[k];
            assert((n + o).contains(merged[l]));
            let m = choose|m: int| 0 <= m < (n + o).len() && (n + o)[m] == q[k];
            if m < n.len() {
                assert(n[m] == q[k]);
            } else {
                assert(o[m - n.len()] == q[k]);
            }
        }
    }
    assert forall|k: int| 0 <= k < p.len() implies q.contains(#[trigger] p[k]) || some_subsumes(
        q,
        p[k],
        w,
    ) by {
        assert(p.contains(p[k]));
        lemma_pending(n, s, o, p[k]);
        lemma_pending(merged, s, Seq::empty(), p[k]);
        if !s.contains(p[k]) {
            let m = if n.contains(p[k]) {
                choose|m: int| 0 <= m < n.len() && n[m] == p[k]
            } else {
                n.len() + choose|m: int| 0 <= m < o.len() && o[m] == p[k]
            };
            assert((n + o)[m] == p[k]);
            assert(some_subsumes(merged, (n + o)[m], w));
            lemma_first_part(merged, s, Seq::empty());
            lemma_some_subsumes_among(merged, q, p[k], w);
        }
    }
    lemma_still_keeps_up(p, q, seen, w);
}

/// What `generator` may return with sets among a list, it may return with
/// sets among every list that holds the sets of the list.
pub proof fn lemma_production_grows<T, In, G: Fn(In) -> Vec<AbstractedPair<T>>>(
    generator: G,
    input: In,
    v: Seq<Seq<u16>>,
    more: Seq<Seq<u16>>,
)
    requires
        production_among(generator, input, v),
        all_among(v, more),
    ensures
        production_among(generator, input, more),
{
    let out = choose|out: Vec<AbstractedPair<T>>| #[trigger]
        call_ensures(generator, (input,), out) && all_among(sets_of(views(out@)), v);
    lemma_among_transitive(sets_of(views(out@)), v, more);
}

/// What covers the sets seen covers what `generator` may return with sets
/// among them.
pub proof fn lemma_production_covered<T, In, G: Fn(In) -> Vec<AbstractedPair<T>>>(
    generator: G,
    input: In,
    seen: Seq<Seq<u16>>,
    v: Seq<Seq<u16>>,
    w: nat,
)
    requires
        production_among(generator, input, seen),
        covers(v, seen, w),
    ensures
        production_covered(generator, input, v, w),
{
    reveal(all_among);
    reveal(covers);
    let out = choose|out: Vec<AbstractedPair<T>>| #[trigger]
        call_ensures(generator, (input,), out) && all_among(sets_of(views(out@)), seen);
    let sets = sets_of(views(out@));
    assert forall|i: int| 0 <= i < sets.len() implies some_subsumes(v, #[trigger] sets[i], w) by {
        assert(seen.contains(sets[i]));
        let k = choose|k: int| 0 <= k < seen.len() && seen[k] == sets[i];
        assert(some_subsumes(v, seen[k], w));
    }
}

/// Whether the run so far is in order: the sets seen are sets that
/// `generator` may return for one of `inputs`, for each of the first `done`
/// inputs it may return pairs whose sets have all been seen, and the pending
/// sets keep up with the sets seen.
pub open spec fn run_ok<T, In, G: Fn(In) -> Vec<AbstractedPair<T>>>(
    generator: G,
    inputs: Seq<In>,
    done: int,
    seen: Seq<Seq<u16>>,
    p: Seq<Seq<u16>>,
    w: nat,
) -> bool {
    &&& 0 <= done <= inputs.len()
    &&& forall|k: int| 0 <= k < seen.len() ==> may_produce(generator, inputs, #[trigger] seen[k])
    &&& forall|i: int| 0 <= i < done ==> production_among(generator, #[trigger] inputs[i], seen)
    &&& keeps_up(p, seen, w)
}

/// Seeing one more set that `generator` may return leaves the run in order,
/// if the pending sets keep up.
pub proof fn lemma_run_sees<T, In, G: Fn(In) -> Vec<AbstractedPair<T>>>(
    generator: G,
    inputs: Seq<In>,
    done: int,
    seen: Seq<Seq<u16>>,
    p: Seq<Seq<u16>>,
    q: Seq<Seq<u16>>,
    y: Seq<u16>,
    w: nat,
)
    requires
        run_ok(generator, inputs, done, seen, p, w),
        may_produce(generator, inputs, y),
        is_value_seq(y, w),
        keeps_up(q, seen.push(y), w),
    ensures
        run_ok(generator, inputs, done, seen.push(y), q, w),
{
    reveal(keeps_up);
    let more = seen.push(y);
    lemma_seen_more(seen, y, w);
    assert forall|k: int| 0 <= k < more.len() implies may_produce(
        generator,
        inputs,
        #[trigger] more[k],
    ) by {
        if k < seen.len() {
            assert(more[k] == seen[k]);
        }
    }
    assert forall|i: int| 0 <= i < done implies production_among(
        generator,
        #[trigger] inputs[i],
        more,
    ) by {
        lemma_production_grows(generator, inputs[i], seen, more);
    }
}

/// Takes the pairs that `generator` makes of `inputs` into an antichain:
/// returns pairs, each with the output set of a pair that `generator` made,
/// none of which subsumes another under a permutation of the channels, such
/// that every pair that `generator` made is subsumed by one of them. What
/// is kept with the pairs that are not returned is combined into what is
/// kept with pairs that subsume them.
///
/// The pairs are taken in in rounds, 1024 in the first and twice as many in
/// each round as in the one before. A pair that no accepted pair subsumes
/// when it is made waits for the end of the round, or, once the round is
/// full, for a later round; at the end of the round the accepted pairs and
/// those of the round are put together.
pub fn incremental_minimal_elements<T, In, G>(inputs: Vec<In>, generator: G) -> (r: Vec<
    AbstractedPair<T>,
>) where T: SubsumeIndexItem, G: Fn(In) -> Vec<AbstractedPair<T>>
    requires
        forall|i: int| 0 <= i < inputs@.len() ==> call_requires(generator, (#[trigger] inputs@[i],)),
        exists|w: nat| produces_pairs::<T, In, G>(generator, w),
    ensures
        all_pairs(r@, production_width::<T, In, G>(generator)),
        is_antichain(sets_of(views(r@)), production_width::<T, In, G>(generator)),
        forall|k: int|
            0 <= k < r@.len() ==> may_produce(
                generator,
                inputs@,
                #[trigger] sets_of(views(r@))[k],
            ),
        forall|i: int|
            0 <= i < inputs@.len() ==> production_covered(
                generator,
                #[trigger] inputs@[i],
                sets_of(views(r@)),
                production_width::<T, In, G>(generator),
            ),
{
    let ghost w = production_width::<T, In, G>(generator);
    let ghost given = inputs@;
    let ghost count = inputs@.len();
    let mut stack = reversed(inputs);
    let mut spill: Vec<AbstractedPair<T>> = Vec::new();
    let mut node: Option<Node<T>> = None;
    let mut chunk_size: usize = 1024;
    let ghost mut seen: Seq<Seq<u16>> = Seq::empty();
    let ghost none: Seq<Seq<u16>> = Seq::empty();
    proof {
        reveal(keeps_up);
        reveal(all_among);
        reveal(covers);
        assert(pending(sets_in(node), sets_of(views(spill@)), none) =~= none);
        assert(all_among(none, seen));
        assert(covers(none, seen, w));
    }
    while stack.len() > 0 || spill.len() > 0
        invariant
            produces_pairs::<T, In, G>(generator, w),
            given.len() == count,
            stack@.len() <= count,
            forall|i: int| 0 <= i < stack@.len() ==> stack@[i] == given[count - 1 - i],
            forall|i: int| 0 <= i < count ==> call_requires(generator, (#[trigger] given[i],)),
            all_pairs(spill@, w),
            accepted_ok(node, w),
            chunk_size >= 1,
            none == Seq::<Seq<u16>>::empty(),
            run_ok(
                generator,
                given,
                count - stack@.len(),
                seen,
                pending(sets_in(node), sets_of(views(spill@)), none),
                w,
            ),
        decreases stack@.len(), spill@.len(),
    {
        let ghost stack_0 = stack@.len();
        let ghost spill_0 = spill@.len();
        let mut outputs: Vec<AbstractedPair<T>> = Vec::new();
        proof {
            assert(sets_of(views(outputs@)) =~= none);
        }
        while spill.len() > 0 && outputs.len() < chunk_size
            invariant
                w <= 15,
                all_pairs(spill@, w),
                all_pairs(outputs@, w),
                accepted_ok(node, w),
                chunk_size >= 1,
                spill@.len() <= spill_0,
                spill@.len() + outputs@.len() <= spill_0,
                spill_0 > 0 && outputs@.len() == 0 ==> spill@.len() == spill_0 || spill@.len()
                    < spill_0,
                spill@.len() == spill_0 ==> outputs@.len() == 0,
                none_subsumed(sets_in(node), sets_of(views(outputs@)), w),
                run_ok(
                    generator,
                    given,
                    count - stack@.len(),
                    seen,
                    pending(sets_in(node), sets_of(views(spill@)), sets_of(views(outputs@))),
                    w,
                ),
            decreases spill@.len(),
        {
            let ghost held = sets_in(node);
            let ghost waiting = sets_of(views(spill@));
            let ghost round = sets_of(views(outputs@));
            let pair = spill.pop().unwrap();
            proof {
                assert(sets_of(views(spill@)) =~= waiting.drop_last());
                assert(waiting.last() == pair@.set);
            }
            match admit_pair(&node, pair) {
                Ok(()) => {
                    proof {
                        lemma_step_drop(held, waiting, round, seen, w);
                    }
                },
                Err(back) => {
                    outputs.push(back);
                    proof {
                        assert(sets_of(views(outputs@)) =~= round.push(pair@.set));
                        lemma_step_move(held, waiting, round, seen, w);
                        lemma_none_subsumed_push(held, round, pair@.set, w);
                    }
                },
            }
        }
        let ghost spill_1 = spill@.len();
        let ghost outputs_1 = outputs@.len();
        assert(spill_0 > 0 ==> spill_1 < spill_0);
        assert(spill_0 == 0 ==> outputs_1 == 0);
        while outputs.len() < chunk_size && stack.len() > 0
            invariant
                produces_pairs::<T, In, G>(generator, w),
                given.len() == count,
                stack@.len() <= stack_0 <= count,
                forall|i: int| 0 <= i < stack@.len() ==> stack@[i] == given[count - 1 - i],
                forall|i: int| 0 <= i < count ==> call_requires(generator, (#[trigger] given[i],)),
                all_pairs(spill@, w),
                all_pairs(outputs@, w),
                accepted_ok(node, w),
                chunk_size >= 1,
                stack@.len() == stack_0 ==> spill@.len() == spill_1 && outputs@.len() == outputs_1,
                none_subsumed(sets_in(node), sets_of(views(outputs@)), w),
                run_ok(
                    generator,
                    given,
                    count - stack@.len(),
                    seen,
                    pending(sets_in(node), sets_of(views(spill@)), sets_of(views(outputs@))),
                    w,
                ),
            decreases stack@.len(),
        {
            let ghost at = count - stack@.len();
            let input = stack.pop().unwrap();
            assert(input == given[at]);
            let produced = generator(input);
            let ghost made = produced@;
            let ghost made_sets = sets_of(views(made));
            assert(call_ensures(generator, (given[at],), produced));
            let mut fresh = reversed(produced);
            while fresh.len() > 0
                invariant
                    produces_pairs::<T, In, G>(generator, w),
                    0 <= at < count == given.len(),
                    call_ensures(generator, (given[at],), produced),
                    made == produced@,
                    made_sets == sets_of(views(made)),
                    all_pairs(made, w),
                    fresh@.len() <= made.len(),
                    forall|i: int| 0 <= i < fresh@.len() ==> fresh@[i] == made[made.len() - 1 - i],
                    forall|i: int|
                        0 <= i < made.len() - fresh@.len() ==> seen.contains(#[trigger] made_sets[i]),
                    all_pairs(spill@, w),
                    all_pairs(outputs@, w),
                    accepted_ok(node, w),
                    none_subsumed(sets_in(node), sets_of(views(outputs@)), w),
                    run_ok(
                        generator,
                        given,
                        at,
                        seen,
                        pending(sets_in(node), sets_of(views(spill@)), sets_of(views(outputs@))),
                        w,
                    ),
                decreases fresh@.len(),
            {
                let ghost held = sets_in(node);
                let ghost waiting = sets_of(views(spill@));
                let ghost round = sets_of(views(outputs@));
                let ghost index = made.len() - fresh@.len();
                let ghost before = seen;
                let pair = fresh.pop().unwrap();
                let ghost y = pair@.set;
                proof {
                    assert(pair == made[index]);
                    assert(made[index].wf());
                    assert(made_sets[index] == y);
                    assert(made_sets.contains(y));
                    seen = seen.push(y);
                    lemma_seen_contains(before, y, made_sets, index);
                }
                match admit_pair(&node, pair) {
                    Ok(()) => {
                        proof {
                            lemma_step_absorbed(held, waiting, round, before, y, w);
                            lemma_run_sees(
                                generator,
                                given,
                                at,
                                before,
                                pending(held, waiting, round),
                                pending(held, waiting, round),
                                y,
                                w,
                            );
                        }
                    },
                    Err(back) => {
                        if outputs.len() < chunk_size {
                            outputs.push(back);
                            proof {
                                assert(sets_of(views(outputs@)) =~= round.push(y));
                                lemma_step_output(held, waiting, round, before, y, w);
                                lemma_none_subsumed_push(held, round, y, w);
                                lemma_run_sees(
                                    generator,
                                    given,
                                    at,
                                    before,
                                    pending(held, waiting, round),
                                    pending(held, waiting, round.push(y)),
                                    y,
                                    w,
                                );
                            }
                        } else {
                            spill.push(back);
                            proof {
                                assert(sets_of(views(spill@)) =~= waiting.push(y));
                                lemma_step_spill(held, waiting, round, before, y, w);
                                lemma_run_sees(
                                    generator,
                                    given,
                                    at,
                                    before,
                                    pending(held, waiting, round),
                                    pending(held, waiting.push(y), round),
                                    y,
                                    w,
                                );
                            }
                        }
                    },
                }
            }
            proof {
                // the pairs made of this input have all been seen
                reveal(all_among);
                assert(all_among(made_sets, seen)) by {
                    assert forall|i: int| 0 <= i < made_sets.len() implies seen.contains(
                        #[trigger] made_sets[i],
                    ) by {}
                }
                assert(production_among(generator, given[at], seen));
            }
        }
        if outputs.len() > 0 {
            let ghost held = sets_in(node);
            let ghost waiting = sets_of(views(spill@));
            let ghost round = sets_of(views(outputs@));
            proof {
                assert(outputs@[0].wf());
            }
            let merged = merge_round(node, outputs);
            proof {
                lemma_step_merge(held, waiting, round, merged.sets(), seen, w);
            }
            node = Some(merged);
            if chunk_size <= usize::MAX / 2 {
                chunk_size = chunk_size * 2;
            }
        } else {
            proof {
                assert(sets_of(views(outputs@)) =~= none);
            }
        }
    }
    let ghost held = sets_in(node);
    proof {
        assert(sets_of(views(spill@)) =~= none);
        assert(pending(held, none, none) =~= held);
    }
    let out = match node {
        Some(tree) => tree.drain(),
        None => Vec::new(),
    };
    proof {
        reveal(keeps_up);
        let got = sets_of(views(out@));
        assert(got =~= held);
        assert forall|k: int| 0 <= k < out@.len() implies may_produce(
            generator,
            given,
            #[trigger] got[k],
        ) by {
            assert(seen.contains(held[k]));
            let l = choose|l: int| 0 <= l < seen.len() && seen[l] == got[k];
            assert(may_produce(generator, given, seen[l]));
        }
        assert forall|i: int| 0 <= i < given.len() implies production_covered(
            generator,
            #[trigger] given[i],
            got,
            w,
        ) by {
            lemma_production_covered(generator, given[i], seen, got, w);
        }
    }
    out
}

/// A set that has just been seen as the set at a position of a list has
/// been seen, as have the sets at the positions before it that had been.
pub proof fn lemma_seen_contains(
    before: Seq<Seq<u16>>,
    y: Seq<u16>,
    made_sets: Seq<Seq<u16>>,
    index: int,
)
    requires
        0 <= index < made_sets.len(),
        made_sets[index] == y,
        forall|i: int| 0 <= i < index ==> before.contains(#[trigger] made_sets[i]),
    ensures
        forall|i: int| 0 <= i < index + 1 ==> before.push(y).contains(#[trigger] made_sets[i]),
{
    let more = before.push(y);
    assert forall|i: int| 0 <= i < index + 1 implies more.contains(#[trigger] made_sets[i]) by {
        if i < index {
            let l = choose|l: int| 0 <= l < before.len() && before[l] == made_sets[i];
            assert(more[l] == made_sets[i]);
        } else {
            assert(more[before.len() as int] == y);
        }
    }
}

/// What subsumes no set of a list and not one more set subsumes no set of
/// the list with that set at its end.
pub proof fn lemma_none_subsumed_push(a: Seq<Seq<u16>>, b: Seq<Seq<u16>>, y: Seq<u16>, w: nat)
    requires
        none_subsumed(a, b, w),
        !some_subsumes(a, y, w),
    ensures
        none_subsumed(a, b.push(y), w),
{
    assert forall|k: int| 0 <= k < b.push(y).len() implies !some_subsumes(
        a,
        #[trigger] b.push(y)[k],
        w,
    ) by {
        if k < b.len() {
            assert(b.push(y)[k] == b[k]);
        }
    }
}

} // verus!
