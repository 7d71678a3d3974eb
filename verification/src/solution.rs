//! Permutations as candidates for a subsumption: which of them a matching
//! admits, and what renaming channels does to them.

use vstd::prelude::*;
use vstd::arithmetic::power2::pow2;
use crate::bits::{has_bit, ones, exchange_image, lemma_limit, lemma_exchange_bits, lemma_exchange_image};
use crate::matching::{Pairs, single, total_ones, lemma_singles_differ};
use crate::permutation::{is_permutation, identity_seq, permuted_value, lemma_permutation_onto};
use crate::subsumption::{subsumes_permuted, subsumes_under_permutation, renamed, exchanged, lemma_exchanged_then_permuted, lemma_permuted_then_exchanged, lemma_permuted_by_identity, lemma_permuted_ones};
use crate::value_seq::{is_image, is_image_of_some, is_subset};

verus! {

/// Whether `m` has every channel `x` related to `p[x]`.
pub open spec fn admits(m: Pairs, p: Seq<usize>) -> bool {
    &&& p.len() == m.width()
    &&& forall|x: int| 0 <= x < m.width() ==> m.has(x, (#[trigger] p[x]) as int)
}

/// Whether `p` is a permutation of the channels that `m` admits and under
/// which `n` subsumes `q`.
pub open spec fn solves(n: Seq<u16>, q: Seq<u16>, m: Pairs, p: Seq<usize>) -> bool {
    &&& is_permutation(p, m.width())
    &&& admits(m, p)
    &&& subsumes_permuted(n, q, p)
}

/// Whether `m` admits a permutation under which `n` subsumes `q`.
pub open spec fn solvable(n: Seq<u16>, q: Seq<u16>, m: Pairs) -> bool {
    exists|p: Seq<usize>| #[trigger] solves(n, q, m, p)
}

/// Where `y` occurs in `p`.
pub open spec fn position_of(p: Seq<usize>, y: int) -> int {
    choose|x: int| 0 <= x < p.len() && p[x] == y
}

/// The relation that has every channel `x` related to `p[x]` and to nothing
/// else.
pub open spec fn graph(p: Seq<usize>) -> Pairs {
    Pairs {
        a: Seq::new(p.len(), |x: int| single(p[x] as int)),
        b: Seq::new(p.len(), |y: int| single(position_of(p, y))),
    }
}

/// The relation of a permutation is settled, and a relation admits the
/// permutation exactly if it holds the relation of the permutation.
pub proof fn lemma_graph(p: Seq<usize>, w: nat)
    requires
        is_permutation(p, w),
        w <= 15,
    ensures
        graph(p).wf(),
        graph(p).width() == w,
        graph(p).settled(),
        forall|x: int| 0 <= x < w ==> #[trigger] graph(p).row_is(x, p[x] as int),
        forall|m: Pairs| #![trigger graph(p).within(m)] m.width() == w && admits(m, p) ==> graph(p).within(m),
        forall|m: Pairs| #![trigger graph(p).within(m)] graph(p).within(m) ==> admits(m, p),
{
    let g = graph(p);
    lemma_limit(w as u16);
    assert forall|y: int| 0 <= y < w implies 0 <= position_of(p, y) < w && p[position_of(p, y)]
        == y by {
        lemma_permutation_onto(p, w, y);
    }
    assert forall|x: int| 0 <= x < w implies position_of(p, #[trigger] p[x] as int) == x by {
        let y = p[x] as int;
        let z = position_of(p, y);
        if z < x {
            assert(p[z] != p[x]);
        } else if x < z {
            assert(p[x] != p[z]);
        }
    }
    assert forall|x: int| 0 <= x < w implies (#[trigger] g.a[x]) < single(w as int) && g.a[x]
        != 0 by {
        lemma_exchange_image(0, p[x] as u16, p[x] as u16, w as u16);
        lemma_singles_differ(p[x] as int, 0);
    }
    assert forall|y: int| 0 <= y < w implies (#[trigger] g.b[y]) < single(w as int) && g.b[y]
        != 0 by {
        lemma_exchange_image(0, position_of(p, y) as u16, position_of(p, y) as u16, w as u16);
        lemma_singles_differ(position_of(p, y), 0);
    }
    assert forall|x: int, y: int| 0 <= x < w && 0 <= y < w implies (#[trigger] has_bit(
        g.a[x],
        y as u16,
    )) == has_bit(g.b[y], x as u16) by {
        lemma_singles_differ(p[x] as int, y);
        lemma_singles_differ(position_of(p, y), x);
    }
    assert forall|x: int, t: int| 0 <= x < w && 0 <= t < w && #[trigger] g.row_is(
        x,
        t,
    ) implies g.col_is(t, x) by {
        lemma_singles_differ(p[x] as int, t);
    }
    assert forall|y: int, s: int| 0 <= y < w && 0 <= s < w && #[trigger] g.col_is(
        y,
        s,
    ) implies g.row_is(s, y) by {
        lemma_singles_differ(position_of(p, y), s);
    }
    assert forall|m: Pairs| #![trigger g.within(m)] m.width() == w && admits(m, p) implies g.within(
        m,
    ) by {
        assert forall|x: int, y: int| 0 <= x < w && 0 <= y < w && #[trigger] g.has(
            x,
            y,
        ) implies m.has(x, y) by {
            lemma_singles_differ(p[x] as int, y);
        }
    }
    assert forall|m: Pairs| #![trigger g.within(m)] g.within(m) implies admits(m, p) by {
        assert forall|x: int| 0 <= x < m.width() implies m.has(x, (#[trigger] p[x]) as int) by {
            lemma_singles_differ(p[x] as int, p[x] as int);
            assert(g.has(x, p[x] as int));
        }
    }
}

/// Whether `after` is `before` with the channels `i` and `j` of side B
/// renamed into each other.
pub open spec fn renamed_on_b(before: Pairs, after: Pairs, i: int, j: int) -> bool {
    &&& after.a.len() == before.a.len()
    &&& forall|x: int|
        0 <= x < before.width() ==> (#[trigger] after.a[x]) == exchange_image(
            before.a[x],
            i as u16,
            j as u16,
        )
}

/// A solution stays one when two channels of the subsumed side are renamed
/// into each other, in the values, in the matching and in the permutation.
pub proof fn lemma_renaming_keeps_solution(
    n: Seq<u16>,
    q: Seq<u16>,
    after_q: Seq<u16>,
    m: Pairs,
    after_m: Pairs,
    p: Seq<usize>,
    i: usize,
    j: usize,
)
    requires
        m.width() <= 15,
        i < m.width(),
        j < m.width(),
        renamed_on_b(m, after_m, i as int, j as int),
        is_image(after_q, q, |v: u16| exchange_image(v, i as u16, j as u16)),
        solves(n, q, m, p),
    ensures
        solves(n, after_q, after_m, renamed(p, i, j)),
{
    let w = m.width() as u16;
    let r = renamed(p, i, j);
    lemma_exchanged_then_permuted(0, p, i, j, w);
    assert forall|x: int| 0 <= x < after_m.width() implies after_m.has(
        x,
        (#[trigger] r[x]) as int,
    ) by {
        lemma_exchange_bits(m.a[x], i as u16, j as u16, r[x] as u16);
        assert(m.has(x, p[x] as int));
    }
    assert forall|k: int| 0 <= k < n.len() implies is_image_of_some(
        #[trigger] n[k],
        after_q,
        |v: u16| permuted_value(v, r),
    ) by {
        assert(is_image_of_some(n[k], q, |v: u16| permuted_value(v, p)));
        let l = choose|l: int| 0 <= l < q.len() && n[k] == permuted_value(#[trigger] q[l], p);
        let moved = exchange_image(q[l], i as u16, j as u16);
        assert(after_q.contains(moved));
        let o = choose|o: int| 0 <= o < after_q.len() && after_q[o] == moved;
        lemma_exchanged_then_permuted(q[l], p, i, j, w);
        assert(n[k] == permuted_value(after_q[o], r));
    }
}

/// If `n` subsumes under some permutation a set with two channels
/// exchanged, it subsumes the set itself under some permutation.
pub proof fn lemma_exchange_keeps_subsumption(
    n: Seq<u16>,
    q: Seq<u16>,
    after_q: Seq<u16>,
    i: usize,
    j: usize,
    w: u16,
)
    requires
        w <= 15,
        i < w,
        j < w,
        is_image(after_q, q, |v: u16| exchange_image(v, i as u16, j as u16)),
        subsumes_under_permutation(n, after_q, w as nat),
    ensures
        subsumes_under_permutation(n, q, w as nat),
{
    let p = choose|p: Seq<usize>| is_permutation(p, w as nat) && #[trigger] subsumes_permuted(
        n,
        after_q,
        p,
    );
    let r = renamed(p, i, j);
    lemma_exchanged_then_permuted(0, p, i, j, w);
    assert(renamed(r, i, j) =~= p);
    assert forall|k: int| 0 <= k < n.len() implies is_image_of_some(
        #[trigger] n[k],
        q,
        |v: u16| permuted_value(v, r),
    ) by {
        assert(is_image_of_some(n[k], after_q, |v: u16| permuted_value(v, p)));
        let o = choose|o: int|
            0 <= o < after_q.len() && n[k] == permuted_value(#[trigger] after_q[o], p);
        let l = choose|l: int|
            0 <= l < q.len() && exchange_image(q[l], i as u16, j as u16) == after_q[o];
        lemma_exchanged_then_permuted(q[l], r, i, j, w);
        assert(n[k] == permuted_value(q[l], r));
    }
    assert(subsumes_permuted(n, q, r));
}

/// Under the identity, subsuming is holding only values of the other set.
pub proof fn lemma_subsumes_by_identity(n: Seq<u16>, q: Seq<u16>, w: u16)
    requires
        w <= 15,
        forall|l: int| 0 <= l < q.len() ==> (#[trigger] q[l]) < pow2(w as nat),
    ensures
        subsumes_permuted(n, q, identity_seq(w as nat)) == is_subset(n, q),
        is_permutation(identity_seq(w as nat), w as nat),
{
    let id = identity_seq(w as nat);
    lemma_limit(w);
    lemma_permuted_by_identity(0, w);
    if is_subset(n, q) {
        assert forall|k: int| 0 <= k < n.len() implies is_image_of_some(
            #[trigger] n[k],
            q,
            |v: u16| permuted_value(v, id),
        ) by {
            assert(q.contains(n[k]));
            let l = choose|l: int| 0 <= l < q.len() && q[l] == n[k];
            lemma_permuted_by_identity(q[l], w);
        }
    }
    if subsumes_permuted(n, q, id) {
        assert forall|k: int| 0 <= k < n.len() implies q.contains(#[trigger] n[k]) by {
            assert(is_image_of_some(n[k], q, |v: u16| permuted_value(v, id)));
            let l = choose|l: int| 0 <= l < q.len() && n[k] == permuted_value(#[trigger] q[l], id);
            lemma_permuted_by_identity(q[l], w);
        }
    }
}

/// A matching in which every channel has itself as its only candidate
/// admits the identity and no other permutation.
pub proof fn lemma_diagonal_admits_identity(m: Pairs, p: Seq<usize>)
    requires
        m.width() <= 15,
        forall|x: int| 0 <= x < m.width() ==> #[trigger] m.row_is(x, x),
        is_permutation(p, m.width()),
        admits(m, p),
    ensures
        p == identity_seq(m.width()),
{
    assert forall|x: int| 0 <= x < m.width() implies (#[trigger] p[x]) == x by {
        assert(m.row_is(x, x));
        assert(m.has(x, p[x] as int));
        lemma_singles_differ(x, p[x] as int);
    }
    assert(p =~= identity_seq(m.width()));
}

/// Exchanging two channels of a `w`-bit word leaves its number of ones.
pub proof fn lemma_exchange_ones(v: u16, i: u16, j: u16, w: u16)
    requires
        w <= 15,
        i < w,
        j < w,
        v < (1u16 << w),
    ensures
        ones(exchange_image(v, i, j)) == ones(v),
{
    let id = identity_seq(w as nat);
    lemma_permuted_by_identity(v, w);
    lemma_permuted_then_exchanged(v, id, i as usize, j as usize, w);
    lemma_permuted_ones(v, exchanged(id, i as int, j as int), w);
}

/// Words with the same numbers of ones have the same number together.
pub proof fn lemma_total_ones_same(s: Seq<u16>, t: Seq<u16>)
    requires
        s.len() == t.len(),
        forall|x: int| 0 <= x < s.len() ==> ones(#[trigger] s[x]) == ones(t[x]),
    ensures
        total_ones(s) == total_ones(t),
    decreases s.len(),
{
    if s.len() > 0 {
        assert(ones(s[s.len() - 1]) == ones(t[s.len() - 1]));
        assert forall|x: int| 0 <= x < s.drop_last().len() implies ones(
            #[trigger] s.drop_last()[x],
        ) == ones(t.drop_last()[x]) by {
            assert(ones(s[x]) == ones(t[x]));
        }
        lemma_total_ones_same(s.drop_last(), t.drop_last());
    }
}

} // verus!
