//! The fixed-capacity vectors of the `arrayvec` crate, as the library uses
//! them. Verus does not look inside an `ArrayVec`: what one holds is named by
//! a specification function, and every operation the library performs on one
//! is declared here together with what it does to the named contents.

use arrayvec::ArrayVec;
use vstd::prelude::*;

verus! {

/// Largest number of channels of a network.
pub const MAX_CHANNELS: usize = 15;

/// Largest number of values of an output set.
pub const MAX_VALUES: usize = 32768;

/// `arrayvec::ArrayVec`, a vector with room for `CAP` elements. Nothing is
/// known of what is inside but what the functions below say.
#[verifier::external_type_specification]
#[verifier::external_body]
#[verifier::reject_recursive_types(T)]
pub struct ExArrayVec<T, const CAP: usize>(ArrayVec<T, CAP>);

/// A buffer for up to `MAX_VALUES` values.
pub type VVec = ArrayVec<u16, 32768>;

/// The values held by a value buffer, first to last.
pub uninterp spec fn buffered(v: ArrayVec<u16, 32768>) -> Seq<u16>;

/// `ArrayVec::new`: a buffer that holds nothing.
#[verifier::external_body]
pub(crate) fn buffer_new() -> (r: ArrayVec<u16, 32768>)
    ensures
        buffered(r) == Seq::<u16>::empty(),
{
    ArrayVec::new()
}

/// `ArrayVec::push`: appends `x`. It panics on a full buffer, which the
/// precondition rules out.
#[verifier::external_body]
pub(crate) fn buffer_push(v: &mut ArrayVec<u16, 32768>, x: u16)
    requires
        buffered(*old(v)).len() < 32768,
    ensures
        buffered(*final(v)) == buffered(*old(v)).push(x),
{
    v.push(x)
}

/// Indexing through `Deref<Target = [u16]>`: the value at position `i`.
#[verifier::external_body]
pub(crate) fn buffer_get(v: &ArrayVec<u16, 32768>, i: usize) -> (r: u16)
    requires
        i < buffered(*v).len(),
    ensures
        r == buffered(*v)[i as int],
{
    v[i]
}

/// A vector with room for one element per channel.
pub type CVec<T> = ArrayVec<T, 15>;

/// A vector with room for every count of an abstraction.
pub type AVec = ArrayVec<u16, 512>;

/// The channel indices held by such a vector, first to last.
pub uninterp spec fn indices(v: ArrayVec<usize, 15>) -> Seq<usize>;

/// `ArrayVec::new`: a vector that holds nothing.
#[verifier::external_body]
pub(crate) fn indices_new() -> (r: ArrayVec<usize, 15>)
    ensures
        indices(r) == Seq::<usize>::empty(),
{
    ArrayVec::new()
}

/// `ArrayVec::push`: appends `x`. It panics on a full vector, which the
/// precondition rules out.
#[verifier::external_body]
pub(crate) fn indices_push(v: &mut ArrayVec<usize, 15>, x: usize)
    requires
        indices(*old(v)).len() < 15,
    ensures
        indices(*final(v)) == indices(*old(v)).push(x),
{
    v.push(x)
}

/// `ArrayVec::len`: how many elements the vector holds, never more than its
/// capacity.
#[verifier::external_body]
pub(crate) fn indices_len(v: &ArrayVec<usize, 15>) -> (r: usize)
    ensures
        r == indices(*v).len(),
        r <= 15,
{
    v.len()
}

/// Indexing through `Deref<Target = [usize]>`: the element at position `i`.
#[verifier::external_body]
pub(crate) fn indices_get(v: &ArrayVec<usize, 15>, i: usize) -> (r: usize)
    requires
        i < indices(*v).len(),
    ensures
        r == indices(*v)[i as int],
{
    v[i]
}

/// `<[usize]>::swap` through `DerefMut`: exchanges the elements at positions
/// `i` and `j`.
#[verifier::external_body]
pub(crate) fn indices_swap(v: &mut ArrayVec<usize, 15>, i: usize, j: usize)
    requires
        i < indices(*old(v)).len(),
        j < indices(*old(v)).len(),
    ensures
        indices(*final(v)) == indices(*old(v)).update(i as int, indices(*old(v))[j as int]).update(
            j as int,
            indices(*old(v))[i as int],
        ),
{
    v.swap(i, j)
}

/// `Clone::clone` of `ArrayVec`: a vector that holds the same elements.
#[verifier::external_body]
pub(crate) fn indices_clone(v: &ArrayVec<usize, 15>) -> (r: ArrayVec<usize, 15>)
    ensures
        indices(r) == indices(*v),
{
    v.clone()
}

/// The per-channel words held by such a vector, first to last.
pub uninterp spec fn words(v: ArrayVec<u16, 15>) -> Seq<u16>;

/// `ArrayVec::new`: a vector that holds nothing.
#[verifier::external_body]
pub(crate) fn words_new() -> (r: ArrayVec<u16, 15>)
    ensures
        words(r) == Seq::<u16>::empty(),
{
    ArrayVec::new()
}

/// `ArrayVec::push`: appends `x`. It panics on a full vector, which the
/// precondition rules out.
#[verifier::external_body]
pub(crate) fn words_push(v: &mut ArrayVec<u16, 15>, x: u16)
    requires
        words(*old(v)).len() < 15,
    ensures
        words(*final(v)) == words(*old(v)).push(x),
{
    v.push(x)
}

/// `ArrayVec::len`: how many elements the vector holds, never more than its
/// capacity.
#[verifier::external_body]
pub(crate) fn words_len(v: &ArrayVec<u16, 15>) -> (r: usize)
    ensures
        r == words(*v).len(),
        r <= 15,
{
    v.len()
}

/// Indexing through `Deref<Target = [u16]>`: the element at position `i`.
#[verifier::external_body]
pub(crate) fn words_get(v: &ArrayVec<u16, 15>, i: usize) -> (r: u16)
    requires
        i < words(*v).len(),
    ensures
        r == words(*v)[i as int],
{
    v[i]
}

/// Assignment through `DerefMut<Target = [u16]>`: replaces the element at
/// position `i` by `x`.
#[verifier::external_body]
pub(crate) fn words_set(v: &mut ArrayVec<u16, 15>, i: usize, x: u16)
    requires
        i < words(*old(v)).len(),
    ensures
        words(*final(v)) == words(*old(v)).update(i as int, x),
{
    v[i] = x;
}

/// `<[u16]>::swap` through `DerefMut`: exchanges the elements at positions
/// `i` and `j`.
#[verifier::external_body]
pub(crate) fn words_swap(v: &mut ArrayVec<u16, 15>, i: usize, j: usize)
    requires
        i < words(*old(v)).len(),
        j < words(*old(v)).len(),
    ensures
        words(*final(v)) == words(*old(v)).update(i as int, words(*old(v))[j as int]).update(
            j as int,
            words(*old(v))[i as int],
        ),
{
    v.swap(i, j)
}

/// `Clone::clone` of `ArrayVec`: a vector that holds the same elements.
#[verifier::external_body]
pub(crate) fn words_clone(v: &ArrayVec<u16, 15>) -> (r: ArrayVec<u16, 15>)
    ensures
        words(r) == words(*v),
{
    v.clone()
}

/// The counts held by such a vector, first to last.
pub uninterp spec fn counts(v: ArrayVec<u16, 512>) -> Seq<u16>;

/// `ArrayVec::new`: a vector that holds nothing.
#[verifier::external_body]
pub(crate) fn counts_new() -> (r: ArrayVec<u16, 512>)
    ensures
        counts(r) == Seq::<u16>::empty(),
{
    ArrayVec::new()
}

/// `ArrayVec::push`: appends `x`. It panics on a full vector, which the
/// precondition rules out.
#[verifier::external_body]
pub(crate) fn counts_push(v: &mut ArrayVec<u16, 512>, x: u16)
    requires
        counts(*old(v)).len() < 512,
    ensures
        counts(*final(v)) == counts(*old(v)).push(x),
{
    v.push(x)
}

/// `ArrayVec::len`: how many elements the vector holds, never more than its
/// capacity.
#[verifier::external_body]
pub(crate) fn counts_len(v: &ArrayVec<u16, 512>) -> (r: usize)
    ensures
        r == counts(*v).len(),
        r <= 512,
{
    v.len()
}

/// Indexing through `Deref<Target = [u16]>`: the element at position `i`.
#[verifier::external_body]
pub(crate) fn counts_get(v: &ArrayVec<u16, 512>, i: usize) -> (r: u16)
    requires
        i < counts(*v).len(),
    ensures
        r == counts(*v)[i as int],
{
    v[i]
}

/// Assignment through `DerefMut<Target = [u16]>`: replaces the element at
/// position `i` by `x`.
#[verifier::external_body]
pub(crate) fn counts_set(v: &mut ArrayVec<u16, 512>, i: usize, x: u16)
    requires
        i < counts(*old(v)).len(),
    ensures
        counts(*final(v)) == counts(*old(v)).update(i as int, x),
{
    v[i] = x;
}

/// `<[u16]>::swap` through `DerefMut`: exchanges the elements at positions
/// `i` and `j`.
#[verifier::external_body]
pub(crate) fn counts_swap(v: &mut ArrayVec<u16, 512>, i: usize, j: usize)
    requires
        i < counts(*old(v)).len(),
        j < counts(*old(v)).len(),
    ensures
        counts(*final(v)) == counts(*old(v)).update(i as int, counts(*old(v))[j as int]).update(
            j as int,
            counts(*old(v))[i as int],
        ),
{
    v.swap(i, j)
}

/// `Clone::clone` of `ArrayVec`: a vector that holds the same elements.
#[verifier::external_body]
pub(crate) fn counts_clone(v: &ArrayVec<u16, 512>) -> (r: ArrayVec<u16, 512>)
    ensures
        counts(r) == counts(*v),
{
    v.clone()
}

/// `ArrayVec::as_slice`: the counts as a slice.
#[verifier::external_body]
pub(crate) fn counts_as_slice(v: &ArrayVec<u16, 512>) -> (r: &[u16])
    ensures
        r@ == counts(*v),
{
    v.as_slice()
}

} // verus!
