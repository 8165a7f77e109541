//! Small-buffer neighbor lists.
//!
//! The on-demand neighbor enumeration collects its results in a
//! `smallvec::SmallVec` so that the hot path of a query normally performs
//! no heap allocation. The buffer is held in an opaque struct; the spec
//! function `small_buf_elems` names its contents, and the three wrappers
//! below state how the operations used here affect them.

use vstd::prelude::*;

verus! {

/// An inline buffer of neighbor indices, backed by `smallvec::SmallVec`
/// with room for the eight in-floor neighbors before any heap allocation.
#[verifier::external_body]
pub struct NeighborBuf {
    buf: smallvec::SmallVec<[u32; 8]>,
}

/// The elements held by a small-buffer neighbor list, in insertion order.
pub uninterp spec fn small_buf_elems(v: NeighborBuf) -> Seq<u32>;

/// Relies on smallvec's `SmallVec::new`: constructs an empty vector.
#[verifier::external_body]
pub(crate) fn small_buf_new() -> (r: NeighborBuf)
    ensures
        small_buf_elems(r) == Seq::<u32>::empty(),
{
    NeighborBuf { buf: smallvec::SmallVec::new() }
}

/// Relies on smallvec's `SmallVec::push`: appends one element at the end.
#[verifier::external_body]
pub(crate) fn small_buf_push(v: &mut NeighborBuf, x: u32)
    ensures
        small_buf_elems(*final(v)) == small_buf_elems(*old(v)).push(x),
{
    v.buf.push(x)
}

/// Relies on smallvec's `SmallVec::into_vec`: hands the elements over in
/// order.
#[verifier::external_body]
pub(crate) fn small_buf_into_vec(v: NeighborBuf) -> (r: Vec<u32>)
    ensures
        r@ == small_buf_elems(v),
{
    v.buf.into_vec()
}

} // verus!
