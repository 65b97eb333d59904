use arrayvec::ArrayVec;
use vstd::prelude::*;

use crate::bits::{Index, Position};

verus! {

#[verifier::external_type_specification]
#[verifier::external_body]
#[verifier::reject_recursive_types(T)]
pub struct ExArrayVec<T, const CAP: usize>(ArrayVec<T, CAP>);

/// The positions that a list of at most 64 positions holds, in order.
pub uninterp spec fn position_list(v: ArrayVec<Position, 64>) -> Seq<Position>;

/// `ArrayVec::new`: an empty list.
#[verifier::external_body]
pub(crate) fn plist_new() -> (r: ArrayVec<Position, 64>)
    ensures
        position_list(r) == Seq::<Position>::empty(),
{
    ArrayVec::new()
}

/// `ArrayVec::push`: appends an element; the source panics when the list is
/// full, which the precondition rules out.
#[verifier::external_body]
pub(crate) fn plist_push(v: &mut ArrayVec<Position, 64>, p: Position)
    requires
        position_list(*old(v)).len() < 64,
    ensures
        position_list(*final(v)) == position_list(*old(v)).push(p),
{
    v.push(p)
}

/// `ArrayVec::as_slice`: the elements as a slice.
#[verifier::external_body]
pub(crate) fn plist_as_slice(v: &ArrayVec<Position, 64>) -> (r: &[Position])
    ensures
        r@ == position_list(*v),
        r@.len() <= 64,
{
    v.as_slice()
}

/// Writes one element through `DerefMut` (indexing the slice of the list).
#[verifier::external_body]
pub(crate) fn plist_set(v: &mut ArrayVec<Position, 64>, i: usize, p: Position)
    requires
        i < position_list(*old(v)).len(),
    ensures
        position_list(*final(v)) == position_list(*old(v)).update(i as int, p),
{
    v[i] = p;
}

/// `ArrayVec::clear`: removes every element.
#[verifier::external_body]
pub(crate) fn plist_clear(v: &mut ArrayVec<Position, 64>)
    ensures
        position_list(*final(v)) == Seq::<Position>::empty(),
{
    v.clear()
}

/// `ArrayVec::clone`: a list with the same elements.
#[verifier::external_body]
pub(crate) fn plist_clone(v: &ArrayVec<Position, 64>) -> (r: ArrayVec<Position, 64>)
    ensures
        position_list(r) == position_list(*v),
{
    v.clone()
}

/// The box indexes that a list of at most 64 of them holds, in order.
pub uninterp spec fn index_list(v: ArrayVec<Index, 64>) -> Seq<Index>;

/// `ArrayVec::new`: an empty list of box indexes.
#[verifier::external_body]
pub(crate) fn ilist_new() -> (r: ArrayVec<Index, 64>)
    ensures
        index_list(r) == Seq::<Index>::empty(),
{
    ArrayVec::new()
}

/// `ArrayVec::push`: appends an index; the source panics when the list is
/// full, which the precondition rules out.
#[verifier::external_body]
pub(crate) fn ilist_push(v: &mut ArrayVec<Index, 64>, x: Index)
    requires
        index_list(*old(v)).len() < 64,
    ensures
        index_list(*final(v)) == index_list(*old(v)).push(x),
{
    v.push(x)
}

/// `ArrayVec::pop`: removes and returns the last index, or `None` when the
/// list is empty.
#[verifier::external_body]
pub(crate) fn ilist_pop(v: &mut ArrayVec<Index, 64>) -> (r: Option<Index>)
    ensures
        index_list(*old(v)).len() == 0 ==> r is None && index_list(*final(v)) == index_list(*old(v)),
        index_list(*old(v)).len() > 0 ==> r == Some(index_list(*old(v)).last()) && index_list(*final(v))
            == index_list(*old(v)).drop_last(),
{
    v.pop()
}

/// `ArrayVec::len`: the number of indexes, at most the capacity.
#[verifier::external_body]
pub(crate) fn ilist_len(v: &ArrayVec<Index, 64>) -> (r: usize)
    ensures
        r == index_list(*v).len(),
        r <= 64,
{
    v.len()
}

/// The squares that a stack of at most 4096 squares holds, bottom first.
pub uninterp spec fn square_stack(v: ArrayVec<Position, 4096>) -> Seq<Position>;

/// `ArrayVec::new`: an empty stack of squares.
#[verifier::external_body]
pub(crate) fn sstack_new() -> (r: ArrayVec<Position, 4096>)
    ensures
        square_stack(r) == Seq::<Position>::empty(),
{
    ArrayVec::new()
}

/// `ArrayVec::push`: puts a square on top; the source panics when the stack
/// is full, which the precondition rules out.
#[verifier::external_body]
pub(crate) fn sstack_push(v: &mut ArrayVec<Position, 4096>, p: Position)
    requires
        square_stack(*old(v)).len() < 4096,
    ensures
        square_stack(*final(v)) == square_stack(*old(v)).push(p),
{
    v.push(p)
}

/// `ArrayVec::pop`: takes the top square off, or `None` when the stack is
/// empty.
#[verifier::external_body]
pub(crate) fn sstack_pop(v: &mut ArrayVec<Position, 4096>) -> (r: Option<Position>)
    ensures
        square_stack(*old(v)).len() == 0 ==> r is None && square_stack(*final(v)) == square_stack(*old(v)),
        square_stack(*old(v)).len() > 0 ==> r == Some(square_stack(*old(v)).last()) && square_stack(*final(v))
            == square_stack(*old(v)).drop_last(),
{
    v.pop()
}

/// `ArrayVec::len`: the number of squares, at most the capacity.
#[verifier::external_body]
pub(crate) fn sstack_len(v: &ArrayVec<Position, 4096>) -> (r: usize)
    ensures
        r == square_stack(*v).len(),
        r <= 4096,
{
    v.len()
}

/// The distance and box/destination pairs that a list of at most 4096 of
/// them holds, in order.
pub uninterp spec fn pair_list(v: ArrayVec<(u16, Index, Index), 4096>) -> Seq<(u16, Index, Index)>;

/// `ArrayVec::new`: an empty list of pairs.
#[verifier::external_body]
pub(crate) fn pairs_new() -> (r: ArrayVec<(u16, Index, Index), 4096>)
    ensures
        pair_list(r) == Seq::<(u16, Index, Index)>::empty(),
{
    ArrayVec::new()
}

/// `ArrayVec::push`: appends a pair; the source panics when the list is
/// full, which the precondition rules out.
#[verifier::external_body]
pub(crate) fn pairs_push(v: &mut ArrayVec<(u16, Index, Index), 4096>, x: (u16, Index, Index))
    requires
        pair_list(*old(v)).len() < 4096,
    ensures
        pair_list(*final(v)) == pair_list(*old(v)).push(x),
{
    v.push(x)
}

/// `ArrayVec::len`: the number of pairs, at most the capacity.
#[verifier::external_body]
pub(crate) fn pairs_len(v: &ArrayVec<(u16, Index, Index), 4096>) -> (r: usize)
    ensures
        r == pair_list(*v).len(),
        r <= 4096,
{
    v.len()
}

/// Reads one pair through `Deref` (indexing the slice of the list).
#[verifier::external_body]
pub(crate) fn pairs_get(v: &ArrayVec<(u16, Index, Index), 4096>, i: usize) -> (r: (u16, Index, Index))
    requires
        i < pair_list(*v).len(),
    ensures
        r == pair_list(*v)[i as int],
{
    v[i]
}

/// Writes one pair through `DerefMut` (indexing the slice of the list).
#[verifier::external_body]
pub(crate) fn pairs_set(v: &mut ArrayVec<(u16, Index, Index), 4096>, i: usize, x: (u16, Index, Index))
    requires
        i < pair_list(*old(v)).len(),
    ensures
        pair_list(*final(v)) == pair_list(*old(v)).update(i as int, x),
{
    v[i] = x;
}

} // verus!
