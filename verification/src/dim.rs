//! The container that holds a shape, a stride vector or an index.

use vstd::prelude::*;
use crate::dimension::IntoDimension;
use crate::offset::Ix;

verus! {

/// Extents, strides or index components, one word per axis.
///
/// The representation `I` is a fixed-size array for a rank known at compile
/// time and a vector for a rank known only at run time.
#[derive(Copy, Debug, PartialEq, Eq, PartialOrd, Ord, Hash, Default)]
pub struct Dim<I> {
    index: I,
}

impl<I> Dim<I> {
    /// The representation held.
    pub closed spec fn inner(&self) -> I {
        self.index
    }
}

impl<I: Clone> Clone for Dim<I> {
    /// Clones the representation.
    fn clone(&self) -> (copy: Self)
        ensures
            cloned(self.inner(), copy.inner()),
    {
        Dim { index: self.index.clone() }
    }
}

impl<I: View> View for Dim<I> {
    type V = I::V;

    /// The words held, in axis order.
    open spec fn view(&self) -> I::V {
        self.inner()@
    }
}

impl<I: View> Dim<I> {
    /// Wraps a representation.
    pub fn new(index: I) -> (dim: Self)
        ensures
            dim.inner() == index,
            dim@ == index@,
    {
        Dim { index }
    }

    /// Borrows the representation.
    pub fn ix(&self) -> (index: &I)
        ensures
            *index == self.inner(),
            index@ == self@,
    {
        &self.index
    }

    /// Borrows the representation for writing.
    pub fn ixm(&mut self) -> (index: &mut I)
        ensures
            *index == old(self).inner(),
            final(self).inner() == *final(index),
    {
        &mut self.index
    }

    /// Unwraps the representation.
    pub fn into_inner(self) -> (index: I)
        ensures
            index == self.inner(),
            index@ == self@,
    {
        self.index
    }
}

impl<I: View> std::ops::Deref for Dim<I> {
    type Target = I;

    /// Borrows the representation.
    fn deref(&self) -> (index: &I)
        ensures
            *index == self.inner(),
            index@ == self@,
    {
        &self.index
    }
}

/// Creates a shape from an integer, a tuple, an array or a sequence of
/// extents.
#[allow(non_snake_case)]
pub fn Dim<T: IntoDimension>(index: T) -> (dim: T::Dim)
    ensures
        dim@ == index.extents(),
{
    index.into_dimension()
}

/// The shape of rank 0.
pub type Ix0 = Dim<[Ix; 0]>;

/// A shape of rank 1.
pub type Ix1 = Dim<[Ix; 1]>;

/// A shape of rank 2.
pub type Ix2 = Dim<[Ix; 2]>;

/// A shape of rank 3.
pub type Ix3 = Dim<[Ix; 3]>;

/// A shape of rank 4.
pub type Ix4 = Dim<[Ix; 4]>;

/// A shape of rank 5.
pub type Ix5 = Dim<[Ix; 5]>;

/// A shape whose rank is known at run time.
pub type IxDyn = Dim<Vec<Ix>>;

/// Creates the shape of rank 0.
#[allow(non_snake_case)]
pub fn Ix0() -> (dim: Ix0)
    ensures
        dim@ == Seq::<usize>::empty(),
{
    let dim = Dim::new([]);
    assert(dim@ =~= Seq::<usize>::empty());
    dim
}

/// Creates a shape of rank 1.
#[allow(non_snake_case)]
pub fn Ix1(i0: Ix) -> (dim: Ix1)
    ensures
        dim@ == seq![i0],
{
    let dim = Dim::new([i0]);
    assert(dim@ =~= seq![i0]);
    dim
}

/// Creates a shape of rank 2.
#[allow(non_snake_case)]
pub fn Ix2(i0: Ix, i1: Ix) -> (dim: Ix2)
    ensures
        dim@ == seq![i0, i1],
{
    let dim = Dim::new([i0, i1]);
    assert(dim@ =~= seq![i0, i1]);
    dim
}

/// Creates a shape of rank 3.
#[allow(non_snake_case)]
pub fn Ix3(i0: Ix, i1: Ix, i2: Ix) -> (dim: Ix3)
    ensures
        dim@ == seq![i0, i1, i2],
{
    let dim = Dim::new([i0, i1, i2]);
    assert(dim@ =~= seq![i0, i1, i2]);
    dim
}

/// Creates a shape of rank 4.
#[allow(non_snake_case)]
pub fn Ix4(i0: Ix, i1: Ix, i2: Ix, i3: Ix) -> (dim: Ix4)
    ensures
        dim@ == seq![i0, i1, i2, i3],
{
    let dim = Dim::new([i0, i1, i2, i3]);
    assert(dim@ =~= seq![i0, i1, i2, i3]);
    dim
}

/// Creates a shape of rank 5.
#[allow(non_snake_case)]
pub fn Ix5(i0: Ix, i1: Ix, i2: Ix, i3: Ix, i4: Ix) -> (dim: Ix5)
    ensures
        dim@ == seq![i0, i1, i2, i3, i4],
{
    let dim = Dim::new([i0, i1, i2, i3, i4]);
    assert(dim@ =~= seq![i0, i1, i2, i3, i4]);
    dim
}

/// Creates a shape of run-time rank from its extents.
#[allow(non_snake_case)]
pub fn IxDyn(extents: &[Ix]) -> (dim: IxDyn)
    ensures
        dim@ == extents@,
{
    Dim::new(vstd::slice::slice_to_vec(extents))
}

} // verus!
