//! Conversions from integers, tuples, arrays and sequences into shapes.

use vstd::prelude::*;
use crate::dim::{Dim, Ix1, IxDyn};
use crate::dimension::{Dimension, IntoDimension};
use crate::offset::Ix;

verus! {

impl IntoDimension for Ix {
    type Dim = Ix1;

    open spec fn extents(&self) -> Seq<usize> {
        seq![*self]
    }

    fn into_dimension(self) -> (dim: Ix1) {
        Ix1(self)
    }
}

impl<D: Dimension> IntoDimension for D {
    type Dim = D;

    open spec fn extents(&self) -> Seq<usize> {
        self@
    }

    fn into_dimension(self) -> (dim: D) {
        self
    }
}

impl IntoDimension for Vec<Ix> {
    type Dim = IxDyn;

    open spec fn extents(&self) -> Seq<usize> {
        self@
    }

    fn into_dimension(self) -> (dim: IxDyn) {
        Dim::new(self)
    }
}

impl<'a> IntoDimension for &'a [Ix] {
    type Dim = IxDyn;

    open spec fn extents(&self) -> Seq<usize> {
        self@
    }

    fn into_dimension(self) -> (dim: IxDyn) {
        Dim::new(vstd::slice::slice_to_vec(self))
    }
}

impl IntoDimension for [Ix; 0] {
    type Dim = Dim<[Ix; 0]>;

    open spec fn extents(&self) -> Seq<usize> {
        self@
    }

    fn into_dimension(self) -> (dim: Dim<[Ix; 0]>) {
        Dim::new(self)
    }
}

impl IntoDimension for [Ix; 1] {
    type Dim = Dim<[Ix; 1]>;

    open spec fn extents(&self) -> Seq<usize> {
        self@
    }

    fn into_dimension(self) -> (dim: Dim<[Ix; 1]>) {
        Dim::new(self)
    }
}

impl IntoDimension for [Ix; 2] {
    type Dim = Dim<[Ix; 2]>;

    open spec fn extents(&self) -> Seq<usize> {
        self@
    }

    fn into_dimension(self) -> (dim: Dim<[Ix; 2]>) {
        Dim::new(self)
    }
}

impl IntoDimension for [Ix; 3] {
    type Dim = Dim<[Ix; 3]>;

    open spec fn extents(&self) -> Seq<usize> {
        self@
    }

    fn into_dimension(self) -> (dim: Dim<[Ix; 3]>) {
        Dim::new(self)
    }
}

impl IntoDimension for [Ix; 4] {
    type Dim = Dim<[Ix; 4]>;

    open spec fn extents(&self) -> Seq<usize> {
        self@
    }

    fn into_dimension(self) -> (dim: Dim<[Ix; 4]>) {
        Dim::new(self)
    }
}

impl IntoDimension for [Ix; 5] {
    type Dim = Dim<[Ix; 5]>;

    open spec fn extents(&self) -> Seq<usize> {
        self@
    }

    fn into_dimension(self) -> (dim: Dim<[Ix; 5]>) {
        Dim::new(self)
    }
}

impl IntoDimension for () {
    type Dim = Dim<[Ix; 0]>;

    open spec fn extents(&self) -> Seq<usize> {
        Seq::empty()
    }

    fn into_dimension(self) -> (dim: Dim<[Ix; 0]>) {
        crate::dim::Ix0()
    }
}

impl IntoDimension for (Ix,) {
    type Dim = Dim<[Ix; 1]>;

    open spec fn extents(&self) -> Seq<usize> {
        seq![self.0]
    }

    fn into_dimension(self) -> (dim: Dim<[Ix; 1]>) {
        crate::dim::Ix1(self.0)
    }
}

impl IntoDimension for (Ix, Ix) {
    type Dim = Dim<[Ix; 2]>;

    open spec fn extents(&self) -> Seq<usize> {
        seq![self.0, self.1]
    }

    fn into_dimension(self) -> (dim: Dim<[Ix; 2]>) {
        crate::dim::Ix2(self.0, self.1)
    }
}

impl IntoDimension for (Ix, Ix, Ix) {
    type Dim = Dim<[Ix; 3]>;

    open spec fn extents(&self) -> Seq<usize> {
        seq![self.0, self.1, self.2]
    }

    fn into_dimension(self) -> (dim: Dim<[Ix; 3]>) {
        crate::dim::Ix3(self.0, self.1, self.2)
    }
}

impl IntoDimension for (Ix, Ix, Ix, Ix) {
    type Dim = Dim<[Ix; 4]>;

    open spec fn extents(&self) -> Seq<usize> {
        seq![self.0, self.1, self.2, self.3]
    }

    fn into_dimension(self) -> (dim: Dim<[Ix; 4]>) {
        crate::dim::Ix4(self.0, self.1, self.2, self.3)
    }
}

impl IntoDimension for (Ix, Ix, Ix, Ix, Ix) {
    type Dim = Dim<[Ix; 5]>;

    open spec fn extents(&self) -> Seq<usize> {
        seq![self.0, self.1, self.2, self.3, self.4]
    }

    fn into_dimension(self) -> (dim: Dim<[Ix; 5]>) {
        crate::dim::Ix5(self.0, self.1, self.2, self.3, self.4)
    }
}

} // verus!
