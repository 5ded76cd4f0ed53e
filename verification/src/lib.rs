//! Shapes and strides of dense N-dimensional arrays.
//!
//! A shape lists the extent of each axis; a stride vector lists, per axis, the
//! step in elements between neighbouring positions. This crate computes
//! linear offsets from multi-dimensional indices, decides whether a shape and
//! stride pair may address a buffer of a given length, and rewrites shapes and
//! strides under slicing and axis removal.

pub mod axis;
pub mod convert;
pub mod dim;
pub mod dimension;
pub mod dynamic;
pub mod enumeration;
pub mod error;
pub mod extension;
pub mod fixed;
pub mod indexing;
pub mod layout;
pub mod ndindex;
pub mod offset;
pub mod order;
pub mod remove_axis;
pub mod shape;
pub mod slicing;

pub use axis::Axis;
pub use dim::{Dim, Ix0, Ix1, Ix2, Ix3, Ix4, Ix5, IxDyn};
pub use dimension::{Dimension, IntoDimension};
pub use error::{from_kind, ErrorKind, ShapeError};
pub use extension::DimensionExt;
pub use layout::{can_index_slice, dim_stride_overlap, stride_offset_checked_arithmetic};
pub use ndindex::NdIndex;
pub use offset::{abs_index, stride_offset, to_signed, to_unsigned, Ix, Ixs};
pub use remove_axis::RemoveAxis;
pub use slicing::{do_sub, slices_applicable, Si};
