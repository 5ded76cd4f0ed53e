//! Offset arithmetic on stored words.
//!
//! Extents, strides and index components are all stored as [`Ix`]. A stride is
//! read as a signed number in two's complement whenever an offset is computed.

use vstd::prelude::*;

verus! {

/// Unsigned integer type of extents, stored strides and index components.
pub type Ix = usize;

/// Signed counterpart of [`Ix`]: strides as read, and element offsets.
pub type Ixs = isize;

/// The number of distinct values of [`Ix`].
pub open spec fn modulus() -> int {
    usize::MAX as int + 1
}

/// The signed reading of a stored word: values above `isize::MAX` stand for
/// the negative numbers of two's complement.
pub open spec fn signed(word: usize) -> int {
    if word <= isize::MAX {
        word as int
    } else {
        word as int - modulus()
    }
}

/// The stored word of a signed value: a negative number is stored in two's
/// complement.
pub open spec fn unsigned(value: int) -> int {
    if value < 0 {
        value + modulus()
    } else {
        value
    }
}

/// Whether a mathematical integer is representable as an [`Ixs`].
pub open spec fn fits_signed(value: int) -> bool {
    isize::MIN <= value <= isize::MAX
}

/// The offset of position `n` along an axis of the given stored stride:
/// the product of both words read as signed numbers.
pub open spec fn axis_offset(n: usize, stride: usize) -> int {
    signed(n) * signed(stride)
}

/// Storing the signed reading of a word gives the word back.
pub proof fn lemma_unsigned_signed(word: usize)
    ensures
        unsigned(signed(word)) == word,
        fits_signed(signed(word)),
{
}

/// Reads a stored word as a signed number.
pub fn to_signed(word: Ix) -> (value: Ixs)
    ensures
        value == signed(word),
{
    if word <= isize::MAX as usize {
        word as isize
    } else {
        let below: usize = usize::MAX - word;
        -(below as isize) - 1
    }
}

/// Stores a signed number as a word.
pub fn to_unsigned(value: Ixs) -> (word: Ix)
    ensures
        word == unsigned(value as int),
        signed(word) == value,
{
    if value >= 0 {
        value as usize
    } else {
        let above: isize = value + isize::MAX + 1;
        above as usize + (isize::MAX as usize + 1)
    }
}

/// Calculates the offset of position `n` along an axis of stride `stride`,
/// reading both words as signed numbers.
pub fn stride_offset(n: Ix, stride: Ix) -> (offset: isize)
    requires
        fits_signed(axis_offset(n, stride)),
    ensures
        offset == axis_offset(n, stride),
        n <= isize::MAX ==> offset == n * signed(stride),
{
    to_signed(n) * to_signed(stride)
}

/// The position that a possibly negative `index` denotes on an axis of length
/// `len`: a negative index counts from the end.
pub open spec fn resolved_index(len: int, index: int) -> int {
    if index < 0 {
        len + index
    } else {
        index
    }
}

/// Resolves a possibly negative `index` against an axis of length `len` and
/// stores the result as a word.
pub fn abs_index(len: Ixs, index: Ixs) -> (position: Ix)
    requires
        index < 0 ==> len + index >= isize::MIN,
    ensures
        position == unsigned(resolved_index(len as int, index as int)),
        resolved_index(len as int, index as int) >= 0 ==> position == resolved_index(
            len as int,
            index as int,
        ),
{
    if index < 0 {
        to_unsigned(len + index)
    } else {
        to_unsigned(index)
    }
}

} // verus!
