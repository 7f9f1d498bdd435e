//! Conversions of lengths to the integers that instructions hold.

use vstd::prelude::*;

verus! {

/// [`num_traits::cast`] from `usize` to `u8`: the same number, if a `u8` can hold it.
#[verifier::external_body]
pub(crate) fn cast_u8(n: usize) -> (cast: Option<u8>)
    ensures
        cast == if n <= u8::MAX {
            Some(n as u8)
        } else {
            None
        },
{
    num_traits::cast(n)
}

/// [`num_traits::cast`] from `usize` to `u16`: the same number, if a `u16` can hold it.
#[verifier::external_body]
pub(crate) fn cast_u16(n: usize) -> (cast: Option<u16>)
    ensures
        cast == if n <= u16::MAX {
            Some(n as u16)
        } else {
            None
        },
{
    num_traits::cast(n)
}

} // verus!
