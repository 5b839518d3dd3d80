use vstd::prelude::*;

pub mod bitpacker64;
pub mod delta_encoding_64;
pub mod var_int;
pub mod zig_zag;

verus! {

/// Adds two sizes; the caller guarantees that the sum fits.
pub fn add(left: usize, right: usize) -> (r: usize)
    requires
        left + right <= usize::MAX,
    ensures
        r == left + right,
{
    left + right
}

} // verus!
