use vstd::prelude::*;

verus! {

/// The zig-zag image of a signed integer: non-negative values go to the even
/// numbers, negative ones to the odd numbers, so that small magnitudes stay small.
pub open spec fn zig_zag(x: int) -> int {
    if x >= 0 {
        2 * x
    } else {
        -2 * x - 1
    }
}

/// The signed integer whose zig-zag image is `u`.
pub open spec fn unzig_zag(u: int) -> int {
    if u % 2 == 0 {
        u / 2
    } else {
        -(u / 2) - 1
    }
}

/// Undoing the zig-zag mapping gives back the integer.
pub proof fn lemma_unzig_zag_of_zig_zag(x: int)
    ensures
        unzig_zag(zig_zag(x)) == x,
{
}

/// The zig-zag mapping is onto the naturals: every `u >= 0` is the image of its preimage.
pub proof fn lemma_zig_zag_of_unzig_zag(u: int)
    requires
        u >= 0,
    ensures
        zig_zag(unzig_zag(u)) == u,
{
}

/// Maps an `i32` to its zig-zag image, which fits in 32 bits.
pub fn encode32(value: i32) -> (r: u64)
    ensures
        r as int == zig_zag(value as int),
        r <= u32::MAX,
{
    let r = (#[verifier::truncate] (value as u32) << 1) ^ (#[verifier::truncate] ((value >> 31) as u32));
    assert(value >= 0 ==> r == (value as u32) * 2) by (bit_vector)
        requires
            r == ((value as u32) << 1) ^ ((value >> 31) as u32),
    ;
    assert(value < 0 ==> r == ((-(value + 1)) as u32) * 2 + 1) by (bit_vector)
        requires
            r == ((value as u32) << 1) ^ ((value >> 31) as u32),
    ;
    r as u64
}

/// Maps the low 32 bits of `value` back to the `i32` whose zig-zag image they are.
pub fn decode32(value: u64) -> (r: i32)
    ensures
        r as int == unzig_zag((value % 0x1_0000_0000) as int),
{
    let low = #[verifier::truncate] (value as u32);
    let x = (low >> 1) ^ 0u32.wrapping_sub(low & 1);
    let r = #[verifier::truncate] (x as i32);
    assert(low == value % 0x1_0000_0000) by (bit_vector)
        requires
            low == value as u32,
    ;
    assert(low % 2 == 0 ==> r == (low / 2) as i32) by (bit_vector)
        requires
            r == (((low >> 1) ^ 0u32.wrapping_sub(low & 1)) as i32),
    ;
    assert(low % 2 == 1 ==> r == -((low / 2) as i32) - 1) by (bit_vector)
        requires
            r == (((low >> 1) ^ 0u32.wrapping_sub(low & 1)) as i32),
    ;
    r
}

/// Maps an `i64` to its zig-zag image.
pub fn encode64(value: i64) -> (r: u64)
    ensures
        r as int == zig_zag(value as int),
{
    let r = (#[verifier::truncate] (value as u64) << 1) ^ (#[verifier::truncate] ((value >> 63) as u64));
    assert(value >= 0 ==> r == (value as u64) * 2) by (bit_vector)
        requires
            r == ((value as u64) << 1) ^ ((value >> 63) as u64),
    ;
    assert(value < 0 ==> r == ((-(value + 1)) as u64) * 2 + 1) by (bit_vector)
        requires
            r == ((value as u64) << 1) ^ ((value >> 63) as u64),
    ;
    r
}

/// Maps a `u64` back to the `i64` whose zig-zag image it is.
pub fn decode64(value: u64) -> (r: i64)
    ensures
        r as int == unzig_zag(value as int),
{
    let x = (value >> 1) ^ 0u64.wrapping_sub(value & 1);
    let r = #[verifier::truncate] (x as i64);
    assert(value % 2 == 0 ==> r == (value / 2) as i64) by (bit_vector)
        requires
            r == (((value >> 1) ^ 0u64.wrapping_sub(value & 1)) as i64),
    ;
    assert(value % 2 == 1 ==> r == -((value / 2) as i64) - 1) by (bit_vector)
        requires
            r == (((value >> 1) ^ 0u64.wrapping_sub(value & 1)) as i64),
    ;
    r
}

/// Decoding the 64-bit zig-zag image of any `i64` gives it back.
pub proof fn lemma_zig_zag_64_round_trip(x: i64)
    ensures
        unzig_zag(zig_zag(x as int)) == x as int,
        0 <= zig_zag(x as int) <= u64::MAX,
{
}

/// Decoding the 32-bit zig-zag image of any `i32` gives it back.
pub proof fn lemma_zig_zag_32_round_trip(x: i32)
    ensures
        unzig_zag(zig_zag(x as int) % 0x1_0000_0000) == x as int,
        0 <= zig_zag(x as int) <= u32::MAX,
{
}

} // verus!
