use vstd::prelude::*;

verus! {

/// The sign bit of an IEEE-754 single-precision bit pattern.
pub const SIGN_BIT: u32 = 0x8000_0000;

/// Depth key of the single-precision value `0.0` (bit pattern `0x0000_0000`).
pub const DEPTH_KEY_ZERO: u32 = 0x8000_0000;

/// Depth key of the single-precision value `1.0` (bit pattern `0x3f80_0000`),
/// the far plane after the perspective divide.
pub const DEPTH_KEY_FAR: u32 = 0xbf80_0000;

/// Maps the bit pattern of a single-precision depth to an unsigned key whose
/// integer order is the numeric order of the depths: a non-negative value gets
/// its sign bit set, a negative one has every bit inverted.
pub open spec fn depth_key_of(bits: u32) -> u32 {
    if bits & SIGN_BIT == 0 {
        bits | SIGN_BIT
    } else {
        !bits
    }
}

pub fn depth_key(bits: u32) -> (r: u32)
    ensures
        r == depth_key_of(bits),
{
    if bits & SIGN_BIT == 0 {
        bits | SIGN_BIT
    } else {
        !bits
    }
}

/// The key order follows sign and magnitude as single-precision values are
/// ordered: among non-negative patterns a larger magnitude is a larger key,
/// among negative ones a larger magnitude is a smaller key, and every negative
/// pattern is below every non-negative one. Distinct patterns get distinct keys.
pub proof fn lemma_depth_key_order(a: u32, b: u32)
    ensures
        a & SIGN_BIT == 0 && b & SIGN_BIT == 0 ==> (depth_key_of(a) < depth_key_of(b) <==> a < b),
        a & SIGN_BIT != 0 && b & SIGN_BIT != 0 ==> (depth_key_of(a) < depth_key_of(b) <==> (a
            & !SIGN_BIT) > (b & !SIGN_BIT)),
        a & SIGN_BIT != 0 && b & SIGN_BIT == 0 ==> depth_key_of(a) < depth_key_of(b),
        a != b ==> depth_key_of(a) != depth_key_of(b),
{
    assert(a & 0x8000_0000u32 == 0 && b & 0x8000_0000u32 == 0 ==> ((a | 0x8000_0000u32) < (b
        | 0x8000_0000u32) <==> a < b)) by (bit_vector);
    assert(a & 0x8000_0000u32 != 0 && b & 0x8000_0000u32 != 0 ==> (!a < !b <==> (a
        & !0x8000_0000u32) > (b & !0x8000_0000u32))) by (bit_vector);
    assert(a & 0x8000_0000u32 != 0 && b & 0x8000_0000u32 == 0 ==> !a < (b | 0x8000_0000u32))
        by (bit_vector);
    assert(a != b ==> (if a & 0x8000_0000u32 == 0 {
        a | 0x8000_0000u32
    } else {
        !a
    }) != (if b & 0x8000_0000u32 == 0 {
        b | 0x8000_0000u32
    } else {
        !b
    })) by (bit_vector);
}

} // verus!
