use vstd::prelude::*;

verus! {

/// A color-buffer pixel laid out as `0x00RRGGBB`.
pub open spec fn packed_rgb(red: u32, green: u32, blue: u32) -> u32 {
    (red << 16u32) | (green << 8u32) | blue
}

/// Packs the channels of a fragment's output into one color-buffer pixel.
pub fn pack_rgb(red: u32, green: u32, blue: u32) -> (r: u32)
    ensures
        r == packed_rgb(red, green, blue),
        red < 256 && green < 256 && blue < 256 ==> r == red * 0x1_0000 + green * 0x100 + blue,
        red < 256 && green < 256 && blue < 256 ==> {
            &&& (r >> 16u32) & 0xff == red
            &&& (r >> 8u32) & 0xff == green
            &&& r & 0xff == blue
            &&& r < 0x100_0000
        },
{
    let r = blue | (green << 8u32) | (red << 16u32);
    assert(r == packed_rgb(red, green, blue)) by (bit_vector)
        requires
            r == blue | (green << 8u32) | (red << 16u32),
    ;
    if red < 256 && green < 256 && blue < 256 {
        assert(r == red * 0x1_0000 + green * 0x100 + blue && (r >> 16u32) & 0xff == red && (r
            >> 8u32) & 0xff == green && r & 0xff == blue && r < 0x100_0000) by (bit_vector)
            requires
                r == blue | (green << 8u32) | (red << 16u32),
                red < 256,
                green < 256,
                blue < 256,
        ;
    }
    r
}

} // verus!
