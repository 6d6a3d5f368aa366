//! Packed pixel colours.

use vstd::prelude::*;

verus! {

/// The packed value of a colour: red in bits 16 to 23, green in bits 8 to 15,
/// blue in bits 0 to 7, and the top byte zero.
pub open spec fn packed(r: u8, g: u8, b: u8) -> int {
    r * 65536 + g * 256 + b
}

/// Packs three channel levels into one pixel value, from which each of them
/// can be read back.
pub fn pack_rgb(r: u8, g: u8, b: u8) -> (pixel: u32)
    ensures
        pixel == packed(r, g, b),
        pixel >> 24 == 0,
        (pixel >> 16) & 0xFF == r,
        (pixel >> 8) & 0xFF == g,
        pixel & 0xFF == b,
{
    let red: u32 = r as u32;
    let green: u32 = g as u32;
    let blue: u32 = b as u32;
    let pixel: u32 = (red << 16) | (green << 8) | blue;
    assert(pixel == red * 65536 + green * 256 + blue && pixel >> 24 == 0 && (pixel >> 16) & 0xFF
        == red && (pixel >> 8) & 0xFF == green && pixel & 0xFF == blue) by (bit_vector)
        requires
            red < 256,
            green < 256,
            blue < 256,
            pixel == (red << 16) | (green << 8) | blue,
    ;
    pixel
}

} // verus!
