//! Colours written as `0xRRGGBB` numbers.
use vstd::prelude::*;

verus! {

/// The red, green and blue bytes of a `0xRRGGBB` number; bits above the
/// lowest 24 are ignored.
pub fn rgb3(hex: u32) -> (r: [u8; 3])
    ensures
        r@ == seq![(hex / 0x10000 % 0x100) as u8, (hex / 0x100 % 0x100) as u8, (hex % 0x100) as u8],
{
    assert(((hex >> 16u32) as u8) == (hex / 0x10000 % 0x100) as u8) by (bit_vector);
    assert(((hex >> 8u32) as u8) == (hex / 0x100 % 0x100) as u8) by (bit_vector);
    assert((hex as u8) == (hex % 0x100) as u8) by (bit_vector);
    let r: u8 = (hex >> 16u32) as u8;
    let g: u8 = (hex >> 8u32) as u8;
    let b: u8 = hex as u8;
    let out = [r, g, b];
    assert(out@ =~= seq![r, g, b]);
    out
}

} // verus!
