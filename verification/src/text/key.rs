//! The packing of the key of a rasterized glyph into one 128-bit value.
use vstd::prelude::*;

verus! {

/// The 128-bit key of a rasterized glyph: from the highest bits down, the font, the glyph,
/// the bits of the font size, the horizontal and vertical subpixel bins, and whether italic is
/// synthesized.
pub open spec fn glyph_key_value(
    font_id: u64,
    glyph_id: u16,
    font_size_bits: u32,
    x_bin: u8,
    y_bin: u8,
    fake_italic: bool,
) -> u128 {
    (font_id as u128) << 53u128 | (glyph_id as u128) << 37u128 | (font_size_bits as u128) << 5u128
        | (x_bin as u128) << 3u128 | (y_bin as u128) << 1u128 | (if fake_italic { 1u128 } else { 0u128 })
}

/// Packs the parts of the key of a rasterized glyph into one value; each part can be read back
/// from it, so that distinct keys give distinct values.
pub fn glyph_key(
    font_id: u64,
    glyph_id: u16,
    font_size_bits: u32,
    x_bin: u8,
    y_bin: u8,
    fake_italic: bool,
) -> (r: u128)
    requires
        x_bin < 4,
        y_bin < 4,
    ensures
        r == glyph_key_value(font_id, glyph_id, font_size_bits, x_bin, y_bin, fake_italic),
        (r >> 53u128) as u64 == font_id,
        ((r >> 37u128) & 0xffffu128) as u16 == glyph_id,
        ((r >> 5u128) & 0xffff_ffffu128) as u32 == font_size_bits,
        ((r >> 3u128) & 3u128) as u8 == x_bin,
        ((r >> 1u128) & 3u128) as u8 == y_bin,
        (r & 1u128 == 1u128) == fake_italic,
{
    let italic: u128 = if fake_italic { 1 } else { 0 };
    let f = font_id as u128;
    let g = glyph_id as u128;
    let s = font_size_bits as u128;
    let x = x_bin as u128;
    let y = y_bin as u128;
    let r = f << 53u128 | g << 37u128 | s << 5u128 | x << 3u128 | y << 1u128 | italic;
    assert(f < 0x1_0000_0000_0000_0000u128 && g < 0x1_0000u128 && s < 0x1_0000_0000u128 && x < 4u128
        && y < 4u128 && italic < 2u128 ==> {
        let r = f << 53u128 | g << 37u128 | s << 5u128 | x << 3u128 | y << 1u128 | italic;
        &&& r >> 53u128 == f
        &&& (r >> 37u128) & 0xffffu128 == g
        &&& (r >> 5u128) & 0xffff_ffffu128 == s
        &&& (r >> 3u128) & 3u128 == x
        &&& (r >> 1u128) & 3u128 == y
        &&& r & 1u128 == italic
    }) by (bit_vector);
    r
}

/// Distinct glyph keys are packed into distinct values.
pub proof fn lemma_glyph_key_injective(
    a: (u64, u16, u32, u8, u8, bool),
    b: (u64, u16, u32, u8, u8, bool),
)
    requires
        a.3 < 4 && a.4 < 4,
        b.3 < 4 && b.4 < 4,
        glyph_key_value(a.0, a.1, a.2, a.3, a.4, a.5) == glyph_key_value(b.0, b.1, b.2, b.3, b.4, b.5),
    ensures
        a == b,
{
    let fa = a.0 as u128;
    let ga = a.1 as u128;
    let sa = a.2 as u128;
    let xa = a.3 as u128;
    let ya = a.4 as u128;
    let ia: u128 = if a.5 { 1 } else { 0 };
    let fb = b.0 as u128;
    let gb = b.1 as u128;
    let sb = b.2 as u128;
    let xb = b.3 as u128;
    let yb = b.4 as u128;
    let ib: u128 = if b.5 { 1 } else { 0 };
    assert(fa < 0x1_0000_0000_0000_0000u128 && ga < 0x1_0000u128 && sa < 0x1_0000_0000u128 && xa
        < 4u128 && ya < 4u128 && ia < 2u128 && fb < 0x1_0000_0000_0000_0000u128 && gb < 0x1_0000u128
        && sb < 0x1_0000_0000u128 && xb < 4u128 && yb < 4u128 && ib < 2u128 && (fa << 53u128 | ga
        << 37u128 | sa << 5u128 | xa << 3u128 | ya << 1u128 | ia) == (fb << 53u128 | gb << 37u128 | sb
        << 5u128 | xb << 3u128 | yb << 1u128 | ib) ==> fa == fb && ga == gb && sa == sb && xa == xb
        && ya == yb && ia == ib) by (bit_vector);
}

} // verus!
