//! Turning an escape-time result into pixel values.
use vstd::prelude::*;

verus! {

/// The largest iteration count handed to the escape-time evaluator; it maps
/// escape counts onto the 8-bit intensity range.
pub const ITERATION_LIMIT: u8 = 255;

/// An escape result is shadeable when its count fits the 8-bit ramp.
pub open spec fn shadeable(escape: Option<u32>) -> bool {
    match escape {
        Some(n) => n <= 255,
        None => true,
    }
}

/// Grayscale intensity of one pixel: points that never escaped are black;
/// a point that escaped at iteration `n` gets `255 - n`, so fast escapes are bright.
pub open spec fn intensity_of(escape: Option<u32>) -> u8 {
    match escape {
        Some(n) => (255 - n) as u8,
        None => 0u8,
    }
}

/// Grayscale intensity of a pixel whose escape-time result is `escape`.
pub fn intensity(escape: Option<u32>) -> (r: u8)
    requires
        shadeable(escape),
    ensures
        r == intensity_of(escape),
{
    match escape {
        Some(n) => (255 - n) as u8,
        None => 0,
    }
}

/// The three color channels for a packed color number: red and green are
/// left dark and the low byte of `color_num` drives the blue channel.
pub open spec fn color_of(color_num: u32) -> Seq<u8> {
    seq![0u8, 0u8, (color_num % 256) as u8]
}

/// Maps a packed color number onto an RGB triple (see `color_of`).
pub fn to_color(color_num: u32) -> (r: [u8; 3])
    ensures
        r@ == color_of(color_num),
{
    let low = color_num & 0xFF;
    assert(color_num & 0xFF == color_num % 256) by (bit_vector);
    let blue = low as u8;
    let r = [0u8, 0u8, blue];
    assert(r@ =~= color_of(color_num));
    r
}

} // verus!
