//! Background-colour test used to pick foreground pixels.
use vstd::prelude::*;

verus! {

/// Largest per-channel distance at which a pixel still counts as background.
pub const BG_TOLERANCE: u8 = 30;

/// Absolute difference of two channel values.
pub open spec fn channel_diff(a: u8, b: u8) -> int {
    if a >= b { a - b } else { b - a }
}

/// A colour is background when every channel lies within `BG_TOLERANCE` of the background colour.
pub open spec fn spec_is_bg_color(r: u8, g: u8, b: u8, bg: [u8; 3]) -> bool {
    &&& channel_diff(r, bg[0]) <= BG_TOLERANCE
    &&& channel_diff(g, bg[1]) <= BG_TOLERANCE
    &&& channel_diff(b, bg[2]) <= BG_TOLERANCE
}

fn channel_close(a: u8, b: u8) -> (r: bool)
    ensures
        r == (channel_diff(a, b) <= BG_TOLERANCE),
{
    if a >= b {
        a - b <= BG_TOLERANCE
    } else {
        b - a <= BG_TOLERANCE
    }
}

/// Whether `pixel` is (close to) the background colour `bg`.
pub fn is_bg_color(pixel: [u8; 3], bg: [u8; 3]) -> (r: bool)
    ensures
        r == spec_is_bg_color(pixel[0], pixel[1], pixel[2], bg),
{
    channel_close(pixel[0], bg[0]) && channel_close(pixel[1], bg[1]) && channel_close(pixel[2], bg[2])
}

} // verus!
