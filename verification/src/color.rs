//! The text colour that stands out on a coloured background.
use vstd::prelude::*;

verus! {

/// The grey level above which black text stands out better than white.
pub const GRAY_THRESHOLD: u8 = 0xa0;

/// The foreground colour for a background of grey level `gray`: black on a
/// light background, white on a dark one.
pub open spec fn spec_calc_fg_color(gray: u8) -> (u8, u8, u8) {
    if gray > GRAY_THRESHOLD {
        (0, 0, 0)
    } else {
        (0xff, 0xff, 0xff)
    }
}

/// Picks black or white text for a background of grey level `gray`.
pub fn calc_fg_color(gray: u8) -> (fg: (u8, u8, u8))
    ensures
        fg == spec_calc_fg_color(gray),
{
    if gray > GRAY_THRESHOLD {
        (0u8, 0u8, 0u8)
    } else {
        (0xffu8, 0xffu8, 0xffu8)
    }
}

} // verus!
