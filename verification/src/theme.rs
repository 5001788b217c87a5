//! The colours of the popup, each as `0xRRGGBB`.

use vstd::prelude::*;

verus! {

/// The colours used throughout the popup.
pub struct ThemeColors;

impl ThemeColors {
    pub const BACKGROUND: u32 = 0x1e1e23;

    pub const PANEL: u32 = 0x282830;

    pub const ACCENT: u32 = 0x6495ed;

    pub const TEXT: u32 = 0xe6e6e6;

    pub const DIM_TEXT: u32 = 0x9696a0;

    pub const SEPARATOR: u32 = 0x3c3c46;

    pub const HOVER: u32 = 0x3c3c4b;

    pub const PIN_ICON: u32 = 0xffc832;

    pub const SHORTCUT_ICON: u32 = 0xff9632;

    pub const CLIPBOARD_ICON: u32 = 0x64c896;

    pub const SECTION_HEADER: u32 = 0x78788c;
}

/// The red, green and blue part of a colour.
pub open spec fn parts_of(color: u32) -> (u8, u8, u8) {
    (((color / 65536) % 256) as u8, ((color / 256) % 256) as u8, (color % 256) as u8)
}

/// Splits a colour into its red, green and blue part.
pub fn rgb(color: u32) -> (parts: (u8, u8, u8))
    ensures
        parts == parts_of(color),
{
    (((color / 65536) % 256) as u8, ((color / 256) % 256) as u8, (color % 256) as u8)
}

} // verus!
