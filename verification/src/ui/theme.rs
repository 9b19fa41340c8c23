//! The colours of the window.

use vstd::prelude::*;

verus! {

/// A colour as red, green and blue.
#[derive(Debug, Clone, Copy, PartialEq, Eq, Structural)]
pub struct Rgb {
    pub r: u8,
    pub g: u8,
    pub b: u8,
}

/// The colours that the window is drawn in. A theme is made once and only read after that.
#[derive(Debug, Clone, Copy, PartialEq, Eq, Structural)]
pub struct Theme {
    pub background_color: Rgb,
    pub text_color: Rgb,
    pub accent_color: Rgb,
    pub sidebar_background: Rgb,
    pub editor_background: Rgb,
}

impl Theme {
    /// The dark theme that the window starts with.
    pub open spec fn dark() -> Theme {
        Theme {
            background_color: Rgb { r: 30, g: 30, b: 30 },
            text_color: Rgb { r: 220, g: 220, b: 220 },
            accent_color: Rgb { r: 75, g: 135, b: 220 },
            sidebar_background: Rgb { r: 37, g: 37, b: 38 },
            editor_background: Rgb { r: 30, g: 30, b: 30 },
        }
    }
}

impl Default for Theme {
    fn default() -> (theme: Self)
        ensures
            theme == Theme::dark(),
    {
        Theme {
            background_color: Rgb { r: 30, g: 30, b: 30 },
            text_color: Rgb { r: 220, g: 220, b: 220 },
            accent_color: Rgb { r: 75, g: 135, b: 220 },
            sidebar_background: Rgb { r: 37, g: 37, b: 38 },
            editor_background: Rgb { r: 30, g: 30, b: 30 },
        }
    }
}

} // verus!
