//! The side bar that holds the file tree: shown at its usual width, or hidden.

use vstd::prelude::*;

verus! {

/// The width at which the side bar is shown, in points.
pub const SIDEBAR_WIDTH: u32 = 250;

/// The side bar of the window. A width of 0 hides it.
#[derive(Debug, Clone, Copy, PartialEq, Eq, Structural)]
pub struct Sidebar {
    pub width: u32,
}

impl Sidebar {
    /// The side bar as the window starts with it: shown.
    pub fn new() -> (sidebar: Self)
        ensures
            sidebar.width == SIDEBAR_WIDTH,
    {
        Sidebar { width: SIDEBAR_WIDTH }
    }

    /// Whether the side bar is shown.
    pub fn is_visible(&self) -> (visible: bool)
        ensures
            visible == (self.width > 0),
    {
        self.width > 0
    }

    /// Hides the side bar where it is shown, and shows it at its usual width
    /// where it is hidden.
    pub fn toggle(&mut self)
        ensures
            final(self).width == if old(self).width > 0 {
                0
            } else {
                SIDEBAR_WIDTH
            },
    {
        self.width = if self.width > 0 {
            0
        } else {
            SIDEBAR_WIDTH
        };
    }
}

} // verus!
