//! What the screen needs that is no state of the workspace.

pub mod sidebar;
pub mod theme;
