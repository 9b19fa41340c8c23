//! State and rules of a small code viewer: a sorted tree of the files under a
//! workspace folder, and the set of files that are open in tabs.
//!
//! Nothing here touches the disk or a window. A caller reads directories and
//! files, hands what it read to these types, and draws what they hold.

pub mod editor;
pub mod error;
pub mod file_explorer;
pub mod text;
pub mod ui;
