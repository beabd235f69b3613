//! The artwork settings of a shortcut.

use vstd::prelude::*;

verus! {

/// Where the logo is pinned over the hero image in the library.
#[derive(Debug, Clone, Copy, PartialEq, Eq, Structural)]
pub enum ShortcutLogoPosition {
    BottomLeft,
    TopCenter,
    CenterCenter,
    BottomCenter,
}

impl Default for ShortcutLogoPosition {
    /// A logo sits at the bottom left unless told otherwise.
    fn default() -> (r: Self)
        ensures
            r == ShortcutLogoPosition::BottomLeft,
    {
        ShortcutLogoPosition::BottomLeft
    }
}

} // verus!
