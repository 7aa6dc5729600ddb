//! The configuration a window is created from.
use vstd::prelude::*;

verus! {

/// Title and inner size, in logical pixels, of the window to create.
pub struct WindowConfiguration {
    pub title: String,
    pub width: u32,
    pub height: u32,
}

impl Default for WindowConfiguration {
    /// "Untitled", 800 by 800.
    fn default() -> (r: WindowConfiguration)
        ensures
            r.title@ == "Untitled"@,
            r.width == 800,
            r.height == 800,
    {
        WindowConfiguration { title: "Untitled".to_string(), width: 800, height: 800 }
    }
}

} // verus!
