//! What the window is created with.
use vstd::prelude::*;

verus! {

/// The size and title of the window.
pub struct WindowConfig {
    pub width: u32,
    pub height: u32,
    pub title: String,
}

} // verus!
