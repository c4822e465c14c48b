//! Command-line options of the viewer.
use vstd::prelude::*;

verus! {

/// What the viewer was asked to show.
#[derive(Debug, PartialEq, Eq)]
pub struct Args {
    /// Whether to show stats in the top left.
    pub stats: bool,
    /// Whether to show borders around tiles.
    pub tiles: bool,
    /// Whether to show the culling box, beyond which tiles are not rendered.
    pub show_culling: bool,
    /// The path to the image or tiles to render.
    pub image_path: String,
}

} // verus!
