//! Settings for font-facing callers.
//!
//! Rasterizing a glyph starts from a parsed font face; this type carries
//! the choices that selection needs. The face parsing itself, and the
//! conversion of glyph outlines into segment lists, live with the caller —
//! the raster core is agnostic to how its segment list was produced.

use vstd::prelude::*;

verus! {

/// Settings for controlling specific font and layout behavior.
#[derive(Copy, Clone, Debug)]
pub struct FontSettings {
    /// The index of the font to use if parsing a font collection.
    pub collection_index: u32,
}

impl Default for FontSettings {
    /// The default settings pick the first font of a collection.
    fn default() -> (r: FontSettings)
        ensures
            r.collection_index == 0,
    {
        FontSettings { collection_index: 0 }
    }
}

} // verus!
