//! The pixel constants of the font.

use vstd::prelude::*;

verus! {

/// Extra pixels that a bold glyph takes.
pub const BOLD_PAD: i32 = 2;

/// Width of the space glyph.
pub const SPACE_WIDTH: i32 = 4;

/// Gap between two neighbouring glyphs.
pub const CHAR_HORIZON_PADDING: i32 = 2;

/// Extra pixels after a line that ends in italic.
pub const ITALIC_CHAR_HORIZON_PADDING: i32 = 4;

/// Height of a glyph row.
pub const GLYPH_HEIGHT: u32 = 31;

/// Pixels that a plain space takes in a line, gap included.
pub const PLAIN_SPACE_UNIT: i32 = SPACE_WIDTH + CHAR_HORIZON_PADDING;

/// Pixels that a bold space takes in a line, gap included.
pub const BOLD_SPACE_UNIT: i32 = SPACE_WIDTH + BOLD_PAD + CHAR_HORIZON_PADDING;

} // verus!
