//! Pixel-exact layout of formatted chat text set in a variable-width bitmap font:
//! the width model, the format tokenizer, the glyph cache, the compositor and the
//! padding solver that lines fragments up into columns.

pub mod align;
pub mod atlas;
pub mod bitmap;
pub mod define;
pub mod font;
pub mod font_widths;
pub mod pad;
pub mod render;
pub mod template;
pub mod text;
pub mod utils;

pub use align::{align_simple, cut_by_length, get_line_width};
pub use pad::{pad, pad_with_length};
pub use render::render;
pub use template::pad_with_format;
