//! Repairs misaligned right-hand borders of box drawings embedded in text.
//!
//! Lines are classified by how much they look like part of a box, grouped into
//! diagram blocks, and each block is corrected in rounds: closing borders that
//! stand left of the rightmost one are padded out to it, and boxy lines that
//! lack a border get one, as long as the revision scores high enough.
pub mod correct;
pub mod glyph;
pub mod line;
pub mod rerun;
pub mod revise;
pub mod segment;
pub mod text;

pub use correct::{correct_block, correct_lines, BlockOutcome, Config, Stats};
pub use glyph::{
    detect_vertical_border, is_box_char, is_corner, is_horizontal_fill, is_junction,
    is_vertical_border,
};
pub use line::{
    analyze_line, classify_line, detect_suffix_border, expand_tabs, visual_width, AnalyzedLine,
    LineKind, SuffixBorder,
};
pub use revise::Revision;
pub use segment::{find_diagram_blocks, DiagramBlock, MIN_CONFIDENCE};
