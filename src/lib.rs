//! A multi-layer line-layout engine for an editable text document.
//!
//! A flat buffer is seen through three nested line representations: origin
//! lines (raw buffer lines), folded lines (after code folding merges lines)
//! and visual lines (after soft wrap splits a folded line). Virtual text
//! (inlay hints, fold placeholders, completion previews) is overlaid on the
//! folded lines, and styles are re-anchored through every step.
pub mod mode;
pub mod error;
pub mod phantom;
pub mod phantom_line;
pub mod style;
pub mod line;
pub mod lines;
pub mod mapper;
pub mod cursor;
pub mod misc;
pub mod resolve;
pub mod fold;
pub mod assemble;
pub mod delta;
pub mod ansi;
