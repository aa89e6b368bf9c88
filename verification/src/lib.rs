//! Fold long lines of text at a configured display width.
//!
//! The core is a greedy, single-pass line folder: given one line of bytes and
//! the byte offsets at which its countable units start (bytes, Unicode scalar
//! values, or extended grapheme clusters), it decides where to insert line
//! breaks so that no emitted segment exceeds the width limit, optionally
//! preferring to break just after the last whitespace byte of the overflowing
//! span rather than mid-word.

pub mod fold;
pub mod laws;
pub mod segment;

pub use fold::FoldError;
pub use fold::MaxWidth;
pub use fold::fold_line;
pub use segment::Mode;
pub use segment::fold_file;
pub use segment::fold_mode_line;
