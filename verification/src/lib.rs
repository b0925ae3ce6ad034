//! Lenient segmentation and validation of byte strings that are expected,
//! but not guaranteed, to hold UTF-8 text.
//!
//! The core is a UTF-8 chunk decoder that splits any byte sequence into
//! maximal well-formed runs and maximal ill-formed subparts (following the
//! Unicode "substitution of maximal subparts" rule), and a family of
//! segmenters built on top of it: codepoints, lines, fields, words,
//! sentences and grapheme clusters, together with simple byte-level
//! predicates.

pub mod chunks;
pub mod fields;
pub mod find;
pub mod lines;
pub mod modes;
pub mod scan;
pub mod segment;

pub use chunks::utf8_chunks;
pub use fields::fields;
pub use fields::split_whitespace;
pub use find::contains;
pub use lines::lines;
pub use lines::LineMode;
pub use modes::parse_line_mode;
pub use modes::parse_word_mode;
pub use scan::chars;
pub use scan::is_ascii;
pub use scan::is_utf8;
pub use segment::graphemes;
pub use segment::sentences;
pub use segment::words;
pub use segment::WordMode;
