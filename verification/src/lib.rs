//! Groups names that differ in a number only, such as the frames of a
//! rendered sequence, into collections: `render.1001.exr` to
//! `render.1005.exr` become one collection with the head `render.`, the tail
//! `.exr`, a padding of four and the indexes 1001 to 1005.
//!
//! `assemble` finds the collections in a list of names. A `Collection` tells
//! its members, its holes and its contiguous parts, and writes itself in one
//! line.

pub mod assemble;
pub mod buckets;
pub mod collection;
pub mod error;
pub mod format;
pub mod merge;
pub mod pattern;
pub mod reading;
pub mod remainder;
pub mod runs;
pub mod text;

pub use assemble::{assemble, assemble_occurrences};
pub use collection::Collection;
pub use error::AssembleError;
