//! Codec for the BFLYT binary UI-layout container format.
//!
//! A layout file is a 20-byte header followed by a flat stream of
//! tag-length-value sections.  This crate decodes such a buffer into a
//! typed document, rebuilds the implicit pane tree from the scope-marker
//! sections, and encodes the document back into bytes, recomputing every
//! relative offset, section length and alignment pad.

pub mod bytes;
pub mod decode;
pub mod encode;
pub mod encoding;
pub mod error;
pub mod laws;
pub mod model;
pub mod parse;
pub mod tree;
pub mod validate;
