//! The Endo morphogenesis pipeline: a DNA rewriter over a chunked base
//! sequence, and an RNA renderer that draws onto a stack of bitmaps.

pub mod base;
pub mod dna;
pub mod render;
pub mod exec;

pub use base::Base;
