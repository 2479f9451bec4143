//! Verified core of a small set of text utilities: the position-list parser
//! and record extractor of a `cut`-like tool, plus the line-level logic of
//! `head`, `cat`, `wc`, `uniq` and `find`-like tools.
pub mod text;
pub mod selector;
pub mod extract;
pub mod head;
pub mod wc;
pub mod uniq;
pub mod cat;
pub mod find;
