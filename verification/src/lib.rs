//! Document-model and layout core of a terminal markdown viewer.
//!
//! The library turns a flat stream of classified words into blocks of
//! width-fitted line layouts, and offers navigation over the result:
//! scrolling offsets, link selection, search-result marking, and
//! heading / footnote lookup.
#![verifier::loop_isolation(false)]

pub mod codeblock;
pub mod component;
pub mod keys;
pub mod list;
pub mod root;
pub mod searchbox;
pub mod table;
pub mod transform;
pub mod width;
pub mod word;
pub mod wrap;
pub mod util;
