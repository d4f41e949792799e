//! Renders a syntax tree of declarations as canonical source text.
//!
//! The emission rules (`item`, `parts`) turn a tree (`tree`) into a stream of
//! layout instructions (`doc`, collected by a `printer`), and the layout
//! engine (`layout`) decides where that stream breaks into lines under a
//! maximum width. A declaration that the tree holds only as tokens (`token`)
//! is matched against the few shapes known for its place (`fallback`, which
//! reads with `scan` and `parse` and asks `syntax`). What holds of all this
//! for every input is stated in `boxes` and `laws`.

pub mod boxes;
pub mod doc;
pub mod error;
pub mod fallback;
pub mod item;
pub mod laws;
pub mod layout;
pub mod parse;
pub mod parts;
pub mod printer;
pub mod scan;
pub mod syntax;
pub mod token;
pub mod tree;
