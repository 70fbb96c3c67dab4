//! Extraction of the narrative from the script files of a visual-novel
//! engine.
//!
//! A script file is an untyped tree of named blocks. This library holds the
//! tree and its queries (`types`), indexes the blocks (`blocks`) and the
//! labels (`labels`), compiles the inline markup of a line (`markup`), walks
//! the blocks from the entry block on and gives the narrative as a list of
//! events (`extract`, `messages`, and `bound` for what the bound on a walk
//! means), puts the blocks of a file in canonical order (`sort`), and
//! renders a narrative as Markdown (`render`) or as records for translation
//! (`galtransl`).
//!
//! Every function is verified against a contract stated over the
//! mathematical value of its arguments: the view of a tree is a `Tree`, the
//! view of a string is its sequence of characters.

pub mod args;
pub mod blocks;
pub mod bound;
pub mod error;
pub mod extract;
pub mod galtransl;
pub mod labels;
pub mod markup;
pub mod messages;
pub mod render;
pub mod sort;
pub mod strmap;
pub mod text;
pub mod types;
