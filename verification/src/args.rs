//! The choices that the command line offers and the library acts on.

use vstd::prelude::*;

verus! {

/// The format that a narrative is rendered in.
#[derive(Clone, Copy, Debug, PartialEq, Eq)]
pub enum RenderType {
    /// Markdown, as GitHub reads it.
    Markdown,
}

impl RenderType {
    /// The name of the format on the command line.
    pub fn to_string(&self) -> (r: String)
        ensures
            r@ == "markdown"@,
    {
        match self {
            RenderType::Markdown => "markdown".to_owned(),
        }
    }
}

} // verus!
