//! Highlight styles that atoms assign to their tokens. Rendering the styles
//! (to a terminal or elsewhere) is a front-end concern outside this crate.

use vstd::prelude::*;

verus! {

/// The visual class of a token, chosen by the atom that produced it.
#[derive(Debug, Clone, Copy, PartialEq, Eq, Structural)]
pub enum HighlightStyle {
    Keyword,
    String,
    Number,
    Comment,
    Operator,
    Punctuation,
    Variable,
    Function,
    /// No particular styling.
    Plain,
}

} // verus!
