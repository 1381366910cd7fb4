//! A toolkit for building resilient, interactive language front-ends.
//!
//! Raw text is lexed into a tree of tokens that tolerates malformed input,
//! a composable grammar algebra ("shapes") matches over that tree, a
//! precedence-climbing engine parses expressions extended by user macros,
//! and an incremental engine re-lexes only the smallest delimited region
//! that an edit touches.

pub mod atom;
pub mod atoms;
pub mod completion;
pub mod highlighter;
pub mod incremental;
pub mod mock;
pub mod parser;
pub mod scoping;
pub mod language;
pub mod lexer;
pub mod macros;
pub mod shape;
pub mod token;

pub use atom::{Atom, AtomKind, VariableRole};
pub use highlighter::HighlightStyle;
pub use language::{Delimiter, Language, VariableRules};
pub use incremental::{incremental_relex, GreenToken, GreenTree, RedNode, RelexResult, TextEdit};
pub use lexer::lex;
pub use macros::{ExpansionResult, Macro, MacroContext, MacroExpansion};
pub use completion::{find_completions, find_token_at_offset};
pub use parser::Parser;
pub use scoping::{
    scope_tokens, BindingPass, NoOpBindingPass, NoOpReferencePass, ReferencePass, ScopeStack,
    SimpleBindingPass, SimpleReferencePass,
};
pub use shape::{
    adjacent, choice, empty, end, enter, expr, joined, opt, recover, rep, separated, term,
    AdjacencyConstraint, Associativity, CompletionItem, CompletionKind, MatchFailure, MatchResult,
    Matcher, ParseError, Precedence, Shape,
};
pub use token::{BindingId, Cursor, SourceLocation, Token, TokenStream, TokenTree};
