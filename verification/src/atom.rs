//! The atoms of the lexer: token kinds, the roles an identifier can play,
//! and the closed set of atom matchers a language can be built from.
//!
//! Each atom tries to consume a prefix of the remaining text and, on
//! success, produces one token of its kind. The exact result of every atom
//! is pinned down by [`atom_spec_parse`].

use vstd::prelude::*;

use crate::atoms::{KeywordAtom, LiteralAtom, RegexAtom};
use crate::highlighter::HighlightStyle;
use crate::mock::{IdentifierAtom, KeywordAtom as MockKeywordAtom, SymbolAtom, WhitespaceAtom};
use crate::token::{run_len, spec_starts_with, Cursor, SourceLocation, Token};

verus! {

/// The role of a variable identifier, determined during lexing.
/// This allows for accurate syntax highlighting even before full parsing.
#[derive(Debug, Clone, Copy, PartialEq, Eq, Structural)]
pub enum VariableRole {
    /// The role is unknown or not applicable.
    Plain,
    /// The identifier is declaring a new variable (e.g., `let x`).
    Binding,
    /// The identifier is referring to an existing variable (e.g., `x + 1`).
    Reference,
}

/// The kind of an atomic token.
#[derive(Debug, Clone, PartialEq, Eq)]
pub enum AtomKind {
    /// Whitespace (spaces, tabs, newlines). Usually ignored by shapes.
    Whitespace,
    /// An identifier (variable name, function name, etc.).
    Identifier(VariableRole),
    /// A language keyword (e.g., `if`, `else`, `fn`).
    Keyword(String),
    /// A string literal.
    String,
    /// A numeric literal.
    Number,
    /// An operator (e.g., `+`, `-`, `*`).
    Operator,
    /// Any other token kind not covered above.
    Other(String),
}

/// The mathematical value of an [`AtomKind`]: the same variants with the
/// text payloads abstracted to character sequences.
pub enum SpecKind {
    Whitespace,
    Identifier(VariableRole),
    Keyword(Seq<char>),
    String,
    Number,
    Operator,
    Other(Seq<char>),
}

impl View for AtomKind {
    type V = SpecKind;

    open spec fn view(&self) -> SpecKind {
        match self {
            AtomKind::Whitespace => SpecKind::Whitespace,
            AtomKind::Identifier(role) => SpecKind::Identifier(*role),
            AtomKind::Keyword(k) => SpecKind::Keyword(k@),
            AtomKind::String => SpecKind::String,
            AtomKind::Number => SpecKind::Number,
            AtomKind::Operator => SpecKind::Operator,
            AtomKind::Other(s) => SpecKind::Other(s@),
        }
    }
}

impl DeepView for AtomKind {
    type V = SpecKind;

    open spec fn deep_view(&self) -> SpecKind {
        self.view()
    }
}

/// What [`AtomKind::describe`] returns for a given kind.
pub open spec fn spec_describe(k: SpecKind) -> Seq<char> {
    match k {
        SpecKind::Whitespace => "whitespace"@,
        SpecKind::Identifier(VariableRole::Plain) => "identifier"@,
        SpecKind::Identifier(VariableRole::Binding) => "variable binding"@,
        SpecKind::Identifier(VariableRole::Reference) => "variable reference"@,
        SpecKind::Keyword(k) => "keyword '"@ + k + "'"@,
        SpecKind::String => "string"@,
        SpecKind::Number => "number"@,
        SpecKind::Operator => "operator"@,
        SpecKind::Other(s) => s,
    }
}

impl AtomKind {
    /// A human-readable description of the kind, used in diagnostics.
    pub fn describe(&self) -> (r: String)
        ensures
            r@ == spec_describe(self@),
    {
        match self {
            AtomKind::Whitespace => "whitespace".to_owned(),
            AtomKind::Identifier(VariableRole::Plain) => "identifier".to_owned(),
            AtomKind::Identifier(VariableRole::Binding) => "variable binding".to_owned(),
            AtomKind::Identifier(VariableRole::Reference) => "variable reference".to_owned(),
            AtomKind::Keyword(k) => {
                let mut s = "keyword '".to_owned();
                s.append(k.as_str());
                s.append("'");
                s
            },
            AtomKind::String => "string".to_owned(),
            AtomKind::Number => "number".to_owned(),
            AtomKind::Operator => "operator".to_owned(),
            AtomKind::Other(s) => s.clone(),
        }
    }

    /// A copy of the kind, equal to the original at the level of views.
    pub fn duplicate(&self) -> (r: AtomKind)
        ensures
            r@ == self@,
    {
        match self {
            AtomKind::Whitespace => AtomKind::Whitespace,
            AtomKind::Identifier(role) => AtomKind::Identifier(*role),
            AtomKind::Keyword(k) => AtomKind::Keyword(k.clone()),
            AtomKind::String => AtomKind::String,
            AtomKind::Number => AtomKind::Number,
            AtomKind::Operator => AtomKind::Operator,
            AtomKind::Other(s) => AtomKind::Other(s.clone()),
        }
    }

    /// Whether this kind is whitespace.
    pub fn is_whitespace(&self) -> (r: bool)
        ensures
            r == (self@ is Whitespace),
    {
        matches!(self, AtomKind::Whitespace)
    }

    /// Whether this kind is an identifier of any role.
    pub fn is_identifier(&self) -> (r: bool)
        ensures
            r == (self@ is Identifier),
    {
        matches!(self, AtomKind::Identifier(_))
    }

    /// Whether two kinds have the same mathematical value.
    pub fn same_kind(&self, other: &AtomKind) -> (r: bool)
        ensures
            r == (self@ == other@),
    {
        match self {
            AtomKind::Whitespace => matches!(other, AtomKind::Whitespace),
            AtomKind::Identifier(a) => match other {
                AtomKind::Identifier(b) => a == b,
                _ => false,
            },
            AtomKind::Keyword(a) => match other {
                AtomKind::Keyword(b) => a.eq(b),
                _ => false,
            },
            AtomKind::String => matches!(other, AtomKind::String),
            AtomKind::Number => matches!(other, AtomKind::Number),
            AtomKind::Operator => matches!(other, AtomKind::Operator),
            AtomKind::Other(a) => match other {
                AtomKind::Other(b) => a.eq(b),
                _ => false,
            },
        }
    }
}

/// Whitespace as the built-in whitespace atom understands it.
pub open spec fn is_ws_char(c: char) -> bool {
    c == ' ' || c == '\t' || c == '\n' || c == '\r'
}

/// A character that may start an identifier.
pub open spec fn is_ident_start_char(c: char) -> bool {
    ('a' <= c && c <= 'z') || ('A' <= c && c <= 'Z') || c == '_'
}

/// A character that may continue an identifier.
pub open spec fn is_ident_cont_char(c: char) -> bool {
    is_ident_start_char(c) || ('0' <= c && c <= '9')
}

pub fn char_is_ws(c: char) -> (r: bool)
    ensures
        r == is_ws_char(c),
{
    c == ' ' || c == '\t' || c == '\n' || c == '\r'
}

pub fn char_is_ident_start(c: char) -> (r: bool)
    ensures
        r == is_ident_start_char(c),
{
    (c >= 'a' && c <= 'z') || (c >= 'A' && c <= 'Z') || c == '_'
}

pub fn char_is_ident_cont(c: char) -> (r: bool)
    ensures
        r == is_ident_cont_char(c),
{
    char_is_ident_start(c) || (c >= '0' && c <= '9')
}

/// The length of an identifier at the start of `s`: zero when none starts
/// there.
pub open spec fn ident_len(s: Seq<char>) -> nat {
    if s.len() > 0 && is_ident_start_char(s[0]) {
        1 + run_len(s.drop_first(), |c: char| is_ident_cont_char(c))
    } else {
        0
    }
}

/// Whether position `n` of `s` is a keyword boundary: the end of the text,
/// or a character that cannot continue an identifier.
pub open spec fn kw_boundary(s: Seq<char>, n: nat) -> bool {
    n >= s.len() || !is_ident_cont_char(s[n as int])
}

/// The first entry of `kws`, in declaration order, that satisfies `ok`.
pub open spec fn first_match(kws: Seq<Seq<char>>, ok: spec_fn(Seq<char>) -> bool) -> Option<
    Seq<char>,
>
    decreases kws,
{
    if kws.len() == 0 {
        None
    } else {
        match first_match(kws.drop_last(), ok) {
            Some(k) => Some(k),
            None => if ok(kws.last()) {
                Some(kws.last())
            } else {
                None
            },
        }
    }
}

/// Once a scan of the first `i` entries has found a match, the later
/// entries cannot change it.
pub proof fn lemma_first_match_extend(kws: Seq<Seq<char>>, ok: spec_fn(Seq<char>) -> bool, i: nat)
    requires
        i <= kws.len(),
        first_match(kws.subrange(0, i as int), ok) is Some,
    ensures
        first_match(kws, ok) == first_match(kws.subrange(0, i as int), ok),
    decreases kws.len() - i,
{
    if i == kws.len() {
        assert(kws.subrange(0, i as int) =~= kws);
    } else {
        assert(kws.subrange(0, i + 1 as int).drop_last() =~= kws.subrange(0, i as int));
        assert(kws.subrange(0, i + 1 as int).last() == kws[i as int]);
        lemma_first_match_extend(kws, ok, i + 1);
    }
}

/// What `first_match` finds satisfies its test.
pub proof fn lemma_first_match_ok(kws: Seq<Seq<char>>, ok: spec_fn(Seq<char>) -> bool)
    ensures
        first_match(kws, ok) is Some ==> ok(first_match(kws, ok)->0),
    decreases kws,
{
    if kws.len() > 0 {
        lemma_first_match_ok(kws.drop_last(), ok);
    }
}

/// The longest entry of `kws` that satisfies `ok`; among equally long
/// entries the earliest wins.
pub open spec fn longest_match(kws: Seq<Seq<char>>, ok: spec_fn(Seq<char>) -> bool) -> Option<
    Seq<char>,
>
    decreases kws,
{
    if kws.len() == 0 {
        None
    } else {
        let prev = longest_match(kws.drop_last(), ok);
        if !ok(kws.last()) {
            prev
        } else {
            match prev {
                None => Some(kws.last()),
                Some(b) => if kws.last().len() > b.len() {
                    Some(kws.last())
                } else {
                    Some(b)
                },
            }
        }
    }
}

/// What `longest_match` finds satisfies its test.
pub proof fn lemma_longest_match_ok(kws: Seq<Seq<char>>, ok: spec_fn(Seq<char>) -> bool)
    ensures
        longest_match(kws, ok) is Some ==> ok(longest_match(kws, ok)->0),
    decreases kws,
{
    if kws.len() > 0 {
        lemma_longest_match_ok(kws.drop_last(), ok);
    }
}

/// A single lexical matcher producing one token kind: the closed set of
/// matchers a language description can use.
#[derive(Debug)]
pub enum Atom {
    /// Matches by a regular expression, anchored at the start of the text.
    Regex(RegexAtom),
    /// Matches the longest of a fixed set of keywords, prefix-style.
    Keyword(KeywordAtom),
    /// Matches one fixed literal.
    Literal(LiteralAtom),
    /// Matches a run of whitespace characters.
    Whitespace(WhitespaceAtom),
    /// Matches an identifier: a letter or underscore, then letters, digits
    /// and underscores.
    Identifier(IdentifierAtom),
    /// Matches the first of a fixed set of keywords, requiring a word
    /// boundary after the keyword.
    BoundedKeyword(MockKeywordAtom),
    /// Matches the first of a fixed set of operator symbols.
    Symbol(SymbolAtom),
}

/// The mathematical value of an [`Atom`].
pub enum SpecAtom {
    Regex { kind: SpecKind, pattern: Seq<char> },
    Keyword(Seq<Seq<char>>),
    Literal { kind: SpecKind, literal: Seq<char> },
    Whitespace,
    Identifier,
    BoundedKeyword(Seq<Seq<char>>),
    Symbol(Seq<Seq<char>>),
}

impl View for Atom {
    type V = SpecAtom;

    open spec fn view(&self) -> SpecAtom {
        match self {
            Atom::Regex(a) => a@,
            Atom::Keyword(a) => a@,
            Atom::Literal(a) => a@,
            Atom::Whitespace(a) => a@,
            Atom::Identifier(a) => a@,
            Atom::BoundedKeyword(a) => a@,
            Atom::Symbol(a) => a@,
        }
    }
}

impl DeepView for Atom {
    type V = SpecAtom;

    open spec fn deep_view(&self) -> SpecAtom {
        self.view()
    }
}

/// The kind of token an atom produces.
pub open spec fn spec_atom_kind(a: SpecAtom) -> SpecKind {
    match a {
        SpecAtom::Regex { kind, .. } => kind,
        SpecAtom::Keyword(_) => SpecKind::Identifier(VariableRole::Plain),
        SpecAtom::Literal { kind, .. } => kind,
        SpecAtom::Whitespace => SpecKind::Whitespace,
        SpecAtom::Identifier => SpecKind::Identifier(VariableRole::Plain),
        SpecAtom::BoundedKeyword(_) => SpecKind::Identifier(VariableRole::Plain),
        SpecAtom::Symbol(_) => SpecKind::Operator,
    }
}

/// What an atom consumes at the start of `s`: the kind and character count
/// of the produced token, or nothing when the atom does not match. A match
/// always consumes at least one character.
pub open spec fn atom_spec_parse(a: SpecAtom, s: Seq<char>) -> Option<(SpecKind, nat)> {
    match a {
        SpecAtom::Regex { kind, pattern } => match crate::atoms::regex_match(pattern, s) {
            Some(n) => if 0 < n <= s.len() {
                Some((kind, n))
            } else {
                None
            },
            None => None,
        },
        SpecAtom::Keyword(kws) => match longest_match(
            kws,
            |k: Seq<char>| k.len() > 0 && spec_starts_with(s, k),
        ) {
            Some(k) => Some((SpecKind::Identifier(VariableRole::Plain), k.len())),
            None => None,
        },
        SpecAtom::Literal { kind, literal } => if literal.len() > 0 && spec_starts_with(
            s,
            literal,
        ) {
            Some((kind, literal.len()))
        } else {
            None
        },
        SpecAtom::Whitespace => {
            let n = run_len(s, |c: char| is_ws_char(c));
            if n > 0 {
                Some((SpecKind::Whitespace, n))
            } else {
                None
            }
        },
        SpecAtom::Identifier => {
            let n = ident_len(s);
            if n > 0 {
                Some((SpecKind::Identifier(VariableRole::Plain), n))
            } else {
                None
            }
        },
        SpecAtom::BoundedKeyword(kws) => match first_match(
            kws,
            |k: Seq<char>|
                k.len() > 0 && spec_starts_with(s, k) && kw_boundary(s, k.len()),
        ) {
            Some(k) => Some((SpecKind::Identifier(VariableRole::Plain), k.len())),
            None => None,
        },
        SpecAtom::Symbol(syms) => match first_match(
            syms,
            |k: Seq<char>| k.len() > 0 && spec_starts_with(s, k),
        ) {
            Some(k) => Some((SpecKind::Operator, k.len())),
            None => None,
        },
    }
}

/// A match consumes at least one character and never more than the text.
pub proof fn lemma_atom_parse_bounds(a: SpecAtom, s: Seq<char>)
    ensures
        atom_spec_parse(a, s) is Some ==> 1 <= (atom_spec_parse(a, s)->0).1 <= s.len(),
{
    match a {
        SpecAtom::Regex { .. } => {},
        SpecAtom::Keyword(kws) => {
            lemma_longest_match_ok(kws, |k: Seq<char>| k.len() > 0 && spec_starts_with(s, k));
        },
        SpecAtom::Literal { .. } => {},
        SpecAtom::Whitespace => {
            crate::token::lemma_run_len_le(s, |c: char| is_ws_char(c));
        },
        SpecAtom::Identifier => {
            if s.len() > 0 && is_ident_start_char(s[0]) {
                crate::token::lemma_run_len_le(
                    s.drop_first(),
                    |c: char| is_ident_cont_char(c),
                );
            }
        },
        SpecAtom::BoundedKeyword(kws) => {
            lemma_first_match_ok(
                kws,
                |k: Seq<char>|
                    k.len() > 0 && spec_starts_with(s, k) && kw_boundary(s, k.len()),
            );
        },
        SpecAtom::Symbol(syms) => {
            lemma_first_match_ok(syms, |k: Seq<char>| k.len() > 0 && spec_starts_with(s, k));
        },
    }
}

/// The contract every atom's `parse` meets: on a match, the token covers
/// exactly the consumed prefix, carries the right kind and span, and the
/// cursor has advanced past it; on a miss, nothing matched.
pub open spec fn atom_parse_post<'a>(
    a: SpecAtom,
    input: Cursor<'a>,
    r: Option<(Token, Cursor<'a>)>,
) -> bool {
    match r {
        Some((tok, next)) => {
            &&& atom_spec_parse(a, input.rest@) == Some((tok@.kind, tok@.text.len() as nat))
            &&& 1 <= tok@.text.len() <= input.rest@.len()
            &&& tok@.text == input.rest@.subrange(0, tok@.text.len() as int)
            &&& tok@.location.offset == input.offset
            &&& tok@.location.len == tok@.text.len()
            &&& tok@.atom_index is None
            &&& tok@.binding is None
            &&& next.offset == input.offset + tok@.text.len()
            &&& next.rest@ == input.rest@.subrange(
                tok@.text.len() as int,
                input.rest@.len() as int,
            )
        },
        None => atom_spec_parse(a, input.rest@) is None,
    }
}

impl Atom {
    /// The kind of token this atom produces.
    pub fn kind(&self) -> (r: AtomKind)
        ensures
            r@ == spec_atom_kind(self@),
    {
        match self {
            Atom::Regex(a) => a.kind(),
            Atom::Keyword(_) => AtomKind::Identifier(VariableRole::Plain),
            Atom::Literal(a) => a.kind(),
            Atom::Whitespace(_) => AtomKind::Whitespace,
            Atom::Identifier(_) => AtomKind::Identifier(VariableRole::Plain),
            Atom::BoundedKeyword(_) => AtomKind::Identifier(VariableRole::Plain),
            Atom::Symbol(_) => AtomKind::Operator,
        }
    }

    /// Tries to parse a token from the current cursor position. Returns the
    /// token and the advanced cursor on success, or nothing when the input
    /// does not match.
    pub fn parse<'a>(&self, input: Cursor<'a>) -> (r: Option<(Token, Cursor<'a>)>)
        requires
            input.offset + input.rest@.len() <= usize::MAX,
        ensures
            atom_parse_post(self@, input, r),
    {
        match self {
            Atom::Regex(a) => a.parse(input),
            Atom::Keyword(a) => a.parse(input),
            Atom::Literal(a) => a.parse(input),
            Atom::Whitespace(a) => a.parse(input),
            Atom::Identifier(a) => a.parse(input),
            Atom::BoundedKeyword(a) => a.parse(input),
            Atom::Symbol(a) => a.parse(input),
        }
    }

    /// The highlight style this atom assigns to its tokens.
    pub fn highlight_style(&self) -> (r: HighlightStyle)
        ensures
            r == spec_highlight_style(self@),
    {
        match self {
            Atom::Regex(a) => a.highlight_style(),
            Atom::Keyword(_) => HighlightStyle::Keyword,
            Atom::Literal(a) => a.highlight_style(),
            Atom::Whitespace(_) => HighlightStyle::Plain,
            Atom::Identifier(_) => HighlightStyle::Variable,
            Atom::BoundedKeyword(_) => HighlightStyle::Keyword,
            Atom::Symbol(_) => HighlightStyle::Operator,
        }
    }
}

/// The highlight style of each atom's output: regex and literal atoms go by
/// their kind, keyword atoms always highlight as keywords.
pub open spec fn spec_highlight_style(a: SpecAtom) -> HighlightStyle {
    match a {
        SpecAtom::Regex { kind, .. } => spec_kind_style(kind),
        SpecAtom::Keyword(_) => HighlightStyle::Keyword,
        SpecAtom::Literal { kind, .. } => match kind {
            SpecKind::Operator => HighlightStyle::Operator,
            _ => HighlightStyle::Plain,
        },
        SpecAtom::Whitespace => HighlightStyle::Plain,
        SpecAtom::Identifier => HighlightStyle::Variable,
        SpecAtom::BoundedKeyword(_) => HighlightStyle::Keyword,
        SpecAtom::Symbol(_) => HighlightStyle::Operator,
    }
}

/// The style a token kind is shown in when its atom has no rule of its own.
pub open spec fn spec_kind_style(kind: SpecKind) -> HighlightStyle {
    match kind {
        SpecKind::String => HighlightStyle::String,
        SpecKind::Number => HighlightStyle::Number,
        SpecKind::Operator => HighlightStyle::Operator,
        SpecKind::Whitespace => HighlightStyle::Plain,
        SpecKind::Identifier(_) => HighlightStyle::Variable,
        _ => HighlightStyle::Plain,
    }
}

} // verus!
