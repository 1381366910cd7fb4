//! Reusable atom implementations: regular-expression matching, longest-match
//! keyword sets, and fixed literals.

use vstd::prelude::*;

use crate::atom::{
    atom_parse_post, atom_spec_parse, longest_match, AtomKind, SpecAtom, SpecKind,
};
use crate::highlighter::HighlightStyle;
use crate::token::{spec_starts_with, str_starts_with, Cursor, Token};

verus! {

/// Whether the regex engine accepts `pattern`.
pub uninterp spec fn regex_valid(pattern: Seq<char>) -> bool;

/// What the regex engine finds for `pattern` in `text`: the number of
/// characters from the start of `text` to the end of the leftmost match,
/// or nothing when the pattern is invalid or does not match.
pub uninterp spec fn regex_match(pattern: Seq<char>, text: Seq<char>) -> Option<nat>;

/// Relies on regex::Regex::new: whether the pattern compiles.
#[verifier::external_body]
fn regex_compiles(pattern: &str) -> (r: bool)
    ensures
        r == regex_valid(pattern@),
{
    regex::Regex::new(pattern).is_ok()
}

/// Relies on regex::Regex::find and regex::Match::end: the end of the
/// leftmost match, converted from a byte offset into a character count,
/// which never exceeds the text's length. The result is a function of the
/// pattern and the text alone.
#[verifier::external_body]
fn regex_prefix_chars(pattern: &str, text: &str) -> (r: Option<usize>)
    requires
        regex_valid(pattern@),
    ensures
        (r is Some) == (regex_match(pattern@, text@) is Some),
        r is Some ==> regex_match(pattern@, text@)->0 == r->0 as nat && r->0 <= text@.len(),
{
    let re = regex::Regex::new(pattern).ok()?;
    let m = re.find(text)?;
    Some(text[..m.end()].chars().count())
}

/// The pattern anchored to the start of the text: unchanged when it already
/// starts with `^`, else with `^` prepended.
pub open spec fn spec_anchored(p: Seq<char>) -> Seq<char> {
    if p.len() > 0 && p[0] == '^' {
        p
    } else {
        "^"@ + p
    }
}

/// An atom that uses a regular expression to match tokens.
///
/// This is useful for defining tokens like whitespace, identifiers, and
/// literals without writing a custom state machine. The pattern is
/// automatically anchored to the start of the text if it is not already.
#[derive(Debug)]
pub struct RegexAtom {
    kind: AtomKind,
    pattern: String,
}

impl RegexAtom {
    #[verifier::type_invariant]
    spec fn type_inv(&self) -> bool {
        regex_valid(self.pattern@)
    }

    /// Creates a new regex atom; nothing when the regex engine rejects the
    /// anchored pattern.
    pub fn new(kind: AtomKind, pattern: &str) -> (r: Option<Self>)
        ensures
            match r {
                Some(a) => a@ == (SpecAtom::Regex {
                    kind: kind@,
                    pattern: spec_anchored(pattern@),
                }) && regex_valid(spec_anchored(pattern@)),
                None => !regex_valid(spec_anchored(pattern@)),
            },
    {
        let anchored: String;
        if pattern.unicode_len() > 0 && pattern.get_char(0) == '^' {
            anchored = pattern.to_owned();
        } else {
            let mut s = "^".to_owned();
            s.append(pattern);
            anchored = s;
        }
        if regex_compiles(anchored.as_str()) {
            Some(Self { kind, pattern: anchored })
        } else {
            None
        }
    }

    pub fn kind(&self) -> (r: AtomKind)
        ensures
            r@ == self@->Regex_kind,
    {
        self.kind.duplicate()
    }

    pub fn parse<'a>(&self, input: Cursor<'a>) -> (r: Option<(Token, Cursor<'a>)>)
        requires
            input.offset + input.rest@.len() <= usize::MAX,
        ensures
            atom_parse_post(self@, input, r),
    {
        proof {
            use_type_invariant(self);
        }
        match regex_prefix_chars(self.pattern.as_str(), input.rest) {
            Some(len) => {
                if len == 0 {
                    return None;
                }
                let text = input.rest.substring_char(0, len);
                Some((Token::new(self.kind.duplicate(), text, input.offset), input.advance(len)))
            },
            None => None,
        }
    }

    pub fn highlight_style(&self) -> (r: HighlightStyle)
        ensures
            r == crate::atom::spec_kind_style(self@->Regex_kind),
    {
        match &self.kind {
            AtomKind::String => HighlightStyle::String,
            AtomKind::Number => HighlightStyle::Number,
            AtomKind::Operator => HighlightStyle::Operator,
            AtomKind::Whitespace => HighlightStyle::Plain,
            AtomKind::Identifier(_) => HighlightStyle::Variable,
            _ => HighlightStyle::Plain,
        }
    }
}

impl RegexAtom {
    /// The anchored pattern this atom matches with.
    pub closed spec fn spec_pattern(&self) -> Seq<char> {
        self.pattern@
    }

    /// The kind of token this atom produces.
    pub closed spec fn spec_kind(&self) -> SpecKind {
        self.kind@
    }
}

impl View for RegexAtom {
    type V = SpecAtom;

    open spec fn view(&self) -> SpecAtom {
        SpecAtom::Regex { kind: self.spec_kind(), pattern: self.spec_pattern() }
    }
}

/// An atom that matches a fixed set of keywords, preferring the longest
/// match so that e.g. `integer` is not cut short at `int`.
#[derive(Debug)]
pub struct KeywordAtom {
    keywords: Vec<String>,
}

impl KeywordAtom {
    /// The keywords this atom matches, in declaration order.
    pub closed spec fn spec_keywords(&self) -> Seq<Seq<char>> {
        self.keywords.deep_view()
    }
}

impl View for KeywordAtom {
    type V = SpecAtom;

    open spec fn view(&self) -> SpecAtom {
        SpecAtom::Keyword(self.spec_keywords())
    }
}

impl KeywordAtom {
    pub fn new(keywords: &[&str]) -> (r: Self)
        ensures
            r@ == SpecAtom::Keyword(keywords.deep_view()),
    {
        Self { keywords: to_owned_all(keywords) }
    }

    pub fn parse<'a>(&self, input: Cursor<'a>) -> (r: Option<(Token, Cursor<'a>)>)
        requires
            input.offset + input.rest@.len() <= usize::MAX,
        ensures
            atom_parse_post(self@, input, r),
    {
        let ghost dv = self.keywords.deep_view();
        let ghost ok = |k: Seq<char>| k.len() > 0 && spec_starts_with(input.rest@, k);
        let mut best: Option<usize> = None;
        let mut best_len: usize = 0;
        let mut i: usize = 0;
        while i < self.keywords.len()
            invariant
                i <= dv.len(),
                dv == self.keywords.deep_view(),
                dv.len() == self.keywords@.len(),
                ok == (|k: Seq<char>| k.len() > 0 && spec_starts_with(input.rest@, k)),
                match best {
                    None => longest_match(dv.subrange(0, i as int), ok) is None,
                    Some(bi) => {
                        &&& bi < i
                        &&& longest_match(dv.subrange(0, i as int), ok) == Some(dv[bi as int])
                        &&& best_len == dv[bi as int].len()
                        &&& ok(dv[bi as int])
                    },
                },
            decreases dv.len() - i,
        {
            proof {
                assert(dv.subrange(0, i + 1 as int).drop_last() =~= dv.subrange(0, i as int));
                assert(dv.subrange(0, i + 1 as int).last() == dv[i as int]);
                assert(self.keywords@[i as int]@ == dv[i as int]);
            }
            let kw = &self.keywords[i];
            let kw_len = kw.as_str().unicode_len();
            let cur_ok = kw_len > 0 && str_starts_with(input.rest, kw.as_str());
            if cur_ok {
                match best {
                    None => {
                        best = Some(i);
                        best_len = kw_len;
                    },
                    Some(_) => {
                        if kw_len > best_len {
                            best = Some(i);
                            best_len = kw_len;
                        }
                    },
                }
            }
            i = i + 1;
        }
        proof {
            assert(dv.subrange(0, dv.len() as int) =~= dv);
        }
        match best {
            Some(bi) => {
                let kw = &self.keywords[bi];
                let tok = Token::new(
                    AtomKind::Identifier(crate::atom::VariableRole::Plain),
                    kw.as_str(),
                    input.offset,
                );
                Some((tok, input.advance(best_len)))
            },
            None => None,
        }
    }
}

/// An atom that matches one fixed literal string.
#[derive(Debug)]
pub struct LiteralAtom {
    kind: AtomKind,
    literal: String,
}

impl LiteralAtom {
    /// The literal this atom matches.
    pub closed spec fn spec_literal(&self) -> Seq<char> {
        self.literal@
    }

    /// The kind of token this atom produces.
    pub closed spec fn spec_kind(&self) -> SpecKind {
        self.kind@
    }
}

impl View for LiteralAtom {
    type V = SpecAtom;

    open spec fn view(&self) -> SpecAtom {
        SpecAtom::Literal { kind: self.spec_kind(), literal: self.spec_literal() }
    }
}

impl LiteralAtom {
    pub fn new(kind: AtomKind, literal: &str) -> (r: Self)
        ensures
            r@ == (SpecAtom::Literal { kind: kind@, literal: literal@ }),
    {
        Self { kind, literal: literal.to_owned() }
    }

    pub fn kind(&self) -> (r: AtomKind)
        ensures
            r@ == self@->Literal_kind,
    {
        self.kind.duplicate()
    }

    pub fn parse<'a>(&self, input: Cursor<'a>) -> (r: Option<(Token, Cursor<'a>)>)
        requires
            input.offset + input.rest@.len() <= usize::MAX,
        ensures
            atom_parse_post(self@, input, r),
    {
        let len = self.literal.as_str().unicode_len();
        if len > 0 && str_starts_with(input.rest, self.literal.as_str()) {
            let tok = Token::new(self.kind.duplicate(), self.literal.as_str(), input.offset);
            Some((tok, input.advance(len)))
        } else {
            None
        }
    }

    pub fn highlight_style(&self) -> (r: HighlightStyle)
        ensures
            r == (match self@->Literal_kind {
                SpecKind::Operator => HighlightStyle::Operator,
                _ => HighlightStyle::Plain,
            }),
    {
        match &self.kind {
            AtomKind::Operator => HighlightStyle::Operator,
            _ => HighlightStyle::Plain,
        }
    }
}

/// Owned copies of all the given string slices, in order.
pub fn to_owned_all(items: &[&str]) -> (r: Vec<String>)
    ensures
        r.deep_view() == items.deep_view(),
{
    let mut v: Vec<String> = Vec::new();
    let mut i: usize = 0;
    while i < items.len()
        invariant
            i <= items@.len(),
            v@.len() == i,
            forall|j: int| 0 <= j < i ==> (#[trigger] v@[j])@ == items@[j]@,
        decreases items@.len() - i,
    {
        v.push(items[i].to_owned());
        i = i + 1;
    }
    proof {
        assert forall|j: int| 0 <= j < items@.len() implies v.deep_view()[j]
            == items.deep_view()[j] by {
            assert(v@[j]@ == items@[j]@);
        }
        assert(v.deep_view() =~= items.deep_view());
    }
    v
}

} // verus!
