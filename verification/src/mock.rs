//! A small ready-made language for tests and demos: whitespace, identifier,
//! keyword and symbol atoms, and a builder around them.

use vstd::prelude::*;

use crate::atom::{
    atom_parse_post, char_is_ident_cont, char_is_ident_start, char_is_ws, first_match,
    is_ident_cont_char, is_ident_start_char, is_ws_char, kw_boundary, lemma_first_match_extend,
    AtomKind, SpecAtom, VariableRole,
};
use crate::atom::Atom;
use crate::atoms::to_owned_all;
use crate::language::{Delimiter, Language};
use crate::token::{lemma_run_len_scan, run_len, spec_starts_with, str_starts_with, Cursor, Token};

verus! {

/// Matches a run of whitespace characters (space, tab, newline, carriage
/// return).
#[derive(Debug)]
pub struct WhitespaceAtom;

impl View for WhitespaceAtom {
    type V = SpecAtom;

    open spec fn view(&self) -> SpecAtom {
        SpecAtom::Whitespace
    }
}

impl WhitespaceAtom {
    pub fn parse<'a>(&self, input: Cursor<'a>) -> (r: Option<(Token, Cursor<'a>)>)
        requires
            input.offset + input.rest@.len() <= usize::MAX,
        ensures
            atom_parse_post(self@, input, r),
    {
        let n = input.rest.unicode_len();
        let mut i: usize = 0;
        while i < n && char_is_ws(input.rest.get_char(i))
            invariant
                i <= n,
                n == input.rest@.len(),
                forall|j: int| 0 <= j < i ==> is_ws_char(input.rest@[j]),
            decreases n - i,
        {
            i = i + 1;
        }
        proof {
            lemma_run_len_scan(input.rest@, |c: char| is_ws_char(c), i as nat);
        }
        if i > 0 {
            let text = input.rest.substring_char(0, i);
            Some((Token::new(AtomKind::Whitespace, text, input.offset), input.advance(i)))
        } else {
            None
        }
    }
}

/// Matches an identifier: a letter or underscore, then letters, digits and
/// underscores.
#[derive(Debug)]
pub struct IdentifierAtom;

impl View for IdentifierAtom {
    type V = SpecAtom;

    open spec fn view(&self) -> SpecAtom {
        SpecAtom::Identifier
    }
}

impl IdentifierAtom {
    pub fn parse<'a>(&self, input: Cursor<'a>) -> (r: Option<(Token, Cursor<'a>)>)
        requires
            input.offset + input.rest@.len() <= usize::MAX,
        ensures
            atom_parse_post(self@, input, r),
    {
        let n = input.rest.unicode_len();
        if n == 0 || !char_is_ident_start(input.rest.get_char(0)) {
            return None;
        }
        let mut i: usize = 1;
        while i < n && char_is_ident_cont(input.rest.get_char(i))
            invariant
                1 <= i <= n,
                n == input.rest@.len(),
                forall|j: int| 1 <= j < i ==> is_ident_cont_char(input.rest@[j]),
            decreases n - i,
        {
            i = i + 1;
        }
        proof {
            let d = input.rest@.drop_first();
            assert forall|j: int| 0 <= j < i - 1 implies (|c: char| is_ident_cont_char(c))(
                d[j],
            ) by {
                assert(d[j] == input.rest@[j + 1]);
            }
            if i < n {
                assert(d[i - 1] == input.rest@[i as int]);
            }
            lemma_run_len_scan(d, |c: char| is_ident_cont_char(c), (i - 1) as nat);
        }
        let text = input.rest.substring_char(0, i);
        Some((
            Token::new(AtomKind::Identifier(VariableRole::Plain), text, input.offset),
            input.advance(i),
        ))
    }
}

/// Matches the first of a fixed set of keywords, and only at a word
/// boundary: the keyword must not be followed by an identifier character.
#[derive(Debug)]
pub struct KeywordAtom {
    keywords: Vec<String>,
}

impl KeywordAtom {
    /// The keywords this atom matches, in declaration order.
    pub closed spec fn spec_keywords(&self) -> Seq<Seq<char>> {
        self.keywords.deep_view()
    }
}

impl View for KeywordAtom {
    type V = SpecAtom;

    open spec fn view(&self) -> SpecAtom {
        SpecAtom::BoundedKeyword(self.spec_keywords())
    }
}

impl KeywordAtom {
    pub fn new(keywords: &[&str]) -> (r: Self)
        ensures
            r@ == SpecAtom::BoundedKeyword(keywords.deep_view()),
    {
        Self { keywords: to_owned_all(keywords) }
    }

    pub fn parse<'a>(&self, input: Cursor<'a>) -> (r: Option<(Token, Cursor<'a>)>)
        requires
            input.offset + input.rest@.len() <= usize::MAX,
        ensures
            atom_parse_post(self@, input, r),
    {
        let ghost dv = self.keywords.deep_view();
        let ghost ok = |k: Seq<char>|
            k.len() > 0 && spec_starts_with(input.rest@, k) && kw_boundary(input.rest@, k.len());
        let n = input.rest.unicode_len();
        let mut i: usize = 0;
        while i < self.keywords.len()
            invariant
                i <= dv.len(),
                dv == self.keywords.deep_view(),
                dv.len() == self.keywords@.len(),
                n == input.rest@.len(),
                input.offset + input.rest@.len() <= usize::MAX,
                ok == (|k: Seq<char>|
                    k.len() > 0 && spec_starts_with(input.rest@, k) && kw_boundary(
                        input.rest@,
                        k.len(),
                    )),
                first_match(dv.subrange(0, i as int), ok) is None,
            decreases dv.len() - i,
        {
            proof {
                assert(dv.subrange(0, i + 1 as int).drop_last() =~= dv.subrange(0, i as int));
                assert(dv.subrange(0, i + 1 as int).last() == dv[i as int]);
                assert(self.keywords@[i as int]@ == dv[i as int]);
            }
            let kw = &self.keywords[i];
            let kw_len = kw.as_str().unicode_len();
            if kw_len > 0 && str_starts_with(input.rest, kw.as_str()) {
                let at_boundary = kw_len == n || !char_is_ident_cont(input.rest.get_char(kw_len));
                if at_boundary {
                    proof {
                        lemma_first_match_extend(dv, ok, (i + 1) as nat);
                    }
                    let tok = Token::new(
                        AtomKind::Identifier(VariableRole::Plain),
                        kw.as_str(),
                        input.offset,
                    );
                    return Some((tok, input.advance(kw_len)));
                }
            }
            i = i + 1;
        }
        proof {
            assert(dv.subrange(0, dv.len() as int) =~= dv);
        }
        None
    }
}

/// Matches the first of a fixed set of operator symbols.
#[derive(Debug)]
pub struct SymbolAtom {
    symbols: Vec<String>,
}

impl SymbolAtom {
    /// The symbols this atom matches, in declaration order.
    pub closed spec fn spec_symbols(&self) -> Seq<Seq<char>> {
        self.symbols.deep_view()
    }
}

impl View for SymbolAtom {
    type V = SpecAtom;

    open spec fn view(&self) -> SpecAtom {
        SpecAtom::Symbol(self.spec_symbols())
    }
}

impl SymbolAtom {
    pub fn new(symbols: &[&str]) -> (r: Self)
        ensures
            r@ == SpecAtom::Symbol(symbols.deep_view()),
    {
        Self { symbols: to_owned_all(symbols) }
    }

    pub fn parse<'a>(&self, input: Cursor<'a>) -> (r: Option<(Token, Cursor<'a>)>)
        requires
            input.offset + input.rest@.len() <= usize::MAX,
        ensures
            atom_parse_post(self@, input, r),
    {
        let ghost dv = self.symbols.deep_view();
        let ghost ok = |k: Seq<char>| k.len() > 0 && spec_starts_with(input.rest@, k);
        let mut i: usize = 0;
        while i < self.symbols.len()
            invariant
                i <= dv.len(),
                dv == self.symbols.deep_view(),
                dv.len() == self.symbols@.len(),
                input.offset + input.rest@.len() <= usize::MAX,
                ok == (|k: Seq<char>| k.len() > 0 && spec_starts_with(input.rest@, k)),
                first_match(dv.subrange(0, i as int), ok) is None,
            decreases dv.len() - i,
        {
            proof {
                assert(dv.subrange(0, i + 1 as int).drop_last() =~= dv.subrange(0, i as int));
                assert(dv.subrange(0, i + 1 as int).last() == dv[i as int]);
                assert(self.symbols@[i as int]@ == dv[i as int]);
            }
            let sym = &self.symbols[i];
            let sym_len = sym.as_str().unicode_len();
            if sym_len > 0 && str_starts_with(input.rest, sym.as_str()) {
                proof {
                    lemma_first_match_extend(dv, ok, (i + 1) as nat);
                }
                let tok = Token::new(AtomKind::Operator, sym.as_str(), input.offset);
                return Some((tok, input.advance(sym_len)));
            }
            i = i + 1;
        }
        proof {
            assert(dv.subrange(0, dv.len() as int) =~= dv);
        }
        None
    }
}

/// A factory for the ready-made test language: whitespace, a `let` keyword
/// and identifiers, with parentheses as the one delimiter pair.
#[derive(Debug)]
pub struct MockLanguage;

impl MockLanguage {
    pub fn new() -> (r: Language)
        ensures
            r.atoms@.len() == 3,
            r.atoms@[0].deep_view() == SpecAtom::Whitespace,
            r.atoms@[1].deep_view() == SpecAtom::BoundedKeyword(seq!["let"@]),
            r.atoms@[2].deep_view() == SpecAtom::Identifier,
            r.delimiters@.len() == 1,
            r.delimiters@[0]@.kind == "paren"@,
            r.delimiters@[0]@.open == "("@,
            r.delimiters@[0]@.close == ")"@,
            r.macros@.len() == 0,
            r.variable_rules.spec_keywords().len() == 0,
    {
        let kws: [&str; 1] = ["let"];
        proof {
            assert(kws.deep_view() =~= seq!["let"@]);
        }
        Language::new()
            .with_atom(Atom::Whitespace(WhitespaceAtom))
            .with_atom(Atom::BoundedKeyword(KeywordAtom::new(&kws)))
            .with_atom(Atom::Identifier(IdentifierAtom))
            .with_delimiter(Delimiter { kind: "paren", open: "(", close: ")" })
    }
}

} // verus!
